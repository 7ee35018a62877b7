//! The prefixed forms: one character in front of every encoded string.

use vstd::prelude::*;
use vstd::utf8::{encode_scalar, encode_utf8};
use crate::alphabet::{spec_digit, Error};
use crate::checked::{decode_check_core, spec_check_frame};
use crate::checksum::spec_checksum;
use crate::decode::{
    de_core, last_bad, lemma_last_bad_range, spec_decoded, spec_digit_val, spec_symbols_valid,
};
use crate::encode::spec_encoded;
use crate::strings::zero_vec;

verus! {

/// Relies on `String::push`: appends exactly one character.
#[verifier::external_body]
fn push_char(s: &mut String, c: char)
    ensures
        final(s)@ == old(s)@.push(c),
{
    s.push(c);
}

/// Relies on `String::push_str`: appends the characters of the slice.
#[verifier::external_body]
fn push_str(s: &mut String, t: &str)
    ensures
        final(s)@ == old(s)@ + t@,
{
    s.push_str(t);
}

/// The first character of a string, if any.
fn first_char(s: &str) -> (r: Option<char>)
    ensures
        r == (if s@.len() > 0 {
            Some(s@[0])
        } else {
            None::<char>
        }),
{
    broadcast use {vstd::string::axiom_spec_iter, vstd::string::next_postcondition};

    let mut it = s.chars();
    it.next()
}

/// How many bytes the UTF-8 encoding of a character takes.
fn char_utf8_len(c: char) -> (r: usize)
    ensures
        r == encode_scalar(c as u32).len(),
        1 <= r <= 4,
{
    proof {
        vstd::utf8::char_is_scalar(c);
    }
    let u = c as u32;
    if u < 0x80 {
        1
    } else if u < 0x800 {
        2
    } else if u < 0x10000 {
        3
    } else {
        4
    }
}

/// Encodes bytes into a prefixed Crockford Base32-encoded string.
pub fn encode_prefixed(src: &[u8], prefix: char) -> (r: String)
    requires
        src@.len() * 8 + 4 <= usize::MAX,
    ensures
        r@.len() == 1 + spec_encoded(src@).len(),
        r@[0] == prefix,
        encode_utf8(r@.skip(1)) == spec_encoded(src@),
{
    let en = crate::strings::encode(src);
    let mut out = String::new();
    push_char(&mut out, prefix);
    push_str(&mut out, en.as_str());
    proof {
        assert(out@.skip(1) =~= en@);
    }
    out
}

/// Decodes a prefixed Crockford Base32-encoded string.
///
/// The input must start with exactly the prefix character; the rest
/// decodes as `decode` does, with invalid-character indices shifted by
/// the prefix's byte width.
pub fn decode_prefixed(s: &str, prefix: char) -> (r: Result<Vec<u8>, Error>)
    ensures
        s@.len() == 0 ==> r == Err::<Vec<u8>, Error>(
            Error::MissingPrefix { char: prefix, got: None },
        ),
        s@.len() > 0 && s@[0] != prefix ==> r == Err::<Vec<u8>, Error>(
            Error::MissingPrefix { char: prefix, got: Some(s@[0]) },
        ),
        s@.len() > 0 && s@[0] == prefix ==> ({
            let rb = encode_utf8(s@.skip(1));
            let k = encode_scalar(prefix as u32).len();
            match r {
                Ok(v) => {
                    &&& spec_symbols_valid(rb)
                    &&& v@ == spec_decoded(rb)
                },
                Err(e) => {
                    &&& !spec_symbols_valid(rb)
                    &&& e == (Error::InvalidCharacter {
                        char: rb[last_bad(rb)] as char,
                        index: (last_bad(rb) + k) as usize,
                    })
                },
            }
        }),
{
    match first_char(s) {
        None => {
            return Err(Error::MissingPrefix { char: prefix, got: None });
        },
        Some(c) => {
            if c != prefix {
                return Err(Error::MissingPrefix { char: prefix, got: Some(c) });
            }
        },
    }
    let k = char_utf8_len(prefix);
    let bytes = s.as_bytes();
    proof {
        assert(s@.drop_first() =~= s@.skip(1));
        assert(bytes@ == encode_scalar(s@[0] as u32) + encode_utf8(s@.skip(1)));
        assert(bytes@.subrange(k as int, bytes@.len() as int) =~= encode_utf8(s@.skip(1)));
    }
    let mut dst = zero_vec(bytes.len() - k);
    let ghost rb = encode_utf8(s@.skip(1));
    let n = match de_core(bytes, k, bytes.len() - k, &mut dst) {
        Ok(n) => n,
        Err(e) => {
            proof {
                lemma_last_bad_range(rb);
            }
            match e {
                Error::InvalidCharacter { char, index } => {
                    return Err(Error::InvalidCharacter { char, index: index + k });
                },
                _ => {
                    return Err(e);
                },
            }
        },
    };
    dst.truncate(n);
    proof {
        assert(dst@ =~= spec_decoded(rb));
    }
    Ok(dst)
}

/// Encodes bytes into a prefixed Crockford Base32Check-encoded string,
/// or fails with `InvalidVersion` when the version is 32 or greater.
pub fn encode_check_prefixed(src: &[u8], prefix: char, version: u8) -> (r: Result<String, Error>)
    requires
        (src@.len() + 4) * 8 + 4 <= usize::MAX,
    ensures
        version >= 32 ==> r == Err::<String, Error>(Error::InvalidVersion { version }),
        version < 32 ==> {
            &&& r is Ok
            &&& r->Ok_0@.len() == 1 + spec_check_frame(src@, version).len()
            &&& r->Ok_0@[0] == prefix
            &&& encode_utf8(r->Ok_0@.skip(1)) == spec_check_frame(src@, version)
        },
{
    let en = match crate::strings::encode_check(src, version) {
        Ok(en) => en,
        Err(e) => {
            return Err(e);
        },
    };
    let mut out = String::new();
    push_char(&mut out, prefix);
    push_str(&mut out, en.as_str());
    proof {
        assert(out@.skip(1) =~= en@);
    }
    Ok(out)
}

/// Decodes a prefixed Crockford Base32Check-encoded string into its
/// payload and version.
///
/// The input must start with exactly the prefix character; the rest
/// decodes as `decode_check` does, with invalid-character indices
/// shifted by the prefix's byte width.
pub fn decode_check_prefixed(s: &str, prefix: char) -> (r: Result<(Vec<u8>, u8), Error>)
    ensures
        s@.len() == 0 ==> r == Err::<(Vec<u8>, u8), Error>(
            Error::MissingPrefix { char: prefix, got: None },
        ),
        s@.len() > 0 && s@[0] != prefix ==> r == Err::<(Vec<u8>, u8), Error>(
            Error::MissingPrefix { char: prefix, got: Some(s@[0]) },
        ),
        s@.len() > 0 && s@[0] == prefix ==> ({
            let rb = encode_utf8(s@.skip(1));
            let k = encode_scalar(prefix as u32).len();
            &&& rb.len() < 2 ==> r == Err::<(Vec<u8>, u8), Error>(
                Error::InsufficientData { min: 2, len: rb.len() as usize },
            )
            &&& rb.len() >= 2 && spec_digit(rb[0]) is None ==> r == Err::<(Vec<u8>, u8), Error>(
                Error::InvalidCharacter { char: rb[0] as char, index: k as usize },
            )
            &&& rb.len() >= 2 && spec_digit(rb[0]) is Some && !spec_symbols_valid(rb.skip(1))
                ==> r == Err::<(Vec<u8>, u8), Error>(
                Error::InvalidCharacter {
                    char: rb.skip(1)[last_bad(rb.skip(1))] as char,
                    index: (last_bad(rb.skip(1)) + 1 + k) as usize,
                },
            )
            &&& rb.len() >= 2 && spec_digit(rb[0]) is Some && spec_symbols_valid(rb.skip(1))
                ==> ({
                let p = spec_decoded(rb.skip(1));
                let v = spec_digit_val(rb[0]);
                &&& p.len() < 4 ==> r == Err::<(Vec<u8>, u8), Error>(
                    Error::InsufficientData { min: 4, len: p.len() as usize },
                )
                &&& p.len() >= 4 ==> {
                    let payload = p.take(p.len() - 4);
                    let embedded = p.skip(p.len() - 4);
                    &&& embedded != spec_checksum(payload, v) ==> {
                        &&& r matches Err(Error::ChecksumMismatch { expected, got })
                        &&& (r matches Err(Error::ChecksumMismatch { expected, got })
                            ==> expected@ == spec_checksum(payload, v) && got@ == embedded)
                    }
                    &&& embedded == spec_checksum(payload, v) ==> {
                        &&& r is Ok
                        &&& r->Ok_0.0@ == payload
                        &&& r->Ok_0.1 == v
                    }
                }
            })
        }),
{
    match first_char(s) {
        None => {
            return Err(Error::MissingPrefix { char: prefix, got: None });
        },
        Some(c) => {
            if c != prefix {
                return Err(Error::MissingPrefix { char: prefix, got: Some(c) });
            }
        },
    }
    let k = char_utf8_len(prefix);
    let bytes = s.as_bytes();
    proof {
        assert(s@.drop_first() =~= s@.skip(1));
        assert(bytes@ == encode_scalar(s@[0] as u32) + encode_utf8(s@.skip(1)));
        assert(bytes@.skip(k as int) =~= encode_utf8(s@.skip(1)));
    }
    let mut dst = zero_vec(bytes.len() - k);
    let ghost rb = encode_utf8(s@.skip(1));
    let (n, version) = match decode_check_core(bytes, k, &mut dst) {
        Ok(pair) => pair,
        Err(e) => {
            proof {
                if rb.len() >= 2 && spec_digit(rb[0]) is Some && !spec_symbols_valid(rb.skip(1)) {
                    lemma_last_bad_range(rb.skip(1));
                }
            }
            match e {
                Error::InvalidCharacter { char, index } => {
                    return Err(Error::InvalidCharacter { char, index: index + k });
                },
                _ => {
                    return Err(e);
                },
            }
        },
    };
    let ghost mid = dst@;
    dst.truncate(n);
    proof {
        if rb.len() >= 2 && spec_digit(rb[0]) is Some && spec_symbols_valid(rb.skip(1)) {
            let p = spec_decoded(rb.skip(1));
            crate::decode::lemma_decoded_fits(rb.skip(1));
            if p.len() >= 4 {
                assert(mid.subrange(0, p.len() as int) == p);
                assert(n == p.len() - 4);
                assert(dst@ == mid.subrange(0, n as int));
                assert(dst@ =~= p.take(p.len() - 4));
            }
        }
    }
    Ok((dst, version))
}

} // verus!
