//! The allocating forms of the codec, over `String` and `Vec<u8>`.

use vstd::prelude::*;
use vstd::utf8::encode_utf8;
use crate::alphabet::{lemma_symbol_digit, spec_digit, Error};
use crate::checked::{decode_check_into, encode_check_into, spec_check_frame};
use crate::checksum::spec_checksum;
use crate::decode::{de_core, last_bad, spec_decoded, spec_digit_val, spec_symbols_valid};
use crate::encode::{en_core, lemma_encoded_fits, spec_encoded};
use crate::radix::{lead_count, lemma_min_digits, min_digits, seq_val};

verus! {

/// Relies on `String::from_utf8`: a vector of ASCII bytes becomes the
/// string holding exactly those bytes, one character per byte.
#[verifier::external_body]
pub(crate) fn string_from_ascii(bytes: Vec<u8>) -> (r: String)
    requires
        forall|i: int| 0 <= i < bytes@.len() ==> bytes@[i] < 128,
    ensures
        r@.len() == bytes@.len(),
        forall|i: int| 0 <= i < bytes@.len() ==> r@[i] == bytes@[i] as char,
        encode_utf8(r@) == bytes@,
{
    String::from_utf8(bytes).unwrap()
}

/// Every byte of an encoded form is ASCII.
pub proof fn lemma_encoded_ascii(b: Seq<u8>)
    ensures
        forall|i: int| 0 <= i < spec_encoded(b).len() ==> spec_encoded(b)[i] < 128,
{
    let e = spec_encoded(b);
    let lz = lead_count(b, 0);
    let md = min_digits(seq_val(b, 256), 32);
    crate::radix::lemma_seq_val_bound(b, 256);
    lemma_min_digits(seq_val(b, 256), 32);
    crate::radix::lemma_lead_count(b, 0);
    assert(e.len() == lz + md.len());
    assert forall|i: int| 0 <= i < e.len() implies e[i] < 128 by {
        if i < lz {
            assert(e[i] == 48);
        } else {
            assert(e[i] == md.map_values(
                |d: u8| crate::alphabet::spec_symbol(d as int),
            )[i - lz]);
            assert(e[i] == crate::alphabet::spec_symbol(md[i - lz] as int));
            assert(md[i - lz] < 32);
            lemma_symbol_digit(md[i - lz] as int);
        }
    }
}

/// A zero-filled vector of the given length.
pub(crate) fn zero_vec(n: usize) -> (r: Vec<u8>)
    ensures
        r@.len() == n,
{
    let mut r: Vec<u8> = Vec::new();
    let mut i: usize = 0;
    while i < n
        invariant
            i <= n,
            r@.len() == i,
        decreases n - i,
    {
        r.push(0);
        i += 1;
    }
    r
}

/// Encodes bytes into a Crockford Base32-encoded string.
pub fn encode(src: &[u8]) -> (r: String)
    requires
        src@.len() * 8 + 4 <= usize::MAX,
    ensures
        encode_utf8(r@) == spec_encoded(src@),
        r@.len() == spec_encoded(src@).len(),
        forall|i: int| 0 <= i < r@.len() ==> r@[i] == spec_encoded(src@)[i] as char,
{
    let capacity = crate::encoded_len(src.len());
    let mut dst = zero_vec(capacity);
    proof {
        lemma_encoded_fits(src@);
    }
    let n = en_core(src, &mut dst, 0);
    dst.truncate(n);
    proof {
        assert(dst@ =~= spec_encoded(src@));
        lemma_encoded_ascii(src@);
    }
    string_from_ascii(dst)
}

/// Decodes a Crockford Base32-encoded string.
///
/// Works over the string's UTF-8 bytes; a byte outside the decode
/// table, non-ASCII bytes included, is an `InvalidCharacter` at its
/// byte index, scanning from the end.
pub fn decode(s: &str) -> (r: Result<Vec<u8>, Error>)
    ensures
        ({
            let sb = encode_utf8(s@);
            match r {
                Ok(v) => {
                    &&& spec_symbols_valid(sb)
                    &&& v@ == spec_decoded(sb)
                },
                Err(e) => {
                    &&& !spec_symbols_valid(sb)
                    &&& e == (Error::InvalidCharacter {
                        char: sb[last_bad(sb)] as char,
                        index: last_bad(sb) as usize,
                    })
                },
            }
        }),
{
    let bytes = s.as_bytes();
    let mut dst = zero_vec(bytes.len());
    proof {
        assert(bytes@.subrange(0, bytes@.len() as int) =~= bytes@);
    }
    let n = match de_core(bytes, 0, bytes.len(), &mut dst) {
        Ok(n) => n,
        Err(e) => {
            return Err(e);
        },
    };
    dst.truncate(n);
    proof {
        assert(dst@ =~= spec_decoded(bytes@));
    }
    Ok(dst)
}

/// Encodes bytes into a Crockford Base32Check-encoded string, or fails
/// with `InvalidVersion` when the version is 32 or greater.
pub fn encode_check(src: &[u8], version: u8) -> (r: Result<String, Error>)
    requires
        (src@.len() + 4) * 8 + 4 <= usize::MAX,
    ensures
        version >= 32 ==> r == Err::<String, Error>(Error::InvalidVersion { version }),
        version < 32 ==> {
            &&& r is Ok
            &&& encode_utf8(r->Ok_0@) == spec_check_frame(src@, version)
            &&& r->Ok_0@.len() == spec_check_frame(src@, version).len()
        },
{
    let capacity = crate::encoded_check_len(src.len());
    let mut dst = zero_vec(capacity);
    let n = match encode_check_into(src, &mut dst, version) {
        Ok(n) => n,
        Err(e) => {
            return Err(e);
        },
    };
    dst.truncate(n);
    proof {
        assert(dst@ =~= spec_check_frame(src@, version));
        lemma_encoded_ascii(src@ + spec_checksum(src@, version));
        crate::alphabet::lemma_symbol_digit(version as int);
        assert(forall|i: int| 0 <= i < dst@.len() ==> dst@[i] < 128);
    }
    Ok(string_from_ascii(dst))
}

/// Decodes a Crockford Base32Check-encoded string into its payload and
/// version.
pub fn decode_check(s: &str) -> (r: Result<(Vec<u8>, u8), Error>)
    ensures
        ({
            let sb = encode_utf8(s@);
            &&& sb.len() < 2 ==> r == Err::<(Vec<u8>, u8), Error>(
                Error::InsufficientData { min: 2, len: sb.len() as usize },
            )
            &&& sb.len() >= 2 && spec_digit(sb[0]) is None ==> r == Err::<(Vec<u8>, u8), Error>(
                Error::InvalidCharacter { char: sb[0] as char, index: 0 },
            )
            &&& sb.len() >= 2 && spec_digit(sb[0]) is Some && !spec_symbols_valid(sb.skip(1))
                ==> r == Err::<(Vec<u8>, u8), Error>(
                Error::InvalidCharacter {
                    char: sb.skip(1)[last_bad(sb.skip(1))] as char,
                    index: (last_bad(sb.skip(1)) + 1) as usize,
                },
            )
            &&& sb.len() >= 2 && spec_digit(sb[0]) is Some && spec_symbols_valid(sb.skip(1))
                ==> ({
                let p = spec_decoded(sb.skip(1));
                let v = spec_digit_val(sb[0]);
                &&& p.len() < 4 ==> r == Err::<(Vec<u8>, u8), Error>(
                    Error::InsufficientData { min: 4, len: p.len() as usize },
                )
                &&& p.len() >= 4 ==> {
                    let payload = p.take(p.len() - 4);
                    let embedded = p.skip(p.len() - 4);
                    &&& embedded != spec_checksum(payload, v) ==> {
                        &&& r matches Err(Error::ChecksumMismatch { expected, got })
                        &&& (r matches Err(Error::ChecksumMismatch { expected, got })
                            ==> expected@ == spec_checksum(payload, v) && got@ == embedded)
                    }
                    &&& embedded == spec_checksum(payload, v) ==> {
                        &&& r is Ok
                        &&& r->Ok_0.0@ == payload
                        &&& r->Ok_0.1 == v
                    }
                }
            })
        }),
{
    let bytes = s.as_bytes();
    let mut dst = zero_vec(bytes.len());
    proof {
        assert(bytes@ == encode_utf8(s@));
    }
    let (n, version) = match decode_check_into(bytes, &mut dst) {
        Ok(pair) => pair,
        Err(e) => {
            return Err(e);
        },
    };
    let ghost mid = dst@;
    dst.truncate(n);
    proof {
        let sb = bytes@;
        if sb.len() >= 2 && spec_digit(sb[0]) is Some && spec_symbols_valid(sb.skip(1)) {
            let p = spec_decoded(sb.skip(1));
            crate::decode::lemma_decoded_fits(sb.skip(1));
            if p.len() >= 4 {
                assert(mid.subrange(0, p.len() as int) == p);
                assert(n == p.len() - 4);
                assert(dst@ == mid.subrange(0, n as int));
                assert(dst@ =~= p.take(p.len() - 4));
            }
        }
    }
    Ok((dst, version))
}

} // verus!
