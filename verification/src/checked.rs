//! The checksum layer: the `[version][payload][checksum]` frame on top
//! of the raw codec.

use vstd::prelude::*;
use crate::alphabet::{digit_of, spec_digit, spec_symbol, symbol_of, Error};
use crate::checksum::{spec_checksum, Checksum};
use crate::decode::{
    de_core, last_bad, lemma_last_bad_range, spec_decoded, spec_digit_val, spec_symbols_valid,
};
use crate::encode::{en_core, spec_encoded};
use crate::spec_encoded_check_len;

verus! {

/// The full check-encoded frame of a payload under a version: the
/// version symbol, then the payload and its checksum encoded as one
/// unit.
pub open spec fn spec_check_frame(b: Seq<u8>, v: u8) -> Seq<u8> {
    seq![spec_symbol(v as int)] + spec_encoded(b + spec_checksum(b, v))
}

/// Encodes bytes as a check frame into a provided buffer.
///
/// Returns the number of bytes written; fails with `BufferTooSmall`
/// when the buffer is shorter than `encoded_check_len` of the input
/// length, and otherwise with `InvalidVersion` when the version is 32
/// or greater.
pub fn encode_check_into(src: &[u8], dst: &mut [u8], version: u8) -> (r: Result<usize, Error>)
    requires
        (src@.len() + 4) * 8 + 4 <= usize::MAX,
    ensures
        old(dst)@.len() < spec_encoded_check_len(src@.len()) ==> {
            &&& r == Err::<usize, Error>(
                Error::BufferTooSmall {
                    min: spec_encoded_check_len(src@.len()) as usize,
                    len: old(dst)@.len() as usize,
                },
            )
            &&& final(dst)@ == old(dst)@
        },
        old(dst)@.len() >= spec_encoded_check_len(src@.len()) && version >= 32 ==> {
            &&& r == Err::<usize, Error>(Error::InvalidVersion { version })
            &&& final(dst)@ == old(dst)@
        },
        old(dst)@.len() >= spec_encoded_check_len(src@.len()) && version < 32 ==> {
            &&& r is Ok
            &&& r->Ok_0 == spec_check_frame(src@, version).len()
            &&& final(dst)@.len() == old(dst)@.len()
            &&& final(dst)@.subrange(0, r->Ok_0 as int) == spec_check_frame(src@, version)
            &&& r->Ok_0 <= spec_encoded_check_len(src@.len())
        },
{
    let capacity = crate::encoded_check_len(src.len());
    if dst.len() < capacity {
        return Err(Error::BufferTooSmall { min: capacity, len: dst.len() });
    }
    if version >= 32 {
        return Err(Error::InvalidVersion { version });
    }

    // the version symbol leads the frame
    let sym = symbol_of(version);
    dst[0] = sym;

    // the payload and its checksum are encoded as one unit
    let sum = crate::checksum::compute(src, version);
    let mut data: Vec<u8> = Vec::new();
    let mut i: usize = 0;
    while i < src.len()
        invariant
            i <= src@.len(),
            data@ == src@.subrange(0, i as int),
        decreases src@.len() - i,
    {
        let b = src[i];
        data.push(b);
        proof {
            assert(data@ =~= src@.subrange(0, i + 1));
        }
        i += 1;
    }
    proof {
        assert(src@.subrange(0, src@.len() as int) =~= src@);
    }
    data.push(sum[0]);
    data.push(sum[1]);
    data.push(sum[2]);
    data.push(sum[3]);
    proof {
        assert(data@ =~= src@ + spec_checksum(src@, version));
    }

    let n = en_core(data.as_slice(), dst, 1);
    proof {
        let frame = spec_check_frame(src@, version);
        assert(frame.len() == 1 + n);
        assert(final(dst)@.subrange(0, 1 + n as int) =~= frame);
    }
    Ok(1 + n)
}

/// Decodes a check frame from `src[off..]` into `dst[0..]`, returning
/// the payload length and the version.
///
/// Checks run in order: a two-symbol minimum, the version symbol, the
/// remaining symbols, a four-byte minimum for the decoded frame, and
/// finally the checksum itself.  Reported indices are relative to the
/// window that starts at `off`.
pub(crate) fn decode_check_core(src: &[u8], off: usize, dst: &mut [u8]) -> (r: Result<
    (usize, u8),
    Error,
>)
    requires
        off <= src@.len(),
        old(dst)@.len() >= src@.len() - off,
    ensures
        final(dst)@.len() == old(dst)@.len(),
        ({
            let w = src@.skip(off as int);
            &&& w.len() < 2 ==> {
                &&& r == Err::<(usize, u8), Error>(
                    Error::InsufficientData { min: 2, len: w.len() as usize },
                )
                &&& final(dst)@ == old(dst)@
            }
            &&& w.len() >= 2 && spec_digit(w[0]) is None ==> {
                &&& r == Err::<(usize, u8), Error>(
                    Error::InvalidCharacter { char: w[0] as char, index: 0 },
                )
                &&& final(dst)@ == old(dst)@
            }
            &&& w.len() >= 2 && spec_digit(w[0]) is Some && !spec_symbols_valid(w.skip(1))
                ==> r == Err::<(usize, u8), Error>(
                Error::InvalidCharacter {
                    char: w.skip(1)[last_bad(w.skip(1))] as char,
                    index: (last_bad(w.skip(1)) + 1) as usize,
                },
            )
            &&& w.len() >= 2 && spec_digit(w[0]) is Some && spec_symbols_valid(w.skip(1)) ==> ({
                let p = spec_decoded(w.skip(1));
                let v = spec_digit_val(w[0]);
                &&& p.len() < 4 ==> r == Err::<(usize, u8), Error>(
                    Error::InsufficientData { min: 4, len: p.len() as usize },
                )
                &&& p.len() >= 4 ==> {
                    let payload = p.take(p.len() - 4);
                    let embedded = p.skip(p.len() - 4);
                    &&& final(dst)@.subrange(0, p.len() as int) == p
                    &&& embedded != spec_checksum(payload, v) ==> {
                        &&& r matches Err(Error::ChecksumMismatch { expected, got })
                        &&& (r matches Err(Error::ChecksumMismatch { expected, got })
                            ==> expected@ == spec_checksum(payload, v) && got@ == embedded)
                    }
                    &&& embedded == spec_checksum(payload, v) ==> r == Ok::<(usize, u8), Error>(
                        ((p.len() - 4) as usize, v),
                    )
                }
            })
        }),
{
    let len = src.len() - off;
    let ghost w = src@.skip(off as int);
    if len < 2 {
        return Err(Error::InsufficientData { min: 2, len });
    }

    // recover the version from the first symbol alone
    let b0 = src[off];
    proof {
        assert(w[0] == src@[off as int]);
    }
    let version = match digit_of(b0) {
        Some(d) => d,
        None => {
            return Err(Error::InvalidCharacter { char: b0 as char, index: 0 });
        },
    };
    proof {
        crate::alphabet::lemma_digit_range(b0);
    }
    if version >= 32 {
        // a decoded symbol is always below 32; kept for the frame rule
        return Err(Error::InvalidVersion { version });
    }

    // decode the payload and checksum as one unit
    let ghost wp = src@.subrange(off + 1, src@.len() as int);
    proof {
        assert(wp =~= w.skip(1));
    }
    let n = match de_core(src, off + 1, len - 1, dst) {
        Ok(n) => n,
        Err(e) => {
            proof {
                lemma_last_bad_range(wp);
            }
            match e {
                Error::InvalidCharacter { char, index } => {
                    return Err(Error::InvalidCharacter { char, index: index + 1 });
                },
                _ => {
                    return Err(e);
                },
            }
        },
    };

    // the decoded frame must hold at least the checksum
    if n < 4 {
        return Err(Error::InsufficientData { min: 4, len: n });
    }
    let plen = n - 4;

    // compare the embedded checksum with a recomputed one
    let got: Checksum = [dst[plen], dst[plen + 1], dst[plen + 2], dst[plen + 3]];
    let mut pay: Vec<u8> = Vec::new();
    let mut i: usize = 0;
    while i < plen
        invariant
            i <= plen,
            plen + 4 <= dst@.len(),
            pay@ == dst@.subrange(0, i as int),
        decreases plen - i,
    {
        let b = dst[i];
        pay.push(b);
        proof {
            assert(pay@ =~= dst@.subrange(0, i + 1));
        }
        i += 1;
    }
    let expected = crate::checksum::compute(pay.as_slice(), version);
    proof {
        let p = spec_decoded(wp);
        assert(pay@ == p.take(p.len() - 4)) by {
            assert(pay@ =~= dst@.subrange(0, plen as int));
            assert(dst@.subrange(0, plen as int) =~= p.take(p.len() - 4));
        }
        assert(got@ =~= p.skip(p.len() - 4));
    }
    if expected[0] != got[0] || expected[1] != got[1] || expected[2] != got[2] || expected[3]
        != got[3] {
        proof {
            assert(expected@ != got@);
        }
        return Err(Error::ChecksumMismatch { expected, got });
    }
    proof {
        assert(expected@ =~= got@);
    }
    Ok((plen, version))
}

/// Decodes a check frame from a provided buffer, returning the payload
/// length and the version.
///
/// Checks run in order: buffer capacity, a two-symbol minimum, the
/// version symbol, the remaining symbols, a four-byte minimum for the
/// decoded frame, and finally the checksum itself.
pub fn decode_check_into(src: &[u8], dst: &mut [u8]) -> (r: Result<(usize, u8), Error>)
    ensures
        final(dst)@.len() == old(dst)@.len(),
        old(dst)@.len() < src@.len() ==> {
            &&& r == Err::<(usize, u8), Error>(
                Error::BufferTooSmall {
                    min: src@.len() as usize,
                    len: old(dst)@.len() as usize,
                },
            )
            &&& final(dst)@ == old(dst)@
        },
        old(dst)@.len() >= src@.len() && src@.len() < 2 ==> {
            &&& r == Err::<(usize, u8), Error>(
                Error::InsufficientData { min: 2, len: src@.len() as usize },
            )
            &&& final(dst)@ == old(dst)@
        },
        old(dst)@.len() >= src@.len() && src@.len() >= 2 && spec_digit(src@[0]) is None ==> {
            &&& r == Err::<(usize, u8), Error>(
                Error::InvalidCharacter { char: src@[0] as char, index: 0 },
            )
            &&& final(dst)@ == old(dst)@
        },
        old(dst)@.len() >= src@.len() && src@.len() >= 2 && spec_digit(src@[0]) is Some
            && !spec_symbols_valid(src@.skip(1)) ==> r == Err::<(usize, u8), Error>(
            Error::InvalidCharacter {
                char: src@.skip(1)[last_bad(src@.skip(1))] as char,
                index: (last_bad(src@.skip(1)) + 1) as usize,
            },
        ),
        old(dst)@.len() >= src@.len() && src@.len() >= 2 && spec_digit(src@[0]) is Some
            && spec_symbols_valid(src@.skip(1)) ==> ({
            let p = spec_decoded(src@.skip(1));
            let v = spec_digit_val(src@[0]);
            &&& p.len() < 4 ==> r == Err::<(usize, u8), Error>(
                Error::InsufficientData { min: 4, len: p.len() as usize },
            )
            &&& p.len() >= 4 ==> {
                let payload = p.take(p.len() - 4);
                let embedded = p.skip(p.len() - 4);
                &&& final(dst)@.subrange(0, p.len() as int) == p
                &&& embedded != spec_checksum(payload, v) ==> {
                    &&& r matches Err(Error::ChecksumMismatch { expected, got })
                    &&& (r matches Err(Error::ChecksumMismatch { expected, got }) ==> expected@
                        == spec_checksum(payload, v) && got@ == embedded)
                }
                &&& embedded == spec_checksum(payload, v) ==> r == Ok::<(usize, u8), Error>(
                    ((p.len() - 4) as usize, v),
                )
            }
        }),
{
    let capacity = crate::decoded_check_len(src.len());
    if dst.len() < capacity {
        return Err(Error::BufferTooSmall { min: capacity, len: dst.len() });
    }
    proof {
        assert(src@.skip(0) =~= src@);
    }
    decode_check_core(src, 0, dst)
}

} // verus!
