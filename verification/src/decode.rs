//! The bit-repacking engine, decode direction: 5-bit alphabet symbols
//! back into 8-bit bytes.

use vstd::prelude::*;
use vstd::arithmetic::power::{
    pow, lemma_pow0, lemma_pow_adds, lemma_pow_increases,
};
use vstd::arithmetic::power2::{pow2, lemma_pow2, lemma2_to64};
use vstd::arithmetic::div_mod::{
    lemma_div_by_multiple, lemma_div_is_ordered, lemma_fundamental_div_mod,
};
use vstd::arithmetic::mul::{lemma_mul_is_associative, lemma_mul_is_distributive_add_other_way};
use vstd::bits::lemma_u16_shl_is_mul;
use crate::alphabet::{digit_of, spec_digit, Error};
use crate::encode::{lemma_pow_256, lemma_pow_32};
use crate::radix::{
    lead_count, lemma_canonical, lemma_lead_count, lemma_lead_count_is, lemma_lsb_push,
    lemma_lsb_reverse, lemma_min_digits_len, lemma_seq_val_bound, lemma_seq_val_first,
    lsb_val, min_digits, seq_val,
};

verus! {

/// The 5-bit value of a symbol, meaningful only where the symbol is in
/// the decode table.
pub open spec fn spec_digit_val(c: u8) -> u8 {
    spec_digit(c)->0
}

/// The digit values of a symbol sequence.
pub open spec fn sym_digits(s: Seq<u8>) -> Seq<u8> {
    s.map_values(|c: u8| spec_digit_val(c))
}

/// Every byte of `s` is in the decode table.
pub open spec fn spec_symbols_valid(s: Seq<u8>) -> bool {
    forall|i: int| 0 <= i < s.len() ==> spec_digit(s[i]) is Some
}

/// The largest index of a byte outside the decode table, `-1` when all
/// are inside.  Decoding scans from the end, so this is the index it
/// reports.
pub open spec fn last_bad(s: Seq<u8>) -> int
    decreases s.len(),
{
    if s.len() == 0 {
        -1
    } else if spec_digit(s.last()) is None {
        s.len() - 1
    } else {
        last_bad(s.drop_last())
    }
}

/// The decoded form of the symbol sequence `s`: one zero byte per
/// leading `'0'` symbol, then the minimal big-endian byte string of the
/// base-32 value of `s`.
pub open spec fn spec_decoded(s: Seq<u8>) -> Seq<u8> {
    Seq::new(lead_count(s, 48) as nat, |i: int| 0u8) + min_digits(
        seq_val(sym_digits(s), 32),
        256,
    )
}

/// On an all-valid sequence `last_bad` finds nothing.
pub proof fn lemma_last_bad_none(s: Seq<u8>)
    requires
        spec_symbols_valid(s),
    ensures
        last_bad(s) == -1,
    decreases s.len(),
{
    if s.len() == 0 {
    } else {
        assert(spec_digit(s.last()) is Some);
        assert(spec_symbols_valid(s.drop_last()));
        lemma_last_bad_none(s.drop_last());
    }
}

/// An invalid byte followed only by valid ones pins `last_bad` down.
pub proof fn lemma_last_bad_is(s: Seq<u8>, k: int)
    requires
        0 <= k < s.len(),
        spec_digit(s[k]) is None,
        forall|j: int| k < j < s.len() ==> spec_digit(s[j]) is Some,
    ensures
        last_bad(s) == k,
    decreases s.len(),
{
    if k == s.len() - 1 {
    } else {
        let t = s.drop_last();
        assert(spec_digit(s.last()) is Some);
        assert(forall|j: int| k < j < t.len() ==> t[j] == s[j] && spec_digit(s[j]) is Some);
        lemma_last_bad_is(t, k);
    }
}

/// On a sequence with an invalid byte, `last_bad` is a real index:
/// it points at an invalid byte and everything after it is valid.
pub proof fn lemma_last_bad_range(s: Seq<u8>)
    requires
        !spec_symbols_valid(s),
    ensures
        0 <= last_bad(s) < s.len(),
        spec_digit(s[last_bad(s)]) is None,
        forall|j: int| last_bad(s) < j < s.len() ==> spec_digit(s[j]) is Some,
    decreases s.len(),
{
    if s.len() == 0 {
        assert(spec_symbols_valid(s));
    } else if spec_digit(s.last()) is None {
    } else {
        let t = s.drop_last();
        assert(!spec_symbols_valid(t)) by {
            if spec_symbols_valid(t) {
                assert(forall|i: int|
                    0 <= i < s.len() ==> s[i] == if i < t.len() {
                        t[i]
                    } else {
                        s.last()
                    });
                assert(spec_symbols_valid(s));
            }
        }
        lemma_last_bad_range(t);
        assert(forall|j: int| last_bad(s) < j < t.len() ==> s[j] == t[j]);
    }
}

/// The decoded form always fits in a buffer as long as the input: its
/// length is the leading-zero count plus the byte count of the value.
pub proof fn lemma_decoded_fits(s: Seq<u8>)
    requires
        spec_symbols_valid(s),
    ensures
        spec_decoded(s).len() == lead_count(s, 48) + min_digits(seq_val(sym_digits(s), 32), 256).len(),
        spec_decoded(s).len() <= s.len(),
{
    let lz = lead_count(s, 48);
    lemma_lead_count(s, 48);
    let d = sym_digits(s);
    let n = seq_val(d, 32);
    assert(forall|i: int| 0 <= i < d.len() ==> d[i] < 32) by {
        assert(forall|i: int| 0 <= i < s.len() ==> spec_digit(s[i]) is Some);
        assert(forall|i: int|
            0 <= i < d.len() ==> d[i] == spec_digit_val(s[i]) && #[trigger] spec_digit(s[i])
                is Some && spec_digit(s[i])->0 < 32) by {
            assert forall|i: int| 0 <= i < d.len() implies d[i] == spec_digit_val(s[i])
                && spec_digit(s[i]) is Some && spec_digit(s[i])->0 < 32 by {
                crate::alphabet::lemma_digit_range(s[i]);
            }
        }
    }
    // the value of the nonzero part bounds the byte count
    let m = s.len() as int;
    lemma_seq_val_bound(d, 32);
    lemma_pow_32(m as nat);
    assert(n < pow(2, (5 * m) as nat));
    let k = (5 * m + 7) / 8;
    assert(8 * k >= 5 * m && k >= 0) by {
        lemma_fundamental_div_mod(5 * m + 7, 8);
    }
    assert(pow(2, (5 * m) as nat) <= pow(2, (8 * k) as nat)) by {
        lemma_pow_increases(2, (5 * m) as nat, (8 * k) as nat);
    }
    assert(n < pow(256, k as nat)) by {
        lemma_pow_256(k as nat);
    }
    lemma_min_digits_len(n, 256, k as nat);
    assert(k <= m) by {
        assert(5 * m + 7 <= 8 * m + 7);
        lemma_div_is_ordered(5 * m + 7, 8 * m + 7, 8);
        assert((8 * m + 7) / 8 == m) by {
            vstd::arithmetic::div_mod::lemma_fundamental_div_mod_converse(8 * m + 7, 8, m, 7);
        }
    }
    // with leading zeros the total still fits
    let zd = sym_digits(s.skip(lz));
    assert(zd =~= d.skip(lz));
    assert(forall|i: int| 0 <= i < zd.len() ==> zd[i] < 32);
    assert(forall|i: int| 0 <= i < lz ==> d[i] == spec_digit_val(s[i]) && s[i] == 48);
    assert(forall|i: int| 0 <= i < lz ==> d[i] == 0);
    assert(d =~= Seq::new(lz as nat, |i: int| 0u8) + zd);
    crate::radix::lemma_seq_val_zeros(lz as nat, zd, 32);
    assert(n == seq_val(zd, 32));
    let mz = m - lz;
    lemma_seq_val_bound(zd, 32);
    lemma_pow_32(mz as nat);
    let kz = (5 * mz + 7) / 8;
    assert(8 * kz >= 5 * mz && kz >= 0) by {
        lemma_fundamental_div_mod(5 * mz + 7, 8);
    }
    assert(pow(2, (5 * mz) as nat) <= pow(2, (8 * kz) as nat)) by {
        lemma_pow_increases(2, (5 * mz) as nat, (8 * kz) as nat);
    }
    assert(n < pow(256, kz as nat)) by {
        lemma_pow_256(kz as nat);
    }
    lemma_min_digits_len(n, 256, kz as nat);
    assert(kz <= mz) by {
        assert(5 * mz + 7 <= 8 * mz + 7);
        lemma_div_is_ordered(5 * mz + 7, 8 * mz + 7, 8);
        assert((8 * mz + 7) / 8 == mz) by {
            vstd::arithmetic::div_mod::lemma_fundamental_div_mod_converse(8 * mz + 7, 8, mz, 7);
        }
    }
    assert(min_digits(n, 256).len() <= kz);
    assert(lz + kz <= m);
}

/// From `8 a <= b` conclude `a <= b / 8`.
pub(crate) proof fn lemma_le_div8(a: int, b: int)
    requires
        0 <= a,
        8 * a <= b,
    ensures
        a <= b / 8,
{
    lemma_div_is_ordered(8 * a, b, 8);
    lemma_div_by_multiple(a, 8);
    assert(a * 8 == 8 * a) by {
        vstd::arithmetic::mul::lemma_mul_is_commutative(a, 8);
    }
}

/// Unpacks the symbols `src[off..off + len]` into bytes at `dst[0..]`.
///
/// Scans from the end, accumulating 5-bit digit values and emitting
/// full bytes; flushes the final partial byte even when it is zero,
/// strips trailing zero bytes, restores one zero byte per leading
/// `'0'` symbol, and reverses into most-significant-first order.  The
/// first byte outside the decode table, scanning from the end, stops
/// the pass with `InvalidCharacter` at its window-relative index.
pub(crate) fn de_core(src: &[u8], off: usize, len: usize, dst: &mut [u8]) -> (r: Result<
    usize,
    Error,
>)
    requires
        off + len <= src@.len(),
        len <= old(dst)@.len(),
    ensures
        final(dst)@.len() == old(dst)@.len(),
        ({
            let w = src@.subrange(off as int, (off + len) as int);
            match r {
                Ok(n) => {
                    &&& spec_symbols_valid(w)
                    &&& n == spec_decoded(w).len()
                    &&& n <= len
                    &&& final(dst)@.subrange(0, n as int) == spec_decoded(w)
                },
                Err(e) => {
                    &&& !spec_symbols_valid(w)
                    &&& e == (Error::InvalidCharacter {
                        char: w[last_bad(w)] as char,
                        index: last_bad(w) as usize,
                    })
                },
            }
        }),
{
    let ghost w = src@.subrange(off as int, (off + len) as int);
    let ghost vd = sym_digits(w);
    let ghost dst0 = dst@;
    let dlen = dst.len();
    let slen = src.len();

    // count leading zero symbols
    let mut lz: usize = 0;
    while lz < len && src[off + lz] == 48
        invariant
            lz <= len,
            off + len <= slen,
            slen == src@.len(),
            w == src@.subrange(off as int, (off + len) as int),
            forall|q: int| 0 <= q < lz ==> w[q] == 48,
        decreases len - lz,
    {
        lz += 1;
    }
    proof {
        lemma_lead_count_is(w, 48u8, lz as int);
    }

    // absorb 5-bit digits from the end of the input
    let mut carry: u16 = 0;
    let mut bits: u16 = 0;
    let mut pos: usize = 0;
    let ghost mut gb: Seq<u8> = Seq::empty();
    let mut i: usize = len;

    proof {
        lemma_pow0(2);
        assert(vd.skip(len as int) =~= Seq::<u8>::empty());
    }

    while i > 0
        invariant
            i <= len,
            off + len <= slen,
            slen == src@.len(),
            w == src@.subrange(off as int, (off + len) as int),
            vd == sym_digits(w),
            len <= dlen,
            dst@.len() == dst0.len(),
            dst@.len() == dlen,
            dst@.len() == old(dst)@.len(),
            pos == gb.len(),
            forall|j: int| 0 <= j < pos ==> dst@[j] == gb[j],
            forall|q: int| i <= q < len ==> spec_digit(w[q]) is Some,
            bits <= 7,
            8 * pos + bits == 5 * (len - i),
            (carry as int) < pow(2, bits as nat),
            lsb_val(gb, 256) + (carry as int) * pow(2, (8 * pos) as nat) == seq_val(
                vd.skip(i as int),
                32,
            ),
        decreases i,
    {
        i -= 1;
        let b = src[off + i];
        if b >= 128 {
            proof {
                assert(w[i as int] == b);
                assert(spec_digit(b) is None);
                lemma_last_bad_is(w, i as int);
            }
            return Err(Error::InvalidCharacter { char: b as char, index: i });
        }
        let d = match digit_of(b) {
            Some(d) => d,
            None => {
                proof {
                    assert(w[i as int] == b);
                    lemma_last_bad_is(w, i as int);
                }
                return Err(Error::InvalidCharacter { char: b as char, index: i });
            },
        };
        proof {
            crate::alphabet::lemma_digit_range(b);
            assert(d < 32);
            // absorbing d makes the carry worth d * 2^bits more
            assert(pow2(bits as nat) <= 128) by {
                lemma2_to64();
                assert(bits == 0 || bits == 1 || bits == 2 || bits == 3 || bits == 4 || bits == 5
                    || bits == 6 || bits == 7);
            }
            lemma_u16_shl_is_mul(1u16, bits);
            lemma_pow2(bits as nat);
            assert((1u16 << bits) == pow(2, bits as nat));
            assert((carry | ((d as u16) << bits)) == carry + (d as u16) * (1u16 << bits))
                by (bit_vector)
                requires
                    carry < (1u16 << bits),
                    bits <= 7,
                    d < 32,
            ;
            let m = pow(2, bits as nat);
            assert((carry as int) + (d as int) * m < 32 * m) by (nonlinear_arith)
                requires
                    (carry as int) < m,
                    (d as int) <= 31,
                    m >= 1,
            ;
            assert(32 * m == pow(2, (bits + 5) as nat)) by {
                lemma_pow_adds(2, bits as nat, 5);
                lemma_pow2(5);
                lemma2_to64();
            }
            // the new suffix value
            lemma_seq_val_first(vd.skip(i as int), 32);
            assert(vd.skip(i as int).drop_first() =~= vd.skip(i + 1));
            assert(vd.skip(i as int)[0] == vd[i as int]);
            assert(vd[i as int] == spec_digit_val(w[i as int]));
            assert(spec_digit_val(w[i as int]) == d);
            lemma_pow_32((len - i - 1) as nat);
            assert(5 * ((len - i - 1) as int) == bits + 8 * pos);
            lemma_pow_adds(2, bits as nat, (8 * pos) as nat);
            let p8 = pow(2, (8 * pos) as nat);
            assert((d as int) * (m * p8) == ((d as int) * m) * p8) by {
                lemma_mul_is_associative(d as int, m, p8);
            }
            assert(((carry as int) + (d as int) * m) * p8 == (carry as int) * p8 + ((d as int) * m)
                * p8) by {
                lemma_mul_is_distributive_add_other_way(p8, carry as int, (d as int) * m);
            }
        }
        carry = carry | ((d as u16) << bits);
        bits = bits + 5;

        while bits >= 8
            invariant
                i <= len,
                off + len <= slen,
                slen == src@.len(),
                w == src@.subrange(off as int, (off + len) as int),
                vd == sym_digits(w),
                len <= dlen,
                dst@.len() == dst0.len(),
                dst@.len() == dlen,
                dst@.len() == old(dst)@.len(),
                pos == gb.len(),
                forall|j: int| 0 <= j < pos ==> dst@[j] == gb[j],
                forall|q: int| i <= q < len ==> spec_digit(w[q]) is Some,
                bits <= 12,
                8 * pos + bits == 5 * (len - i),
                (carry as int) < pow(2, bits as nat),
                lsb_val(gb, 256) + (carry as int) * pow(2, (8 * pos) as nat) == seq_val(
                    vd.skip(i as int),
                    32,
                ),
            decreases bits,
        {
            let d8 = (carry & 255) as u8;
            proof {
                assert(carry & 255 == carry % 256 && carry >> 8 == carry / 256) by (bit_vector);
                // writing stays inside the reserved capacity
                assert(8 * (pos + 1) <= 5 * (len as int));
                lemma_le_div8(pos + 1, 8 * (len as int));
                assert((8 * (len as int)) / 8 == len as int) by {
                    lemma_div_by_multiple(len as int, 8);
                    assert((len as int) * 8 == 8 * (len as int)) by {
                        vstd::arithmetic::mul::lemma_mul_is_commutative(len as int, 8);
                    }
                }
                assert(pos < len);
            }
            dst[pos] = d8;
            proof {
                let cq = (carry as int) / 256;
                let p8 = pow(2, (8 * pos) as nat);
                let p8n = pow(2, (8 * (pos + 1)) as nat);
                assert(p8n == 256 * p8) by {
                    lemma_pow_adds(2, (8 * pos) as nat, 8);
                    lemma_pow2(8);
                    lemma2_to64();
                }
                assert((carry as int) == 256 * cq + d8) by {
                    lemma_fundamental_div_mod(carry as int, 256);
                }
                assert((carry as int) * p8 == (d8 as int) * p8 + cq * p8n) by (nonlinear_arith)
                    requires
                        (carry as int) == 256 * cq + d8,
                        p8n == 256 * p8,
                ;
                assert(pow(2, bits as nat) == 256 * pow(2, (bits - 8) as nat)) by {
                    lemma_pow_adds(2, (bits - 8) as nat, 8);
                    lemma_pow2(8);
                    lemma2_to64();
                }
                assert(cq < pow(2, (bits - 8) as nat)) by (nonlinear_arith)
                    requires
                        (carry as int) == 256 * cq + d8,
                        0 <= d8 < 256,
                        (carry as int) < 256 * pow(2, (bits - 8) as nat),
                ;
                lemma_lsb_push(gb, d8, 256);
                lemma_pow_256(pos as nat);
                gb = gb.push(d8);
            }
            pos = pos + 1;
            carry = carry >> 8;
            bits = bits - 8;
        }
    }
    proof {
        assert(vd.skip(0) =~= vd);
    }

    // flush the final partial byte, even when it is zero
    if bits > 0 {
        let d8 = carry as u8;
        proof {
            assert(pow2(bits as nat) <= 128) by {
                lemma2_to64();
                assert(bits == 1 || bits == 2 || bits == 3 || bits == 4 || bits == 5 || bits == 6
                    || bits == 7);
            }
            lemma_pow2(bits as nat);
            assert(carry < 128);
            assert(d8 == carry);
            assert(8 * (pos + 1) <= 5 * (len as int) + 7);
            lemma_le_div8(pos + 1, 5 * (len as int) + 7);
            assert((5 * (len as int) + 7) / 8 <= len as int) by {
                assert(5 * (len as int) + 7 <= 8 * (len as int) + 7);
                lemma_div_is_ordered(5 * (len as int) + 7, 8 * (len as int) + 7, 8);
                assert((8 * (len as int) + 7) / 8 == len as int) by {
                    vstd::arithmetic::div_mod::lemma_fundamental_div_mod_converse(
                        8 * (len as int) + 7, 8, len as int, 7,
                    );
                }
            }
            assert(pos < len);
        }
        dst[pos] = d8;
        proof {
            lemma_lsb_push(gb, d8, 256);
            lemma_pow_256(pos as nat);
            let p8 = pow(2, (8 * gb.len()) as nat);
            assert((carry as int) * p8 == (d8 as int) * p8);
            gb = gb.push(d8);
        }
        pos = pos + 1;
        carry = 0;
        proof {
            assert(lsb_val(gb, 256) == seq_val(vd, 32));
        }
    } else {
        proof {
            lemma_pow0(2);
            assert(carry == 0);
            vstd::arithmetic::mul::lemma_mul_basics_1(pow(2, (8 * pos) as nat));
            assert((carry as int) * pow(2, (8 * pos) as nat) == 0);
        }
    }

    let ghost nval = seq_val(vd, 32);
    proof {
        assert(lsb_val(gb, 256) == nval);
        assert(pos <= len);
        assert(spec_symbols_valid(w));
    }

    // strip trailing zero bytes
    while pos > 0 && dst[pos - 1] == 0
        invariant
            pos <= len,
            len <= dlen,
            dst@.len() == dst0.len(),
            dst@.len() == dlen,
            pos == gb.len(),
            forall|j: int| 0 <= j < pos ==> dst@[j] == gb[j],
            lsb_val(gb, 256) == nval,
        decreases pos,
    {
        proof {
            let t = gb.drop_last();
            assert(gb[pos - 1] == 0);
            assert(gb.last() == gb[pos - 1]);
            assert(t.push(0u8) =~= gb);
            lemma_lsb_push(t, 0u8, 256);
            vstd::arithmetic::mul::lemma_mul_basics_1(pow(256, t.len() as nat));
            assert(lsb_val(t, 256) == nval);
            gb = t;
        }
        pos = pos - 1;
    }

    // the stripped byte string is the canonical one
    proof {
        lemma_lsb_reverse(gb, 256);
        let rev = gb.reverse();
        if pos > 0 {
            assert(dst@[pos - 1] != 0);
            assert(gb[pos - 1] != 0);
            assert(rev[0] == gb[pos - 1]);
        }
        assert(forall|j: int| 0 <= j < rev.len() ==> rev[j] == gb[pos - 1 - j]);
        lemma_canonical(rev, 256);
        assert(min_digits(nval, 256) == rev);
        lemma_decoded_fits(w);
        assert(pos + lz <= len);
    }

    let ghost posd = pos as int;

    // restore the leading zeros
    let mut j: usize = 0;
    while j < lz
        invariant
            j <= lz,
            lz <= len,
            len <= dlen,
            dst@.len() == dst0.len(),
            dst@.len() == dlen,
            pos == posd + j,
            posd + lz <= len,
            forall|q: int| 0 <= q < posd ==> dst@[q] == gb[q],
            forall|k: int| posd <= k < pos ==> dst@[k] == 0,
            pos == gb.len() + j,
        decreases lz - j,
    {
        dst[pos] = 0;
        pos = pos + 1;
        j = j + 1;
    }

    // reverse into most-significant-first order
    let ghost pre = dst@;
    let mut lhs: usize = 0;
    let mut rhs: usize = pos;
    while rhs - lhs > 1
        invariant
            lhs <= rhs,
            rhs <= pos,
            pos <= dlen,
            dst@.len() == dlen,
            lhs == pos - rhs,
            dst@.len() == pre.len(),
            forall|k: int| pos <= k < dst@.len() ==> dst@[k] == pre[k],
            forall|k: int| 0 <= k < lhs ==> dst@[k] == pre[pos - 1 - k],
            forall|k: int| rhs <= k < pos ==> dst@[k] == pre[pos - 1 - k],
            forall|k: int| lhs <= k < rhs ==> dst@[k] == pre[k],
        decreases rhs - lhs,
    {
        let tmp = dst[lhs];
        let tmp2 = dst[rhs - 1];
        dst[lhs] = tmp2;
        dst[rhs - 1] = tmp;
        lhs = lhs + 1;
        rhs = rhs - 1;
    }
    proof {
        assert(forall|k: int| 0 <= k < pos ==> dst@[k] == pre[pos - 1 - k]);
    }

    // the written range is exactly the decoded form
    proof {
        let e = spec_decoded(w);
        let md = min_digits(nval, 256);
        let sub = dst@.subrange(0, pos as int);
        assert(md == gb.reverse());
        assert(e.len() == lz + posd);
        assert forall|t: int| 0 <= t < pos implies sub[t] == e[t] by {
            assert(sub[t] == dst@[t]);
            assert(dst@[t] == pre[pos - 1 - t]);
            if t < lz {
                assert(pos - 1 - t >= posd);
                assert(pre[pos - 1 - t] == 0);
                assert(e[t] == 0);
            } else {
                assert(pos - 1 - t < posd);
                assert(pre[pos - 1 - t] == gb[pos - 1 - t]);
                assert(e[t] == md[t - lz]);
                assert(md[t - lz] == gb.reverse()[t - lz]);
                assert(gb.reverse()[t - lz] == gb[posd - 1 - (t - lz)]);
                assert(posd - 1 - (t - lz) == pos - 1 - t);
            }
        }
        assert(sub =~= e);
    }

    Ok(pos)
}

/// Decodes Crockford Base32 symbols into a provided buffer.
///
/// Returns the number of bytes written; fails with `BufferTooSmall`
/// when the buffer is shorter than `decoded_len` of the input length,
/// and otherwise with `InvalidCharacter` naming the last byte of the
/// input, scanning from the end, that the decode table refuses.
pub fn decode_into(src: &[u8], dst: &mut [u8]) -> (r: Result<usize, Error>)
    ensures
        old(dst)@.len() < src@.len() ==> {
            &&& r == Err::<usize, Error>(
                Error::BufferTooSmall {
                    min: src@.len() as usize,
                    len: old(dst)@.len() as usize,
                },
            )
            &&& final(dst)@ == old(dst)@
        },
        old(dst)@.len() >= src@.len() ==> final(dst)@.len() == old(dst)@.len() && match r {
            Ok(n) => {
                &&& spec_symbols_valid(src@)
                &&& n == spec_decoded(src@).len()
                &&& n <= src@.len()
                &&& final(dst)@.subrange(0, n as int) == spec_decoded(src@)
            },
            Err(e) => {
                &&& !spec_symbols_valid(src@)
                &&& e == (Error::InvalidCharacter {
                    char: src@[last_bad(src@)] as char,
                    index: last_bad(src@) as usize,
                })
            },
        },
{
    let capacity = crate::decoded_len(src.len());
    if dst.len() < capacity {
        return Err(Error::BufferTooSmall { min: capacity, len: dst.len() });
    }
    proof {
        assert(src@.subrange(0, src@.len() as int) =~= src@);
    }
    de_core(src, 0, src.len(), dst)
}

} // verus!
