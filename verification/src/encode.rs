//! The bit-repacking engine, encode direction: 8-bit bytes into 5-bit
//! alphabet symbols.

use vstd::prelude::*;
use vstd::arithmetic::power::{
    pow, lemma_pow0, lemma_pow_adds, lemma_pow_increases, lemma_pow_multiplies,
};
use vstd::arithmetic::power2::{pow2, lemma_pow2, lemma2_to64};
use vstd::arithmetic::div_mod::{
    lemma_div_by_multiple, lemma_div_is_ordered, lemma_fundamental_div_mod,
};
use vstd::arithmetic::mul::{lemma_mul_is_associative, lemma_mul_is_distributive_add_other_way};
use vstd::bits::lemma_u16_shl_is_mul;
use crate::alphabet::{spec_symbol, symbol_of, lemma_symbol_digit, Error};
use crate::radix::{
    lead_count, lemma_canonical, lemma_lead_count, lemma_lead_count_is, lemma_lsb_push,
    lemma_lsb_reverse, lemma_min_digits_len, lemma_seq_val_bound,
    lemma_seq_val_first, lemma_seq_val_zeros, lsb_val, min_digits, seq_val,
};
use crate::spec_encoded_len;

verus! {

/// The encoded form of the byte sequence `b`: one `'0'` symbol per
/// leading zero byte, then the minimal base-32 digit string of the
/// big-endian value of `b`, written in alphabet symbols.
pub open spec fn spec_encoded(b: Seq<u8>) -> Seq<u8> {
    Seq::new(lead_count(b, 0) as nat, |i: int| 48u8) + min_digits(seq_val(b, 256), 32).map_values(
        |d: u8| spec_symbol(d as int),
    )
}

/// `pow(32, k)` is `2` to the `5 k`.
pub(crate) proof fn lemma_pow_32(k: nat)
    ensures
        pow(32, k) == pow(2, (5 * k) as nat),
{
    lemma_pow_multiplies(2, 5, k);
    assert(pow(2, 5) == 32) by {
        lemma_pow2(5);
        lemma2_to64();
    }
}

/// `pow(256, k)` is `2` to the `8 k`.
pub(crate) proof fn lemma_pow_256(k: nat)
    ensures
        pow(256, k) == pow(2, (8 * k) as nat),
{
    lemma_pow_multiplies(2, 8, k);
    assert(pow(2, 8) == 256) by {
        lemma_pow2(8);
        lemma2_to64();
    }
}

/// From `5 a <= b` conclude `a <= b / 5`.
pub(crate) proof fn lemma_le_div5(a: int, b: int)
    requires
        0 <= a,
        5 * a <= b,
    ensures
        a <= b / 5,
{
    lemma_div_is_ordered(5 * a, b, 5);
    lemma_div_by_multiple(a, 5);
    assert(a * 5 == 5 * a) by {
        vstd::arithmetic::mul::lemma_mul_is_commutative(a, 5);
    }
}

/// The encoded form always fits in the buffer that `encoded_len` asks
/// for: its length is the leading-zero count plus the digit count, and
/// at most `ceil(8 n / 5)`.
pub proof fn lemma_encoded_fits(b: Seq<u8>)
    ensures
        spec_encoded(b).len() == lead_count(b, 0) + min_digits(seq_val(b, 256), 32).len(),
        spec_encoded(b).len() <= spec_encoded_len(b.len()),
{
    let lz = lead_count(b, 0);
    lemma_lead_count(b, 0);
    let t = b.skip(lz);
    let m = t.len() as int;
    assert(b =~= Seq::new(lz as nat, |i: int| 0u8) + t);
    lemma_seq_val_zeros(lz as nat, t, 256);
    let n = seq_val(b, 256);
    assert(n == seq_val(t, 256));
    lemma_seq_val_bound(t, 256);
    lemma_pow_256(m as nat);
    assert(n < pow(2, (8 * m) as nat));
    let k = (8 * m + 4) / 5;
    assert(5 * k >= 8 * m && k >= 0) by {
        lemma_fundamental_div_mod(8 * m + 4, 5);
    }
    assert(pow(2, (8 * m) as nat) <= pow(2, (5 * k) as nat)) by {
        lemma_pow_increases(2, (8 * m) as nat, (5 * k) as nat);
    }
    assert(n < pow(32, k as nat)) by {
        lemma_pow_32(k as nat);
    }
    lemma_min_digits_len(n, 32, k as nat);
    assert(min_digits(n, 32).len() <= k);
    assert(lz + k <= (8 * (b.len() as int) + 4) / 5) by {
        assert(5 * (lz + k) <= 8 * m + 4 + 5 * lz);
        lemma_le_div5(lz + k, 8 * (b.len() as int) + 4);
    }
    assert(spec_encoded(b).len() == lz + min_digits(n, 32).len());
}

/// Packs `src` into alphabet symbols, writing them at `dst[off..]`.
///
/// Emits 5-bit digits least-significant first, strips trailing zero
/// symbols, restores one zero symbol per leading zero byte, and
/// reverses the written range into most-significant-first order.
pub(crate) fn en_core(src: &[u8], dst: &mut [u8], off: usize) -> (n: usize)
    requires
        off + spec_encoded_len(src@.len()) <= old(dst)@.len(),
        src@.len() * 8 + 4 <= usize::MAX,
    ensures
        final(dst)@.len() == old(dst)@.len(),
        forall|k: int| 0 <= k < off ==> final(dst)@[k] == old(dst)@[k],
        n == spec_encoded(src@).len(),
        final(dst)@.subrange(off as int, off + n) == spec_encoded(src@),
        n <= spec_encoded_len(src@.len()),
{
    let len = src.len();
    let ghost dst0 = dst@;
    let ghost cap = spec_encoded_len(src@.len()) as int;

    // count leading zero bytes
    let mut lz: usize = 0;
    while lz < len && src[lz] == 0
        invariant
            lz <= len,
            len == src@.len(),
            forall|q: int| 0 <= q < lz ==> src@[q] == 0,
        decreases len - lz,
    {
        lz += 1;
    }
    proof {
        lemma_lead_count_is(src@, 0u8, lz as int);
    }

    // emit 5-bit digits from the end of the input
    let dlen = dst.len();
    let mut carry: u16 = 0;
    let mut bits: u16 = 0;
    let mut pos: usize = 0;
    let ghost mut gd: Seq<u8> = Seq::empty();
    let mut i: usize = len;

    proof {
        lemma_pow0(2);
        assert(src@.skip(len as int) =~= Seq::<u8>::empty());
    }

    while i > 0
        invariant
            i <= len,
            len == src@.len(),
            len * 8 + 4 <= usize::MAX,
            off + cap <= dst0.len(),
            cap == spec_encoded_len(src@.len()) as int,
            dst@.len() == dst0.len(),
            dst@.len() == dlen,
            forall|k: int| 0 <= k < off ==> dst@[k] == dst0[k],
            pos == gd.len(),
            forall|j: int| 0 <= j < pos ==> gd[j] < 32,
            forall|j: int| 0 <= j < pos ==> dst@[off + j] == spec_symbol(gd[j] as int),
            bits <= 4,
            5 * pos + bits == 8 * (len - i),
            (carry as int) < pow(2, bits as nat),
            lsb_val(gd, 32) + (carry as int) * pow(2, (5 * pos) as nat) == seq_val(
                src@.skip(i as int),
                256,
            ),
        decreases i,
    {
        i -= 1;
        let b = src[i];
        proof {
            // absorbing b makes the carry worth b * 2^bits more
            assert(pow2(bits as nat) <= 16) by {
                lemma2_to64();
                assert(bits == 0 || bits == 1 || bits == 2 || bits == 3 || bits == 4);
            }
            lemma_u16_shl_is_mul(1u16, bits);
            lemma_pow2(bits as nat);
            assert((1u16 << bits) == pow(2, bits as nat));
            assert((carry | ((b as u16) << bits)) == carry + (b as u16) * (1u16 << bits))
                by (bit_vector)
                requires
                    carry < (1u16 << bits),
                    bits <= 4,
            ;
            let m = pow(2, bits as nat);
            assert((carry as int) + (b as int) * m < 256 * m) by (nonlinear_arith)
                requires
                    (carry as int) < m,
                    (b as int) <= 255,
                    m >= 1,
            ;
            assert(256 * m == pow(2, (bits + 8) as nat)) by {
                lemma_pow_adds(2, bits as nat, 8);
                lemma_pow2(8);
                lemma2_to64();
            }
            // the new suffix value
            lemma_seq_val_first(src@.skip(i as int), 256);
            assert(src@.skip(i as int).drop_first() =~= src@.skip(i + 1));
            assert(src@.skip(i as int)[0] == src@[i as int]);
            lemma_pow_256((len - i - 1) as nat);
            assert(8 * ((len - i - 1) as int) == bits + 5 * pos);
            lemma_pow_adds(2, bits as nat, (5 * pos) as nat);
            let p5 = pow(2, (5 * pos) as nat);
            assert((b as int) * (m * p5) == ((b as int) * m) * p5) by {
                lemma_mul_is_associative(b as int, m, p5);
            }
            assert(((carry as int) + (b as int) * m) * p5 == (carry as int) * p5 + ((b as int) * m)
                * p5) by {
                lemma_mul_is_distributive_add_other_way(p5, carry as int, (b as int) * m);
            }
        }
        carry = carry | ((b as u16) << bits);
        bits = bits + 8;

        while bits >= 5
            invariant
                i <= len,
                len == src@.len(),
                len * 8 + 4 <= usize::MAX,
                off + cap <= dst0.len(),
                cap == spec_encoded_len(src@.len()) as int,
                dst@.len() == dst0.len(),
                dst@.len() == dlen,
                forall|k: int| 0 <= k < off ==> dst@[k] == dst0[k],
                pos == gd.len(),
                forall|j: int| 0 <= j < pos ==> gd[j] < 32,
                forall|j: int| 0 <= j < pos ==> dst@[off + j] == spec_symbol(gd[j] as int),
                bits <= 12,
                5 * pos + bits == 8 * (len - i),
                (carry as int) < pow(2, bits as nat),
                lsb_val(gd, 32) + (carry as int) * pow(2, (5 * pos) as nat) == seq_val(
                    src@.skip(i as int),
                    256,
                ),
            decreases bits,
        {
            let d = (carry & 31) as u8;
            proof {
                assert(carry & 31 == carry % 32 && carry >> 5 == carry / 32) by (bit_vector);
                assert(d < 32);
                // writing stays inside the reserved capacity
                assert(5 * (pos + 1) <= 8 * (len as int));
                lemma_le_div5(pos + 1, 8 * (len as int) + 4);
                assert(pos + 1 <= cap);
                assert(off + pos < dst@.len());
            }
            let c = symbol_of(d);
            dst[off + pos] = c;
            proof {
                let cq = (carry as int) / 32;
                let p5 = pow(2, (5 * pos) as nat);
                let p5n = pow(2, (5 * (pos + 1)) as nat);
                assert(p5n == 32 * p5) by {
                    lemma_pow_adds(2, (5 * pos) as nat, 5);
                    lemma_pow2(5);
                    lemma2_to64();
                }
                assert((carry as int) == 32 * cq + d) by {
                    lemma_fundamental_div_mod(carry as int, 32);
                }
                assert((carry as int) * p5 == (d as int) * p5 + cq * p5n) by (nonlinear_arith)
                    requires
                        (carry as int) == 32 * cq + d,
                        p5n == 32 * p5,
                ;
                assert(pow(2, bits as nat) == 32 * pow(2, (bits - 5) as nat)) by {
                    lemma_pow_adds(2, (bits - 5) as nat, 5);
                    lemma_pow2(5);
                    lemma2_to64();
                }
                assert(cq < pow(2, (bits - 5) as nat)) by (nonlinear_arith)
                    requires
                        (carry as int) == 32 * cq + d,
                        0 <= d < 32,
                        (carry as int) < 32 * pow(2, (bits - 5) as nat),
                ;
                lemma_lsb_push(gd, d, 32);
                lemma_pow_32(pos as nat);
                gd = gd.push(d);
            }
            pos = pos + 1;
            carry = carry >> 5;
            bits = bits - 5;
        }
    }
    proof {
        assert(src@.skip(0) =~= src@);
    }

    // flush the residual bits, but only when they are nonzero
    if bits > 0 && carry > 0 {
        let d = (carry & 31) as u8;
        proof {
            assert(pow2(bits as nat) <= 16) by {
                lemma2_to64();
                assert(bits == 1 || bits == 2 || bits == 3 || bits == 4);
            }
            lemma_pow2(bits as nat);
            assert(carry < 32);
            assert(carry & 31 == carry && carry % 32 == carry) by (bit_vector)
                requires
                    carry < 32,
            ;
            assert(5 * (pos + 1) <= 8 * (len as int) + 4);
            lemma_le_div5(pos + 1, 8 * (len as int) + 4);
            assert(pos + 1 <= cap);
            assert(off + pos < dst@.len());
        }
        let c = symbol_of(d);
        dst[off + pos] = c;
        proof {
            lemma_lsb_push(gd, d, 32);
            lemma_pow_32(pos as nat);
            let p5 = pow(2, (5 * gd.len()) as nat);
            assert((carry as int) * p5 == (d as int) * p5);
            gd = gd.push(d);
        }
        pos = pos + 1;
        carry = 0;
        proof {
            assert(lsb_val(gd, 32) == seq_val(src@, 256));
        }
    } else {
        proof {
            lemma_pow0(2);
            if bits == 0 {
                assert(pow(2, 0nat) == 1);
                assert(carry == 0);
            }
            assert(carry == 0);
            vstd::arithmetic::mul::lemma_mul_basics_1(pow(2, (5 * pos) as nat));
            assert((carry as int) * pow(2, (5 * pos) as nat) == 0);
            assert(5 * pos <= 8 * (len as int));
            lemma_le_div5(pos as int, 8 * (len as int) + 4);
            assert(pos <= cap);
        }
    }

    let ghost nval = seq_val(src@, 256);
    proof {
        assert(lsb_val(gd, 32) == nval);
        assert(pos <= cap);
        assert(off + pos <= dlen);
    }

    // strip trailing zero symbols
    while pos > 0 && dst[off + pos - 1] == 48
        invariant
            len == src@.len(),
            off + cap <= dst0.len(),
            cap == spec_encoded_len(src@.len()) as int,
            dst@.len() == dst0.len(),
            dst@.len() == dlen,
            off + pos <= dlen,
            pos <= cap,
            forall|k: int| 0 <= k < off ==> dst@[k] == dst0[k],
            pos == gd.len(),
            forall|j: int| 0 <= j < pos ==> gd[j] < 32,
            forall|j: int| 0 <= j < pos ==> dst@[off + j] == spec_symbol(gd[j] as int),
            lsb_val(gd, 32) == nval,
            nval == seq_val(src@, 256),
        decreases pos,
    {
        proof {
            let t = gd.drop_last();
            assert(dst@[off + pos - 1] == spec_symbol(gd[pos - 1] as int));
            lemma_symbol_digit(gd[pos - 1] as int);
            assert(gd[pos - 1] == 0);
            assert(gd.last() == gd[pos - 1]);
            assert(t.push(0u8) =~= gd);
            lemma_lsb_push(t, 0u8, 32);
            vstd::arithmetic::mul::lemma_mul_basics_1(pow(32, t.len() as nat));
            assert(lsb_val(gd, 32) == lsb_val(t.push(0u8), 32));
            assert(lsb_val(t.push(0u8), 32) == lsb_val(t, 32) + 0);
            assert(lsb_val(t, 32) == nval);
            gd = t;
        }
        pos = pos - 1;
    }

    // the stripped digit string is the canonical one
    proof {
        lemma_lsb_reverse(gd, 32);
        let rev = gd.reverse();
        if pos > 0 {
            assert(dst@[off + pos - 1] != 48);
            assert(dst@[off + pos - 1] == spec_symbol(gd[pos - 1] as int));
            lemma_symbol_digit(gd[pos - 1] as int);
            assert(gd[pos - 1] != 0);
            assert(rev[0] == gd[pos - 1]);
        }
        assert(forall|j: int| 0 <= j < rev.len() ==> rev[j] == gd[pos - 1 - j] && rev[j] < 32);
        lemma_canonical(rev, 32);
        assert(min_digits(nval, 32) == rev);
        lemma_encoded_fits(src@);
        assert(pos + lz <= cap);
    }

    let ghost posd = pos as int;

    // restore the leading zeros
    let mut j: usize = 0;
    while j < lz
        invariant
            j <= lz,
            lz <= len,
            len == src@.len(),
            off + cap <= dst0.len(),
            cap == spec_encoded_len(src@.len()) as int,
            dst@.len() == dst0.len(),
            dst@.len() == dlen,
            forall|k: int| 0 <= k < off ==> dst@[k] == dst0[k],
            pos == posd + j,
            posd + lz <= cap,
            forall|q: int| 0 <= q < posd ==> dst@[off + q] == spec_symbol(gd[q] as int),
            forall|k: int| off + posd <= k < off + pos ==> dst@[k] == 48,
            pos == gd.len() + j,
        decreases lz - j,
    {
        dst[off + pos] = 48;
        pos = pos + 1;
        j = j + 1;
    }

    // reverse into most-significant-first order
    let ghost pre = dst@;
    let mut lhs: usize = off;
    let mut rhs: usize = off + pos;
    while rhs - lhs > 1
        invariant
            off <= lhs,
            lhs <= rhs,
            rhs <= off + pos,
            off + pos <= dlen,
            dst@.len() == dlen,
            lhs - off == off + pos - rhs,
            dst@.len() == pre.len(),
            forall|k: int| 0 <= k < off ==> dst@[k] == pre[k],
            forall|k: int| off + pos <= k < dst@.len() ==> dst@[k] == pre[k],
            forall|k: int| off <= k < lhs ==> dst@[k] == pre[2 * off + pos - 1 - k],
            forall|k: int| rhs <= k < off + pos ==> dst@[k] == pre[2 * off + pos - 1 - k],
            forall|k: int| lhs <= k < rhs ==> dst@[k] == pre[k],
        decreases rhs - lhs,
    {
        let tmp = dst[lhs];
        let tmp2 = dst[rhs - 1];
        dst[lhs] = tmp2;
        dst[rhs - 1] = tmp;
        lhs = lhs + 1;
        rhs = rhs - 1;
    }
    proof {
        assert(forall|k: int| off <= k < off + pos ==> dst@[k] == pre[2 * off + pos - 1 - k]);
    }

    // the written range is exactly the encoded form
    proof {
        let e = spec_encoded(src@);
        let md = min_digits(nval, 32);
        let sub = dst@.subrange(off as int, off + pos);
        assert(md == gd.reverse());
        assert(e.len() == lz + posd);
        assert forall|t: int| 0 <= t < pos implies sub[t] == e[t] by {
            assert(sub[t] == dst@[off + t]);
            assert(dst@[off + t] == pre[2 * off + pos - 1 - (off + t)]);
            assert(2 * off + pos - 1 - (off + t) == off + (pos - 1 - t));
            if t < lz {
                assert(pos - 1 - t >= posd);
                assert(pre[off + (pos - 1 - t)] == 48);
                assert(e[t] == 48);
            } else {
                assert(pos - 1 - t < posd);
                assert(pre[off + (pos - 1 - t)] == spec_symbol(gd[pos - 1 - t] as int));
                assert(e[t] == spec_symbol(md[t - lz] as int));
                assert(md[t - lz] == gd.reverse()[t - lz]);
                assert(gd.reverse()[t - lz] == gd[posd - 1 - (t - lz)]);
                assert(posd - 1 - (t - lz) == pos - 1 - t);
            }
        }
        assert(sub =~= e);
    }

    pos
}

/// Encodes bytes as Crockford Base32 into a provided buffer.
///
/// Returns the number of bytes written, or `BufferTooSmall` when the
/// buffer is shorter than `encoded_len` of the input length.  The
/// input must be short enough for `encoded_len` to fit in `usize`.
pub fn encode_into(src: &[u8], dst: &mut [u8]) -> (r: Result<usize, Error>)
    requires
        src@.len() * 8 + 4 <= usize::MAX,
    ensures
        old(dst)@.len() < spec_encoded_len(src@.len()) ==> {
            &&& r == Err::<usize, Error>(
                Error::BufferTooSmall {
                    min: spec_encoded_len(src@.len()) as usize,
                    len: old(dst)@.len() as usize,
                },
            )
            &&& final(dst)@ == old(dst)@
        },
        old(dst)@.len() >= spec_encoded_len(src@.len()) ==> {
            &&& r is Ok
            &&& r->Ok_0 == spec_encoded(src@).len()
            &&& final(dst)@.len() == old(dst)@.len()
            &&& final(dst)@.subrange(0, r->Ok_0 as int) == spec_encoded(src@)
        },
{
    let capacity = crate::encoded_len(src.len());
    if dst.len() < capacity {
        return Err(Error::BufferTooSmall { min: capacity, len: dst.len() });
    }
    let n = en_core(src, dst, 0);
    Ok(n)
}

} // verus!
