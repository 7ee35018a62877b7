//! Positional-value arithmetic shared by the encode and decode engines.
//!
//! A byte sequence is read as a big-endian number, a symbol sequence as a
//! big-endian base-32 number.  The engines emit digits least-significant
//! first; the lemmas here connect that emission order, the stripped
//! canonical digit string, and the numeric value.

use vstd::prelude::*;
use vstd::arithmetic::power::{pow, lemma_pow0, lemma_pow1, lemma_pow_adds, lemma_pow_positive};
use vstd::arithmetic::mul::{
    lemma_mul_inequality, lemma_mul_is_associative, lemma_mul_is_distributive_add_other_way,
    lemma_mul_is_distributive_sub_other_way, lemma_mul_nonnegative,
};
use vstd::arithmetic::div_mod::{
    lemma_div_decreases, lemma_div_pos_is_pos, lemma_fundamental_div_mod,
    lemma_fundamental_div_mod_converse,
};

verus! {

/// The value of `s` read as big-endian digits in radix `r`.
pub open spec fn seq_val(s: Seq<u8>, r: int) -> int
    decreases s.len(),
{
    if s.len() == 0 {
        0
    } else {
        seq_val(s.drop_last(), r) * r + s.last()
    }
}

/// The value of `s` read as least-significant-first digits in radix `r`.
pub open spec fn lsb_val(s: Seq<u8>, r: int) -> int
    decreases s.len(),
{
    if s.len() == 0 {
        0
    } else {
        s.last() * pow(r, (s.len() - 1) as nat) + lsb_val(s.drop_last(), r)
    }
}

/// The minimal big-endian digit string of `n` in radix `r`: no leading
/// zero digit, and empty exactly when `n` is zero.
pub open spec fn min_digits(n: int, r: int) -> Seq<u8>
    decreases n,
    when n <= 0 || r >= 2 via min_digits_decreases
{
    if n <= 0 || r < 2 {
        Seq::empty()
    } else {
        min_digits(n / r, r).push((n % r) as u8)
    }
}

#[via_fn]
proof fn min_digits_decreases(n: int, r: int) {
    if !(n <= 0 || r < 2) {
        lemma_div_decreases(n, r);
        lemma_div_pos_is_pos(n, r);
    }
}

/// How many leading elements of `s` equal `z`.
pub open spec fn lead_count(s: Seq<u8>, z: u8) -> int
    decreases s.len(),
{
    if s.len() == 0 || s[0] != z {
        0
    } else {
        1 + lead_count(s.drop_first(), z)
    }
}

/// Step from `pow(r, k)` to `pow(r, k + 1)`.
proof fn lemma_pow_step(r: int, k: nat)
    ensures
        pow(r, k) * r == pow(r, k + 1),
{
    lemma_pow1(r);
    lemma_pow_adds(r, k, 1);
}

/// A digit string in radix `r` is bounded by `pow(r, len)` and nonnegative.
pub proof fn lemma_seq_val_bound(s: Seq<u8>, r: int)
    requires
        r >= 2,
        forall|i: int| 0 <= i < s.len() ==> s[i] < r,
    ensures
        0 <= seq_val(s, r) < pow(r, s.len() as nat),
    decreases s.len(),
{
    if s.len() == 0 {
        lemma_pow0(r);
    } else {
        let t = s.drop_last();
        let k = t.len() as nat;
        lemma_seq_val_bound(t, r);
        lemma_mul_nonnegative(seq_val(t, r), r);
        lemma_mul_inequality(seq_val(t, r), pow(r, k) - 1, r);
        lemma_mul_is_distributive_sub_other_way(r, pow(r, k), 1);
        lemma_pow_step(r, k);
        assert(s.len() as nat == k + 1);
        assert(seq_val(s, r) == seq_val(t, r) * r + s.last());
        assert(s.last() < r);
    }
}

/// A digit string whose first digit is nonzero has value at least
/// `pow(r, len - 1)`.
pub proof fn lemma_seq_val_lower(s: Seq<u8>, r: int)
    requires
        r >= 2,
        s.len() > 0,
        s[0] != 0,
    ensures
        seq_val(s, r) >= pow(r, (s.len() - 1) as nat),
    decreases s.len(),
{
    if s.len() == 1 {
        assert(s.drop_last().len() == 0);
        assert(seq_val(s.drop_last(), r) == 0);
        assert(seq_val(s, r) == s.last());
        lemma_pow0(r);
        assert(s.last() == s[0]);
    } else {
        let t = s.drop_last();
        let k = (t.len() - 1) as nat;
        assert(t[0] == s[0]);
        lemma_seq_val_lower(t, r);
        lemma_mul_inequality(pow(r, k), seq_val(t, r), r);
        lemma_pow_step(r, k);
        assert(seq_val(s, r) == seq_val(t, r) * r + s.last());
        assert(s.last() >= 0);
        assert((s.len() - 1) as nat == k + 1);
        assert(seq_val(s, r) >= pow(r, k + 1));
    }
}

/// `min_digits` is well formed: digits below `r`, value `n`, no leading
/// zero digit, and empty exactly for `n == 0`.
pub proof fn lemma_min_digits(n: int, r: int)
    requires
        n >= 0,
        2 <= r <= 256,
    ensures
        forall|i: int| 0 <= i < min_digits(n, r).len() ==> min_digits(n, r)[i] < r,
        seq_val(min_digits(n, r), r) == n,
        n > 0 ==> min_digits(n, r).len() > 0 && min_digits(n, r)[0] != 0,
        n == 0 ==> min_digits(n, r).len() == 0,
    decreases n,
{
    if n <= 0 {
    } else {
        lemma_div_decreases(n, r);
        lemma_div_pos_is_pos(n, r);
        lemma_min_digits(n / r, r);
        lemma_fundamental_div_mod(n, r);
        let d = min_digits(n / r, r);
        let s = min_digits(n, r);
        assert(s == d.push((n % r) as u8));
        assert(s.drop_last() =~= d);
        assert(s.last() == (n % r) as u8);
        assert(seq_val(s, r) == seq_val(d, r) * r + n % r);
        assert(seq_val(d, r) * r == r * (n / r)) by {
            vstd::arithmetic::mul::lemma_mul_is_commutative(seq_val(d, r), r);
        }
        if n / r == 0 {
            assert(s[0] == (n % r) as u8);
        } else {
            assert(s[0] == d[0]);
        }
    }
}

/// The digit count of `n` is at most `k` whenever `n < pow(r, k)`.
pub proof fn lemma_min_digits_len(n: int, r: int, k: nat)
    requires
        2 <= r <= 256,
        0 <= n < pow(r, k),
    ensures
        min_digits(n, r).len() <= k,
    decreases n,
{
    if n <= 0 {
    } else {
        lemma_div_decreases(n, r);
        lemma_div_pos_is_pos(n, r);
        if k == 0 {
            lemma_pow0(r);
            assert(false);
        }
        assert(n / r < pow(r, (k - 1) as nat)) by {
            lemma_fundamental_div_mod(n, r);
            lemma_pow_step(r, (k - 1) as nat);
            if n / r >= pow(r, (k - 1) as nat) {
                lemma_mul_inequality(pow(r, (k - 1) as nat), n / r, r);
                assert(n == r * (n / r) + n % r);
                assert((n / r) * r == r * (n / r)) by {
                    vstd::arithmetic::mul::lemma_mul_is_commutative(n / r, r);
                }
            }
        }
        lemma_min_digits_len(n / r, r, (k - 1) as nat);
    }
}

/// A digit string without a leading zero digit is the canonical one for
/// its own value.
pub proof fn lemma_canonical(s: Seq<u8>, r: int)
    requires
        2 <= r <= 256,
        forall|i: int| 0 <= i < s.len() ==> s[i] < r,
        s.len() > 0 ==> s[0] != 0,
    ensures
        min_digits(seq_val(s, r), r) == s,
    decreases s.len(),
{
    if s.len() == 0 {
    } else {
        let t = s.drop_last();
        let v = seq_val(t, r);
        let n = seq_val(s, r);
        lemma_seq_val_bound(t, r);
        assert(n == v * r + s.last());
        lemma_fundamental_div_mod_converse(n, r, v, s.last() as int);
        assert(n / r == v && n % r == s.last() as int);
        assert(n > 0) by {
            lemma_seq_val_lower(s, r);
            lemma_pow_positive(r, (s.len() - 1) as nat);
        }
        if s.len() == 1 {
            assert(v == 0);
            assert(min_digits(n, r) == min_digits(0, r).push((n % r) as u8));
            assert(min_digits(n, r) =~= s);
        } else {
            assert(t[0] == s[0]);
            lemma_canonical(t, r);
            assert(min_digits(n, r) == min_digits(v, r).push((n % r) as u8));
            assert(min_digits(n, r) =~= s);
        }
    }
}

/// Expands `seq_val` at the most significant digit.
pub proof fn lemma_seq_val_first(s: Seq<u8>, r: int)
    requires
        s.len() > 0,
    ensures
        seq_val(s, r) == s[0] * pow(r, (s.len() - 1) as nat) + seq_val(s.drop_first(), r),
    decreases s.len(),
{
    if s.len() == 1 {
        assert(s.drop_last().len() == 0);
        assert(s.drop_first().len() == 0);
        assert(seq_val(s.drop_last(), r) == 0);
        assert(seq_val(s.drop_first(), r) == 0);
        assert(seq_val(s, r) == s.last());
        assert(s.last() == s[0]);
        lemma_pow0(r);
    } else {
        let t = s.drop_last();
        let k = (t.len() - 1) as nat;
        lemma_seq_val_first(t, r);
        assert(t[0] == s[0]);
        assert(t.drop_first() =~= s.drop_first().drop_last());
        assert(s.drop_first().last() == s.last());
        assert(seq_val(s, r) == (s[0] * pow(r, k) + seq_val(t.drop_first(), r)) * r + s.last());
        lemma_mul_is_distributive_add_other_way(r, s[0] * pow(r, k), seq_val(t.drop_first(), r));
        lemma_mul_is_associative(s[0] as int, pow(r, k), r);
        lemma_pow_step(r, k);
        assert(s[0] * pow(r, k) * r == s[0] * pow(r, (s.len() - 1) as nat));
        assert(seq_val(s.drop_first(), r) == seq_val(t.drop_first(), r) * r + s.last());
    }
}

/// Appending a least-significant-first digit adds `d * pow(r, len)`.
pub proof fn lemma_lsb_push(s: Seq<u8>, d: u8, r: int)
    ensures
        lsb_val(s.push(d), r) == lsb_val(s, r) + d * pow(r, s.len() as nat),
{
    assert(s.push(d).drop_last() =~= s);
    assert(s.push(d).last() == d);
}

/// A least-significant-first digit string has the value of its reversal
/// read big-endian.
pub proof fn lemma_lsb_reverse(s: Seq<u8>, r: int)
    ensures
        lsb_val(s, r) == seq_val(s.reverse(), r),
    decreases s.len(),
{
    if s.len() == 0 {
        assert(s.reverse().len() == 0);
    } else {
        let t = s.drop_last();
        lemma_lsb_reverse(t, r);
        assert(s.reverse().len() == s.len());
        assert(s.reverse()[0] == s.last());
        assert(s.reverse().drop_first() =~= t.reverse());
        lemma_seq_val_first(s.reverse(), r);
    }
}

/// Zero digits in front do not change the value.
pub proof fn lemma_seq_val_zeros(k: nat, s: Seq<u8>, r: int)
    ensures
        seq_val(Seq::new(k, |i: int| 0u8) + s, r) == seq_val(s, r),
    decreases s.len(),
{
    let z = Seq::new(k, |i: int| 0u8);
    if s.len() == 0 {
        assert(z + s =~= z);
        lemma_seq_val_all_zero(z, r);
    } else {
        let t = s.drop_last();
        lemma_seq_val_zeros(k, t, r);
        assert((z + s).drop_last() =~= z + t);
        assert((z + s).last() == s.last());
    }
}

/// An all-zero digit string has value zero.
pub proof fn lemma_seq_val_all_zero(s: Seq<u8>, r: int)
    requires
        forall|i: int| 0 <= i < s.len() ==> s[i] == 0,
    ensures
        seq_val(s, r) == 0,
    decreases s.len(),
{
    if s.len() == 0 {
    } else {
        lemma_seq_val_all_zero(s.drop_last(), r);
    }
}

/// What `lead_count` says about the elements of `s`.
pub proof fn lemma_lead_count(s: Seq<u8>, z: u8)
    ensures
        0 <= lead_count(s, z) <= s.len(),
        forall|i: int| 0 <= i < lead_count(s, z) ==> s[i] == z,
        lead_count(s, z) < s.len() ==> s[lead_count(s, z)] != z,
    decreases s.len(),
{
    if s.len() == 0 || s[0] != z {
    } else {
        let t = s.drop_first();
        lemma_lead_count(t, z);
        assert(forall|i: int| 0 <= i < lead_count(t, z) ==> t[i] == z);
        assert(forall|i: int|
            1 <= i < lead_count(s, z) ==> s[i] == t[i - 1] && 0 <= i - 1 < lead_count(t, z));
    }
}

/// Characterizes `lead_count` from a scan: `k` leading copies of `z`
/// followed by a different element (or the end) pins the count to `k`.
pub proof fn lemma_lead_count_is(s: Seq<u8>, z: u8, k: int)
    requires
        0 <= k <= s.len(),
        forall|i: int| 0 <= i < k ==> s[i] == z,
        k < s.len() ==> s[k] != z,
    ensures
        lead_count(s, z) == k,
    decreases s.len(),
{
    if k == 0 {
    } else {
        let t = s.drop_first();
        assert(s[0] == z);
        assert(forall|i: int| 0 <= i < k - 1 ==> t[i] == s[i + 1] && t[i] == z);
        if k - 1 < t.len() {
            assert(t[k - 1] == s[k]);
        }
        lemma_lead_count_is(t, z, k - 1);
    }
}

} // verus!
