//! The laws that tie the two directions of the codec together.

use vstd::prelude::*;
use crate::alphabet::{lemma_symbol_digit, spec_digit, spec_symbol};
use crate::decode::{spec_decoded, spec_digit_val, spec_symbols_valid, sym_digits};
use crate::checked::spec_check_frame;
use crate::checksum::spec_checksum;
use crate::encode::spec_encoded;
use crate::radix::{
    lead_count, lemma_canonical, lemma_lead_count, lemma_lead_count_is, lemma_min_digits,
    lemma_seq_val_zeros, min_digits, seq_val,
};

verus! {

/// Round-trip: every byte sequence decodes back from its encoded form,
/// bit for bit, leading zero bytes included, and the encoded form
/// contains only bytes the decode table accepts.
pub proof fn lemma_round_trip(b: Seq<u8>)
    ensures
        spec_symbols_valid(spec_encoded(b)),
        spec_decoded(spec_encoded(b)) == b,
{
    let lz = lead_count(b, 0);
    lemma_lead_count(b, 0);
    let t = b.skip(lz);
    assert(b =~= Seq::new(lz as nat, |i: int| 0u8) + t);
    lemma_seq_val_zeros(lz as nat, t, 256);
    let n = seq_val(b, 256);
    assert(n == seq_val(t, 256));
    crate::radix::lemma_seq_val_bound(t, 256);
    lemma_min_digits(n, 32);
    let md = min_digits(n, 32);
    let e = spec_encoded(b);
    let syms = md.map_values(|d: u8| spec_symbol(d as int));
    assert(e == Seq::new(lz as nat, |i: int| 48u8) + syms);
    assert(e.len() == lz + md.len());

    // every emitted byte is a valid symbol, with its own digit value
    assert forall|i: int| 0 <= i < e.len() implies spec_digit(e[i]) is Some && (i < lz ==> (
    spec_digit_val(e[i]) == 0 && e[i] == 48)) && (lz <= i ==> spec_digit_val(e[i]) == md[i - lz])
        by {
        if i < lz {
            assert(e[i] == 48);
            assert(spec_digit(48u8) == Some(0u8));
        } else {
            assert(e[i] == syms[i - lz]);
            assert(syms[i - lz] == spec_symbol(md[i - lz] as int));
            lemma_symbol_digit(md[i - lz] as int);
        }
    }
    assert(spec_symbols_valid(e));

    // the encoded form has exactly lz leading zero symbols
    if md.len() > 0 {
        assert(md[0] != 0);
        assert(e[lz as int] == spec_symbol(md[0] as int));
        lemma_symbol_digit(md[0] as int);
        assert(e[lz as int] != 48);
    }
    lemma_lead_count_is(e, 48u8, lz);

    // its base-32 value is the value of b
    assert(sym_digits(e) =~= Seq::new(lz as nat, |i: int| 0u8) + md);
    lemma_seq_val_zeros(lz as nat, md, 32);
    assert(seq_val(sym_digits(e), 32) == seq_val(md, 32));
    assert(seq_val(md, 32) == n);

    // decoding gives back the zero bytes and the canonical byte string
    if lz < b.len() {
        assert(b[lz] != 0);
        assert(t[0] == b[lz]);
    }
    lemma_canonical(t, 256);
    assert(min_digits(n, 256) == t);
    assert(spec_decoded(e) == Seq::new(lz as nat, |i: int| 0u8) + t);
    assert(spec_decoded(e) =~= b);
}

/// Re-encoding a decoded symbol string gives a canonical form that
/// still decodes to the same bytes.
pub proof fn lemma_reencode_canonical(s: Seq<u8>)
    requires
        spec_symbols_valid(s),
    ensures
        spec_symbols_valid(spec_encoded(spec_decoded(s))),
        spec_decoded(spec_encoded(spec_decoded(s))) == spec_decoded(s),
{
    lemma_round_trip(spec_decoded(s));
}

/// Check-frame round-trip: a frame built from a payload, a version
/// below 32, and the payload's own checksum carries the version in its
/// first symbol and decodes back to the payload followed by that
/// checksum.  The checksum is passed in as the separate sequence `sum`
/// because its 4-byte length comes from the hash itself, which
/// `checksum::compute` exhibits.
pub proof fn lemma_check_round_trip(b: Seq<u8>, v: u8, sum: Seq<u8>)
    requires
        v < 32,
        sum.len() == 4,
        sum == spec_checksum(b, v),
    ensures
        ({
            let frame = spec_check_frame(b, v);
            let p = spec_decoded(frame.skip(1));
            &&& frame.len() >= 2
            &&& spec_digit(frame[0]) == Some(v)
            &&& spec_symbols_valid(frame.skip(1))
            &&& p == b + sum
            &&& p.len() == b.len() + 4
            &&& p.take(b.len() as int) == b
            &&& p.skip(b.len() as int) == sum
        }),
{
    let c = b + sum;
    let frame = spec_check_frame(b, v);
    assert(frame[0] == spec_symbol(v as int));
    lemma_symbol_digit(v as int);
    assert(frame.skip(1) =~= spec_encoded(c));
    lemma_round_trip(c);
    let p = spec_decoded(frame.skip(1));
    assert(p == c);
    assert(p.take(b.len() as int) =~= b);
    assert(p.skip(b.len() as int) =~= sum);

    // the encoded part is never empty, so the frame has two symbols
    let lz = lead_count(c, 0);
    lemma_lead_count(c, 0);
    let n = seq_val(c, 256);
    crate::radix::lemma_seq_val_bound(c, 256);
    lemma_min_digits(n, 32);
    if lz < c.len() {
        let t = c.skip(lz);
        assert(t[0] == c[lz] && t[0] != 0);
        crate::radix::lemma_seq_val_lower(t, 256);
        vstd::arithmetic::power::lemma_pow_positive(256, (t.len() - 1) as nat);
        assert(c =~= Seq::new(lz as nat, |i: int| 0u8) + t);
        lemma_seq_val_zeros(lz as nat, t, 256);
        assert(n > 0);
        assert(min_digits(n, 32).len() > 0);
    }
    assert(spec_encoded(c).len() >= 1);
}

} // verus!
