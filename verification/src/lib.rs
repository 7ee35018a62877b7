//! Crockford Base32 codec with an optional SHA-256-based checksum layer.
//!
//! The crate converts between byte sequences and strings over the fixed
//! 32-symbol Crockford alphabet, preserving leading zero bytes and
//! suppressing trailing zero-bit artifacts.  A checksum layer wraps the
//! raw codec in a `[version][payload][checksum]` frame, and every
//! operation also exists in a variant that carries a single prefix
//! character.

use vstd::prelude::*;

mod alphabet;
mod checked;
pub mod checksum;
mod decode;
mod encode;
mod laws;
mod prefixed;
mod radix;
mod strings;

pub use alphabet::{spec_digit, spec_symbol, Error};
pub use checked::{decode_check_into, encode_check_into, spec_check_frame};
pub use decode::{
    decode_into, last_bad, lemma_decoded_fits, spec_decoded, spec_digit_val, spec_symbols_valid,
    sym_digits,
};
pub use encode::{encode_into, lemma_encoded_fits, spec_encoded};
pub use laws::{lemma_check_round_trip, lemma_reencode_canonical, lemma_round_trip};
pub use prefixed::{decode_check_prefixed, decode_prefixed, encode_check_prefixed, encode_prefixed};
pub use radix::{lead_count, min_digits, seq_val};
pub use strings::{decode, decode_check, encode, encode_check};

verus! {

/// Symbol count needed to encode `n` bytes: `ceil(n * 8 / 5)`.
pub open spec fn spec_encoded_len(n: nat) -> nat {
    (n * 8 + 4) / 5
}

/// Symbol count needed to encode `n` bytes plus a version symbol and a
/// 4-byte checksum: `1 + encoded_len(n + 4)`.
pub open spec fn spec_encoded_check_len(n: nat) -> nat {
    1 + spec_encoded_len((n + 4) as nat)
}

/// Computes the required buffer capacity for encoding `n` bytes.
///
/// The formula `(n * 8 + 4) / 5` must not overflow `usize`.
pub fn encoded_len(n: usize) -> (r: usize)
    requires
        n * 8 + 4 <= usize::MAX,
    ensures
        r == spec_encoded_len(n as nat),
{
    (n * 8 + 4) / 5
}

/// Computes the required buffer capacity for decoding `n` symbols: an
/// upper bound, the decoder may write fewer bytes.
pub fn decoded_len(n: usize) -> (r: usize)
    ensures
        r == n,
{
    n
}

/// Computes the required buffer capacity for encoding `n` bytes with a
/// version symbol and a checksum.
pub fn encoded_check_len(n: usize) -> (r: usize)
    requires
        (n + 4) * 8 + 4 <= usize::MAX,
    ensures
        r == spec_encoded_check_len(n as nat),
{
    1 + encoded_len(n + 4)
}

/// Computes the required buffer capacity for decoding `n` check-encoded
/// symbols: an upper bound, the decoder may write fewer bytes.
pub fn decoded_check_len(n: usize) -> (r: usize)
    ensures
        r == n,
{
    n
}

} // verus!
