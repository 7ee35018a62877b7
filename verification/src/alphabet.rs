//! The Crockford Base32 alphabet and its decode table.

use vstd::prelude::*;

verus! {

/// Error variants for fallible Crockford Base32 operations.
#[derive(Debug, Clone, Copy, PartialEq, Eq, PartialOrd, Ord, Hash)]
pub enum Error {
    /// The buffer size is insufficient for the operation.
    BufferTooSmall { min: usize, len: usize },
    /// The input data size doesn't match the expected size.
    InvalidDataSize { expected: usize, got: usize },
    /// An invalid character was encountered during decoding.
    InvalidCharacter { char: char, index: usize },
    /// The expected prefix character is missing.
    MissingPrefix { char: char, got: Option<char> },
    /// The provided version byte is invalid (must be below 32).
    InvalidVersion { version: u8 },
    /// The input has fewer bytes than are required.
    InsufficientData { min: usize, len: usize },
    /// The computed checksum does not match the embedded one.
    ChecksumMismatch { expected: [u8; 4], got: [u8; 4] },
}

/// The symbol for the 5-bit value `d` in Crockford's alphabet
/// `0123456789ABCDEFGHJKMNPQRSTVWXYZ`.
pub open spec fn spec_symbol(d: int) -> u8 {
    if d == 0 {
        48
    } else if d == 1 {
        49
    } else if d == 2 {
        50
    } else if d == 3 {
        51
    } else if d == 4 {
        52
    } else if d == 5 {
        53
    } else if d == 6 {
        54
    } else if d == 7 {
        55
    } else if d == 8 {
        56
    } else if d == 9 {
        57
    } else if d == 10 {
        65
    } else if d == 11 {
        66
    } else if d == 12 {
        67
    } else if d == 13 {
        68
    } else if d == 14 {
        69
    } else if d == 15 {
        70
    } else if d == 16 {
        71
    } else if d == 17 {
        72
    } else if d == 18 {
        74
    } else if d == 19 {
        75
    } else if d == 20 {
        77
    } else if d == 21 {
        78
    } else if d == 22 {
        80
    } else if d == 23 {
        81
    } else if d == 24 {
        82
    } else if d == 25 {
        83
    } else if d == 26 {
        84
    } else if d == 27 {
        86
    } else if d == 28 {
        87
    } else if d == 29 {
        88
    } else if d == 30 {
        89
    } else {
        90
    }
}

/// The 5-bit value of the input byte `b` under the decode table:
/// digits and alphabet letters (either case) map to their index, the
/// ambiguous letters are aliased (`O`/`o` to 0, `I`/`i`/`L`/`l` to 1),
/// and every other byte is invalid.
pub open spec fn spec_digit(b: u8) -> Option<u8> {
    if 48 <= b <= 57 {
        Some((b - 48) as u8)
    } else if b == 79 || b == 111 {
        Some(0u8)
    } else if b == 73 || b == 105 || b == 76 || b == 108 {
        Some(1u8)
    } else if 65 <= b <= 72 {
        Some((b - 65 + 10) as u8)
    } else if 97 <= b <= 104 {
        Some((b - 97 + 10) as u8)
    } else if b == 74 || b == 75 {
        Some((b - 74 + 18) as u8)
    } else if b == 106 || b == 107 {
        Some((b - 106 + 18) as u8)
    } else if b == 77 || b == 78 {
        Some((b - 77 + 20) as u8)
    } else if b == 109 || b == 110 {
        Some((b - 109 + 20) as u8)
    } else if 80 <= b <= 84 {
        Some((b - 80 + 22) as u8)
    } else if 112 <= b <= 116 {
        Some((b - 112 + 22) as u8)
    } else if 86 <= b <= 90 {
        Some((b - 86 + 27) as u8)
    } else if 118 <= b <= 122 {
        Some((b - 118 + 27) as u8)
    } else {
        None
    }
}

/// Returns the alphabet symbol for a 5-bit value.
pub(crate) fn symbol_of(d: u8) -> (r: u8)
    requires
        d < 32,
    ensures
        r == spec_symbol(d as int),
{
    if d < 10 {
        48 + d
    } else if d < 18 {
        65 + (d - 10)
    } else if d < 20 {
        74 + (d - 18)
    } else if d < 22 {
        77 + (d - 20)
    } else if d < 27 {
        80 + (d - 22)
    } else {
        86 + (d - 27)
    }
}

/// Looks an input byte up in the decode table.
pub(crate) fn digit_of(b: u8) -> (r: Option<u8>)
    ensures
        r == spec_digit(b),
{
    if 48 <= b && b <= 57 {
        Some(b - 48)
    } else if b == 79 || b == 111 {
        Some(0u8)
    } else if b == 73 || b == 105 || b == 76 || b == 108 {
        Some(1u8)
    } else if 65 <= b && b <= 72 {
        Some(b - 65 + 10)
    } else if 97 <= b && b <= 104 {
        Some(b - 97 + 10)
    } else if b == 74 || b == 75 {
        Some(b - 74 + 18)
    } else if b == 106 || b == 107 {
        Some(b - 106 + 18)
    } else if b == 77 || b == 78 {
        Some(b - 77 + 20)
    } else if b == 109 || b == 110 {
        Some(b - 109 + 20)
    } else if 80 <= b && b <= 84 {
        Some(b - 80 + 22)
    } else if 112 <= b && b <= 116 {
        Some(b - 112 + 22)
    } else if 86 <= b && b <= 90 {
        Some(b - 86 + 27)
    } else if 118 <= b && b <= 122 {
        Some(b - 118 + 27)
    } else {
        None
    }
}

/// Every alphabet symbol decodes back to its own index, symbols are
/// ASCII, and the zero symbol is exactly the digit `'0'`.
pub proof fn lemma_symbol_digit(d: int)
    requires
        0 <= d < 32,
    ensures
        spec_digit(spec_symbol(d)) == Some(d as u8),
        spec_symbol(d) < 128,
        (spec_symbol(d) == 48) <==> (d == 0),
{
}

/// A decoded digit is always a 5-bit value.
pub proof fn lemma_digit_range(b: u8)
    requires
        spec_digit(b) is Some,
    ensures
        spec_digit(b)->0 < 32,
{
}

} // verus!
