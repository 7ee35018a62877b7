//! Computing the 4-byte integrity code of the checksum layer.

use vstd::prelude::*;
use sha2::Digest;

verus! {

/// Length of a checksum in bytes.
pub const BYTE_LENGTH: usize = 4;

/// A 4-byte checksum.
pub type Checksum = [u8; 4];

/// What SHA-256 returns for the given input bytes.
pub uninterp spec fn sha256_of(data: Seq<u8>) -> Seq<u8>;

/// Relies on sha2's `Sha256` (through `Digest::digest`): the result is
/// a function of the input bytes alone and is 32 bytes long.
#[verifier::external_body]
fn sha256(data: &[u8]) -> (r: Vec<u8>)
    ensures
        r@ == sha256_of(data@),
        r@.len() == 32,
{
    sha2::Sha256::digest(data).to_vec()
}

/// The checksum of a payload under a version byte: the first four bytes
/// of the double SHA-256 hash of the version byte followed by the
/// payload.
pub open spec fn spec_checksum(bytes: Seq<u8>, version: u8) -> Seq<u8> {
    sha256_of(sha256_of(seq![version] + bytes)).take(4)
}

/// Computes a 4-byte checksum from a byte slice and a version.
pub fn compute(bytes: &[u8], version: u8) -> (r: Checksum)
    ensures
        r@ == spec_checksum(bytes@, version),
{
    let mut data: Vec<u8> = Vec::new();
    data.push(version);
    let mut i: usize = 0;
    while i < bytes.len()
        invariant
            i <= bytes@.len(),
            data@ == seq![version] + bytes@.subrange(0, i as int),
        decreases bytes@.len() - i,
    {
        let b = bytes[i];
        data.push(b);
        proof {
            assert(data@ =~= seq![version] + bytes@.subrange(0, i + 1));
        }
        i += 1;
    }
    proof {
        assert(bytes@.subrange(0, bytes@.len() as int) =~= bytes@);
        assert(data@ == seq![version] + bytes@);
    }
    let first = sha256(data.as_slice());
    let second = sha256(first.as_slice());
    let r: Checksum = [second[0], second[1], second[2], second[3]];
    proof {
        assert(r@ =~= second@.take(4));
    }
    r
}

/// Creates a checksum from the first four bytes of a slice.
pub fn from_slice(bytes: &[u8]) -> (r: Checksum)
    requires
        bytes@.len() >= 4,
    ensures
        r@ == bytes@.take(4),
{
    let r: Checksum = [bytes[0], bytes[1], bytes[2], bytes[3]];
    proof {
        assert(r@ =~= bytes@.take(4));
    }
    r
}

} // verus!
