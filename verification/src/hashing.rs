//! The fingerprint primitive: a 128-bit digest of a byte chunk.

use vstd::prelude::*;

verus! {

/// The 128-bit digest that the xxh3 hash assigns to a byte sequence when
/// the seed is fixed at zero. The digest is named, not defined: the
/// algorithm lives in the `xxh3` crate, and every statement the library
/// proves about fingerprints goes through this name.
pub uninterp spec fn xxh3_128(data: Seq<u8>) -> u128;

/// Relies on `xxh3::hash128_with_seed`: the digest is a deterministic
/// function of the input bytes and the seed alone, and the seed is fixed
/// at zero here, so equal byte sequences always fingerprint alike.
#[verifier::external_body]
pub(crate) fn chunk_fingerprint(data: &[u8]) -> (r: u128)
    ensures
        r == xxh3_128(data@),
{
    xxh3::hash128_with_seed(data, 0u64)
}

} // verus!
