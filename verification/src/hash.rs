use vstd::prelude::*;

verus! {

/// The 32-bit XXH32 digest of a byte sequence under a seed.
///
/// The digest is a fixed function of the bytes and the seed alone; nothing
/// further is assumed about its values anywhere in this crate.
pub uninterp spec fn xxh32_of(x: Seq<u8>, seed: u32) -> u32;

/// Relies on `xxhash_rust::xxh32::xxh32`: the XXH32 digest of `x` under
/// `seed`, a deterministic pure function of its two arguments.
#[verifier::external_body]
pub(crate) fn xxh32_hash(x: &[u8], seed: u32) -> (r: u32)
    ensures
        r == xxh32_of(x@, seed),
{
    xxhash_rust::xxh32::xxh32(x, seed)
}

} // verus!
