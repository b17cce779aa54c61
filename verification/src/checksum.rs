//! The checksum that guards entries on disk.

use std::hash::Hasher;
use vstd::prelude::*;

verus! {

/// The seed of the checksum of an entry.
pub const CHECKSUM_SEED: u64 = 0;

/// The XXH64 digest of a byte string under a seed.
pub uninterp spec fn xxh64_seeded(seed: u64, bytes: Seq<u8>) -> u64;

/// The checksum of a byte string: its XXH64 digest under seed 0.
pub open spec fn xxh64(bytes: Seq<u8>) -> u64 {
    xxh64_seeded(CHECKSUM_SEED, bytes)
}

/// Feeds `buf` to a `twox_hash::XxHash64` made by `with_seed(seed)` and
/// returns what `finish` gives: the XXH64 digest of `buf` under that seed,
/// which depends on the seed and the bytes alone.
#[verifier::external_body]
fn digest(seed: u64, buf: &[u8]) -> (sum: u64)
    ensures
        sum == xxh64_seeded(seed, buf@),
{
    let mut hasher = twox_hash::XxHash64::with_seed(seed);
    hasher.write(buf);
    hasher.finish()
}

/// The checksum of `buf`.
pub fn checksum(buf: &[u8]) -> (sum: u64)
    ensures
        sum == xxh64(buf@),
{
    digest(CHECKSUM_SEED, buf)
}

} // verus!
