//! Checksums of pages.

use twox_hash::XxHash3_128;
use vstd::prelude::*;

verus! {

/// The 128-bit XXH3 hash of `data`, as `twox_hash::XxHash3_128::oneshot` computes it.
pub uninterp spec fn xxh3_128(data: Seq<u8>) -> u128;

/// Calls `twox_hash::XxHash3_128::oneshot`. The hash depends on the bytes alone; the crate fixes
/// the seed and the secret.
#[verifier::external_body]
pub(crate) fn checksum_page(data: &[u8]) -> (r: u128)
    ensures
        r == xxh3_128(data@),
{
    XxHash3_128::oneshot(data)
}

} // verus!
