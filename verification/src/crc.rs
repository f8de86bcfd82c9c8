//! Checksums.

use vstd::prelude::*;

verus! {

/// A checksum in the making, as `crc32fast` keeps it.
#[verifier::external_type_specification]
#[verifier::external_body]
pub struct ExHasher(crc32fast::Hasher);

/// The bytes that a `crc32fast::Hasher` has taken in so far.
pub uninterp spec fn hashed_bytes(hasher: crc32fast::Hasher) -> Seq<u8>;

/// The CRC-32 (IEEE) checksum that `crc32fast::Hasher::finalize` returns for a run of bytes.
pub uninterp spec fn crc32_of(bytes: Seq<u8>) -> u32;

/// Calls `crc32fast::Hasher::new`, which starts a checksum that has taken in nothing.
#[verifier::external_body]
pub(crate) fn hasher_new() -> (hasher: crc32fast::Hasher)
    ensures
        hashed_bytes(hasher) == Seq::<u8>::empty(),
{
    crc32fast::Hasher::new()
}

/// Calls `crc32fast::Hasher::update`, which takes in the bytes behind those it has. The hasher
/// counts its bytes in 64 bits.
#[verifier::external_body]
pub(crate) fn hasher_update(hasher: &mut crc32fast::Hasher, bytes: &[u8])
    requires
        hashed_bytes(*old(hasher)).len() + bytes@.len() <= u64::MAX,
    ensures
        hashed_bytes(*final(hasher)) == hashed_bytes(*old(hasher)) + bytes@,
{
    hasher.update(bytes)
}

/// Calls `crc32fast::Hasher::finalize`, whose result depends on the bytes taken in and not on
/// how they were split over the updates.
#[verifier::external_body]
pub(crate) fn hasher_finalize(hasher: crc32fast::Hasher) -> (crc: u32)
    ensures
        crc == crc32_of(hashed_bytes(hasher)),
{
    hasher.finalize()
}

/// The checksum of a run of bytes.
pub fn crc32(bytes: &[u8]) -> (crc: u32)
    ensures
        crc == crc32_of(bytes@),
{
    let mut hasher = hasher_new();
    assert(bytes@.len() == bytes.len());
    hasher_update(&mut hasher, bytes);
    assert(Seq::<u8>::empty() + bytes@ =~= bytes@);
    hasher_finalize(hasher)
}

} // verus!
