//! CRC32C checksums, with the masking recommended for storing a
//! checksum inside data that is itself checksummed.

use vstd::prelude::*;

verus! {

/// The constant added when masking a checksum.
pub const MASK_DELTA: u32 = 0xa282ead8;

/// What the CRC32C (Castagnoli) checksum of a byte string is.  The
/// checksum depends on the bytes alone.
pub uninterp spec fn spec_crc32c(data: Seq<u8>) -> u32;

/// Return the CRC32C of `data`.
///
/// Relies on `crc::crc32::checksum_castagnoli`: a table-driven CRC over
/// the Castagnoli polynomial, a function of the input bytes alone.
#[verifier::external_body]
pub fn value(data: &[u8]) -> (r: u32)
    ensures
        r == spec_crc32c(data@),
{
    crc::crc32::checksum_castagnoli(data)
}

/// `c` rotated right by 15 bits, plus `MASK_DELTA`, modulo `2^32`.
pub open spec fn spec_mask(c: u32) -> u32 {
    ((((c >> 15) | (c << 17)) + MASK_DELTA) % 0x100000000) as u32
}

/// The inverse of `spec_mask`: subtract `MASK_DELTA` modulo `2^32`,
/// then rotate left by 15 bits.
pub open spec fn spec_unmask(m: u32) -> u32 {
    let rot = (((m - MASK_DELTA) % 0x100000000) as u32);
    (rot >> 17) | (rot << 15)
}

/// Return a masked representation of `crc`.
///
/// It is problematic to compute the CRC of a string that contains an
/// embedded CRC, so checksums that are stored somewhere should be
/// masked first.
pub fn mask(crc: u32) -> (r: u32)
    ensures
        r == spec_mask(crc),
{
    let rot = (crc >> 15u32) | (crc << 17u32);
    rot.wrapping_add(MASK_DELTA)
}

/// Return the crc whose masked representation is `masked_crc`.
pub fn unmask(masked_crc: u32) -> (r: u32)
    ensures
        r == spec_unmask(masked_crc),
{
    let rot = masked_crc.wrapping_sub(MASK_DELTA);
    (rot >> 17u32) | (rot << 15u32)
}

/// Unmasking a masked checksum gives the checksum back.
pub proof fn lemma_mask_round_trip(c: u32)
    ensures
        spec_unmask(spec_mask(c)) == c,
{
    let rot = (c >> 15) | (c << 17);
    // adding and subtracting the delta modulo 2^32 cancels
    assert((((rot + MASK_DELTA) % 0x100000000) - MASK_DELTA) % 0x100000000 == rot);
    // the two rotations compose to the identity
    assert((((c >> 15) | (c << 17)) >> 17) | ((((c >> 15) | (c << 17))) << 15) == c)
        by (bit_vector);
}

} // verus!
