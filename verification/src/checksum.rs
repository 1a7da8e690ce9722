//! The checksum that guards every record.

use vstd::prelude::*;

verus! {

/// The CRC-32 (IEEE) checksum of a byte sequence: the value that
/// `crc::crc32::checksum_ieee` returns for these bytes. The library reasons
/// about it as a function of the bytes and assumes nothing else of it.
pub uninterp spec fn crc32_ieee(data: Seq<u8>) -> u32;

/// Calls `crc::crc32::checksum_ieee`, which folds the bytes of `data` through
/// the IEEE table from a fixed start value and reads nothing else. That the
/// result is the checksum of the bytes is taken on trust.
#[verifier::external_body]
pub(crate) fn checksum_ieee(data: &[u8]) -> (sum: u32)
    ensures
        sum == crc32_ieee(data@),
{
    crc::crc32::checksum_ieee(data)
}

} // verus!
