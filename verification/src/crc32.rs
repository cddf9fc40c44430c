//! Checksum support for PNG chunk validation.
//!
//! PNG stores a CRC-32 over each chunk's type and data, computed with the
//! IEEE polynomial. The checksum itself comes from the `crc` crate; the
//! library only names its result.

use vstd::prelude::*;

verus! {

/// The IEEE CRC-32 checksum (the `CRC_32_ISO_HDLC` algorithm) of a byte
/// sequence.
pub uninterp spec fn crc32_of(data: Seq<u8>) -> u32;

/// Relies on `crc::Crc::<u32>::checksum` with the `CRC_32_ISO_HDLC`
/// algorithm: the checksum depends on the input bytes alone.
#[verifier::external_body]
pub(crate) fn crc32_checksum(data: &[u8]) -> (r: u32)
    ensures
        r == crc32_of(data@),
{
    crc::Crc::<u32>::new(&crc::CRC_32_ISO_HDLC).checksum(data)
}

} // verus!
