//! Metadata codec for EXIF/TIFF image file directories and their embedding
//! inside PNG files through the zlib-compressed `zTXt` text envelope.

use vstd::prelude::*;

pub mod crc32;
pub mod endian;
pub mod envelope;
pub mod ifd;
pub mod png;
pub mod rational;
pub mod zlib;

verus! {

/// The error kinds shared by the IFD codec and the PNG container transform.
///
/// Decoding and container errors are fail-fast: the first problem aborts the
/// whole operation and nothing is retried.
#[derive(Clone, Copy, Debug, PartialEq, Eq, Structural)]
pub enum MetaError {
    /// The buffer ends before the structure it should hold.
    Truncated,
    /// An IFD entry carries a format code outside the known table.
    UnknownFormat,
    /// A known tag carries a format that is neither the expected one nor
    /// coercible to it.
    FormatMismatch,
    /// An offset inside the TIFF data points past the end of the buffer.
    BadOffset,
    /// Sub-directories nest deeper than the defensive limit.
    NestingTooDeep,
    /// A nested sub-directory carries a chain link, which only generic
    /// top-level directories may do.
    SubIfdChained,
    /// The first eight bytes are not the PNG signature.
    BadSignature,
    /// A chunk's stored CRC does not match the checksum of its contents.
    BadChecksum,
    /// A chunk's type field is not four ASCII letters.
    BadChunkName,
    /// The compressed chunk body is not a valid zlib stream.
    InflateFailed,
    /// A chunk body grew past what the 32-bit length field can hold.
    TooLarge,
    /// The text envelope's declared length disagrees with its contents.
    EnvelopeMismatch,
    /// No metadata chunk is present in the file.
    NotFound,
}

} // verus!
