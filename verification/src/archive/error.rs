//! What stops a rebuild.

use vstd::prelude::*;

verus! {

/// The kinds of failure of a rebuild.
#[derive(Debug, Clone, Copy, PartialEq, Eq, Structural)]
pub enum RebuildFault {
    /// A replacement names a file in place of holding its bytes.
    Io,
    /// The zlib compressor failed.
    Zlib,
    /// The LZO compressor failed.
    Lzo,
    /// A payload or its position in the image cannot be written in 32 bits.
    TooLarge,
}

/// Why a rebuild stopped.
#[derive(Debug)]
pub enum RebuildError {
    /// A replacement names a file in place of holding its bytes: the library
    /// reads no files, so the bytes of the file were to be put in its place
    /// before the rebuild.  The text is the path.
    Io(String),
    /// The zlib compressor failed.
    ZlibCompressionFailed(flate2::CompressError),
    /// The LZO compressor failed.
    LzoCompressionFailed(lzokay_native::Error),
    /// A payload or its position in the image cannot be written in 32 bits.
    TooLarge,
}

impl RebuildError {
    /// The kind of the failure.
    pub open spec fn fault(self) -> RebuildFault {
        match self {
            RebuildError::Io(_) => RebuildFault::Io,
            RebuildError::ZlibCompressionFailed(_) => RebuildFault::Zlib,
            RebuildError::LzoCompressionFailed(_) => RebuildFault::Lzo,
            RebuildError::TooLarge => RebuildFault::TooLarge,
        }
    }

    /// The kind of the failure.
    pub fn kind(&self) -> (r: RebuildFault)
        ensures
            r == self.fault(),
    {
        match self {
            RebuildError::Io(_) => RebuildFault::Io,
            RebuildError::ZlibCompressionFailed(_) => RebuildFault::Zlib,
            RebuildError::LzoCompressionFailed(_) => RebuildFault::Lzo,
            RebuildError::TooLarge => RebuildFault::TooLarge,
        }
    }
}

} // verus!
