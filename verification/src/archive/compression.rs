//! The codecs of the payloads.  The compressors and decompressors themselves
//! are not part of this library: every function here hands its input to one of
//! them and names what comes back.

use vstd::prelude::*;

use crate::archive::entry::DecompressError;

verus! {

/// The error of the zlib compressor.
#[verifier::external_type_specification]
#[verifier::external_body]
pub struct ExZlibCompressError(flate2::CompressError);

/// The error of the LZO compressor of the second layout.
#[verifier::external_type_specification]
#[verifier::external_body]
pub struct ExLzokayError(lzokay_native::Error);

/// The working memory of the LZO compressor of the second layout.
#[verifier::external_type_specification]
#[verifier::external_body]
pub struct ExLzokayDict(lzokay_native::Dict);

/// What the zlib compressor writes for `input` at its best level, with a zlib
/// header, into `room` bytes: the start of the stream where the stream is
/// longer than the room; nothing where the compressor reports an error.
pub uninterp spec fn zlib_deflated(input: Seq<u8>, room: nat) -> Option<Seq<u8>>;

/// What the zlib decompressor leaves in a zeroed buffer of `size` bytes that
/// it was given for the stream `input`; nothing where it reports an error.
pub uninterp spec fn zlib_inflated(input: Seq<u8>, size: nat) -> Option<Seq<u8>>;

/// The LZO stream that the compressor of the second layout makes of `input`;
/// nothing where it reports an error.
pub uninterp spec fn lzokay_compressed(input: Seq<u8>) -> Option<Seq<u8>>;

/// The LZO stream that the compressor of the third layout makes of `input` at
/// level twelve.
pub uninterp spec fn lzo1x_compressed(input: Seq<u8>) -> Seq<u8>;

/// The `size` bytes that the LZO stream `input` decompresses to; nothing where
/// the stream is invalid or does not decompress to exactly `size` bytes.
pub uninterp spec fn lzo1x_decompressed(input: Seq<u8>, size: nat) -> Option<Seq<u8>>;

/// `flate2::Compress::compress` with a fresh compressor at the best level and
/// with a zlib header, told that `input` is the whole input, writing into a
/// buffer of `room` bytes.  What was written depends on `input` and `room`
/// alone and is never longer than `room`.  A buffer cannot be longer than
/// `isize::MAX`.
#[verifier::external_body]
pub(crate) fn zlib_compress(input: &[u8], room: usize) -> (r: Result<
    Vec<u8>,
    flate2::CompressError,
>)
    requires
        room <= isize::MAX,
    ensures
        match r {
            Ok(out) => zlib_deflated(input@, room as nat) == Some(out@) && out@.len() <= room,
            Err(_) => zlib_deflated(input@, room as nat) is None,
        },
{
    let mut out = vec![0u8; room];
    let mut encoder = flate2::Compress::new(flate2::Compression::best(), true);
    encoder.compress(input, &mut out, flate2::FlushCompress::Finish)?;
    out.truncate(encoder.total_out() as usize);
    Ok(out)
}

/// `flate2::Decompress::decompress` with a fresh decompressor that expects a
/// zlib header, told that `input` is the whole stream, writing into a zeroed
/// buffer of `size` bytes, which is returned whole; nothing where the
/// decompressor reports an error.  A buffer cannot be longer than
/// `isize::MAX`.
#[verifier::external_body]
pub(crate) fn zlib_decompress(input: &[u8], size: usize) -> (r: Option<Vec<u8>>)
    requires
        size <= isize::MAX,
    ensures
        r matches Some(out) ==> out@.len() == size,
        match r {
            Some(out) => zlib_inflated(input@, size as nat) == Some(out@),
            None => zlib_inflated(input@, size as nat) is None,
        },
{
    let mut out = vec![0u8; size];
    let mut decoder = flate2::Decompress::new(true);
    decoder.decompress(input, &mut out, flate2::FlushDecompress::Finish).ok()?;
    Some(out)
}

/// `lzokay_native::Dict::new`: working memory for the compressor.
#[verifier::external_body]
pub(crate) fn lzokay_new_dict() -> lzokay_native::Dict {
    lzokay_native::Dict::new()
}

/// `lzokay_native::compress_with_dict`.  The working memory is cleared before
/// use, so the stream depends on `input` alone.  The compressor counts the
/// input in 32 bits.
#[verifier::external_body]
pub(crate) fn lzokay_compress(input: &[u8], dict: &mut lzokay_native::Dict) -> (r: Result<
    Vec<u8>,
    lzokay_native::Error,
>)
    requires
        input@.len() <= u32::MAX,
    ensures
        match r {
            Ok(out) => lzokay_compressed(input@) == Some(out@),
            Err(_) => lzokay_compressed(input@) is None,
        },
{
    lzokay_native::compress_with_dict(input, dict)
}

/// `lzo1x::compress` at level twelve.
#[verifier::external_body]
pub(crate) fn lzo1x_compress(input: &[u8]) -> (out: Vec<u8>)
    ensures
        out@ == lzo1x_compressed(input@),
{
    lzo1x::compress(input, lzo1x::CompressLevel::new(12))
}

/// `lzo1x::decompress` into a zeroed buffer of `size` bytes, which succeeds
/// only where the stream decompresses to exactly that many bytes.  Of its two
/// errors, one says that the stream is invalid and the other that the length
/// is not `size`.  A buffer cannot be longer than `isize::MAX`.
#[verifier::external_body]
pub(crate) fn lzo1x_decompress(input: &[u8], size: usize) -> (r: Result<Vec<u8>, DecompressError>)
    requires
        size <= isize::MAX,
    ensures
        r matches Ok(out) ==> out@.len() == size,
        r matches Err(e) ==> e is LzoInvalidInput || e is LzoOutputLength,
        match r {
            Ok(out) => lzo1x_decompressed(input@, size as nat) == Some(out@),
            Err(_) => lzo1x_decompressed(input@, size as nat) is None,
        },
{
    let mut out = vec![0u8; size];
    match lzo1x::decompress(input, &mut out) {
        Ok(()) => Ok(out),
        Err(lzo1x::DecompressError::InvalidInput) => Err(DecompressError::LzoInvalidInput),
        Err(lzo1x::DecompressError::OutputLength) => Err(DecompressError::LzoOutputLength),
    }
}

/// The room that the zlib compressor gets for an input of `source_len`
/// bytes: the input, a little more for every four and every sixteen kibibytes
/// of it, and eleven or ten bytes; `usize::MAX` where that is larger.
pub open spec fn spec_deflate_bound(source_len: nat) -> nat {
    let bound = source_len + source_len / 4096 + source_len / 16384 + 11 - (source_len / 2) % 2;
    if bound <= usize::MAX {
        bound as nat
    } else {
        usize::MAX as nat
    }
}

/// Room to give the zlib compressor for an input of `source_len` bytes.
pub fn deflate_bound(source_len: usize) -> (bound: usize)
    ensures
        bound == spec_deflate_bound(source_len as nat),
{
    let extra: usize = source_len / 4096 + source_len / 16384 + 11 - (source_len / 2) % 2;
    if extra > usize::MAX - source_len {
        usize::MAX
    } else {
        source_len + extra
    }
}

} // verus!
