//! Compressed frames.
use super::error::Error;
use vstd::prelude::*;

verus! {

/// `std::io::Error`, which the compression crate reports. Nothing is known of a
/// value of it.
#[verifier::external_type_specification]
#[verifier::external_body]
pub struct ExIoError(std::io::Error);

/// What `zstd::bulk::compress` makes of the bytes at a level.
pub uninterp spec fn zstd_compressed(data: Seq<u8>, level: int) -> Seq<u8>;

/// What `zstd::bulk::decompress` makes of the bytes where it has room enough, or
/// nothing where they are not compressed data.
pub uninterp spec fn zstd_content(data: Seq<u8>) -> Option<Seq<u8>>;

/// A buffer that is large enough for the compressed bytes, which may be slightly more
/// than so many, can be allocated.
pub open spec fn compressible(length: int) -> bool {
    length + length / 256 + 64 <= isize::MAX
}

/// Calls `zstd::bulk::compress`. Its result depends on the bytes and the level alone,
/// and decompresses to the bytes. It allocates what `ZSTD_compressBound` says, which is
/// the length, a 256th of it, and at most 64 more; levels out of range count as the
/// nearest. With room for all that can come out it succeeds, where memory suffices.
#[verifier::external_body]
fn zstd_compress(data: &[u8], level: i32) -> (r: Result<Vec<u8>, std::io::Error>)
    requires
        compressible(data@.len() as int),
    ensures
        r is Ok,
        r matches Ok(compressed) ==> compressed@ == zstd_compressed(data@, level as int)
            && zstd_content(compressed@) == Some(data@),
{
    zstd::bulk::compress(data, level)
}

/// Calls `zstd::bulk::decompress`. Where it succeeds, its result is the content
/// of the bytes. It fails where they have none, and may fail where the content is
/// longer than the capacity. The bound keeps the buffer allocatable.
#[verifier::external_body]
fn zstd_decompress(data: &[u8], capacity: usize) -> (r: Result<Vec<u8>, std::io::Error>)
    requires
        capacity <= isize::MAX,
    ensures
        match r {
            Ok(content) => zstd_content(data@) == Some(content@),
            Err(_) => match zstd_content(data@) {
                Some(content) => content.len() > capacity,
                None => true,
            },
        },
{
    zstd::bulk::decompress(data, capacity)
}

/// The level at which frames are compressed.
pub const FRAME_LEVEL: i32 = 3;

/// The bytes of a compressed frame.
pub open spec fn frame_bytes(decoded: Seq<u8>) -> Seq<u8> {
    zstd_compressed(decoded, FRAME_LEVEL as int)
}

/// What a frame of a stated decoded length holds.
pub open spec fn frame_content(compressed: Seq<u8>, decoded_length: usize) -> Option<Seq<u8>> {
    match zstd_content(compressed) {
        Some(content) => if content.len() <= decoded_length && decoded_length <= isize::MAX {
            Some(content)
        } else {
            None
        },
        None => None,
    }
}

/// Compresses a frame. A frame that could not be buffered is refused.
pub fn compress_frame(decoded: &[u8]) -> (r: Result<Vec<u8>, Error>)
    ensures
        if compressible(decoded@.len() as int) {
            r matches Ok(compressed) && compressed@ == frame_bytes(decoded@) && zstd_content(
                compressed@,
            ) == Some(decoded@)
        } else {
            r == Err::<Vec<u8>, Error>(Error::FrameCompression)
        },
{
    let length: usize = decoded.len();
    let more: usize = length / 256 + 64;
    if length > isize::MAX as usize || more > isize::MAX as usize - length {
        return Err(Error::FrameCompression);
    }
    match zstd_compress(decoded, FRAME_LEVEL) {
        Ok(compressed) => Ok(compressed),
        Err(_) => Err(Error::FrameCompression),
    }
}

/// Decompresses a frame, which may be shorter than it states but not longer.
pub fn decode_frame(compressed: &[u8], decoded_length: usize) -> (r: Result<Vec<u8>, Error>)
    ensures
        match frame_content(compressed@, decoded_length) {
            Some(content) => r matches Ok(decoded) && decoded@ == content,
            None => r == Err::<Vec<u8>, Error>(Error::FrameDecompression),
        },
{
    if decoded_length > isize::MAX as usize {
        return Err(Error::FrameDecompression);
    }
    match zstd_decompress(compressed, decoded_length) {
        Ok(decoded) => {
            if decoded.len() > decoded_length {
                return Err(Error::FrameDecompression);
            }
            Ok(decoded)
        },
        Err(_) => Err(Error::FrameDecompression),
    }
}

} // verus!
