use vstd::prelude::*;
use vstd::slice::slice_subrange;
use crate::header::{arr_to_hex, as_signed32, be_value};
use crate::greyscale::{
    convert_greyscale, greyscale_spec, lemma_greyscale_keeps_header, payload_aligned,
};
use crate::sobel::{
    is_center, lemma_sobel_group_uniform, lemma_sobel_keeps_prefix, sobel_filter, sobel_spec,
};

verus! {

/// Number of bytes the fixed header fields span.
pub const HEADER_LEN: usize = 26;

/// Byte index of the pixel-data offset.
pub const OFFSET_POS: usize = 10;

/// Byte index where the width field starts (4 bytes, read big-endian).
pub const WIDTH_POS: usize = 18;

/// Byte index where the height field starts (4 bytes, read big-endian).
pub const HEIGHT_POS: usize = 22;

/// The header fields the filter uses.
#[derive(Clone, Copy, Debug, PartialEq, Eq, Structural)]
pub struct BmpHeader {
    /// Byte index where the pixel data begins.
    pub pixel_offset: usize,
    /// Image width in pixels.
    pub width: i32,
    /// Image height in pixels.
    pub height: i32,
}

/// Why an input buffer cannot be processed.
#[derive(Clone, Copy, Debug, PartialEq, Eq, Structural)]
pub enum ImageError {
    /// The buffer is shorter than the fixed header fields.
    TooShort,
    /// The pixel data is not made of whole 3-byte groups.
    Misaligned,
    /// The buffer is longer than a signed 32-bit index can address.
    TooLarge,
}

/// Width field of a buffer holding a full header.
pub open spec fn width_of(b: Seq<u8>) -> int {
    as_signed32(be_value(b.subrange(WIDTH_POS as int, WIDTH_POS as int + 4)))
}

/// Height field of a buffer holding a full header.
pub open spec fn height_of(b: Seq<u8>) -> int {
    as_signed32(be_value(b.subrange(HEIGHT_POS as int, HEIGHT_POS as int + 4)))
}

/// Pixel-data offset of a buffer holding a full header.
pub open spec fn offset_of(b: Seq<u8>) -> int {
    b[OFFSET_POS as int] as int
}

/// The error a buffer is rejected with, if any.
pub open spec fn input_error(b: Seq<u8>) -> Option<ImageError> {
    if b.len() < HEADER_LEN {
        Some(ImageError::TooShort)
    } else if b.len() > i32::MAX {
        Some(ImageError::TooLarge)
    } else if !payload_aligned(b.len() as int, offset_of(b)) {
        Some(ImageError::Misaligned)
    } else {
        None
    }
}

/// The edge-detected buffer: greyscale, then the Sobel filter.
pub open spec fn edges_spec(b: Seq<u8>) -> Seq<u8> {
    sobel_spec(greyscale_spec(b, offset_of(b)), offset_of(b), width_of(b))
}

/// Reads the pixel-data offset (byte 10), the width (bytes 18..22) and the
/// height (bytes 22..26). The two 4-byte fields are read most significant
/// byte first.
pub fn read_header(buffer: &Vec<u8>) -> (r: Result<BmpHeader, ImageError>)
    ensures
        buffer@.len() < HEADER_LEN <==> r is Err,
        r is Err ==> r == Err::<BmpHeader, ImageError>(ImageError::TooShort),
        r matches Ok(h) ==> h.pixel_offset == offset_of(buffer@) && h.width == width_of(buffer@)
            && h.height == height_of(buffer@),
{
    if buffer.len() < HEADER_LEN {
        return Err(ImageError::TooShort);
    }
    let bytes = buffer.as_slice();
    let width = arr_to_hex(slice_subrange(bytes, WIDTH_POS, WIDTH_POS + 4));
    let height = arr_to_hex(slice_subrange(bytes, HEIGHT_POS, HEIGHT_POS + 4));
    Ok(BmpHeader { pixel_offset: buffer[OFFSET_POS] as usize, width, height })
}

/// Runs the whole pipeline on a bitmap buffer: reads the header, converts
/// the pixel data to greyscale and applies the Sobel filter. Fails exactly
/// when the buffer is too short for the header, too long to index with a
/// signed 32-bit value, or its pixel data is not whole 3-byte groups.
pub fn detect_edges(buffer: &Vec<u8>) -> (r: Result<Vec<u8>, ImageError>)
    ensures
        r is Ok <==> input_error(buffer@) is None,
        r matches Err(e) ==> input_error(buffer@) == Some(e),
        r matches Ok(out) ==> out@ == edges_spec(buffer@),
{
    let header = match read_header(buffer) {
        Ok(h) => h,
        Err(e) => {
            return Err(e);
        },
    };
    let len: usize = buffer.len();
    if len > i32::MAX as usize {
        return Err(ImageError::TooLarge);
    }
    let offset = header.pixel_offset;
    if offset <= len && (len - offset) % 3 != 0 {
        return Err(ImageError::Misaligned);
    }
    let grey = convert_greyscale(buffer, offset);
    Ok(sobel_filter(grey, offset as i32, header.width))
}

/// The greyscale buffer and the output both have the input's length.
pub proof fn lemma_pipeline_lengths(b: Seq<u8>)
    requires
        b.len() >= HEADER_LEN,
    ensures
        greyscale_spec(b, offset_of(b)).len() == b.len(),
        edges_spec(b).len() == b.len(),
{
}

/// Every byte before the pixel data is the same in the input, the greyscale
/// buffer and the output.
pub proof fn lemma_pipeline_keeps_header(b: Seq<u8>, k: int)
    requires
        b.len() >= HEADER_LEN,
        0 <= k < offset_of(b),
        k < b.len(),
    ensures
        greyscale_spec(b, offset_of(b))[k] == b[k],
        edges_spec(b)[k] == b[k],
{
    let off = offset_of(b);
    lemma_greyscale_keeps_header(b, off, k);
    lemma_sobel_keeps_prefix(greyscale_spec(b, off), off, width_of(b), k);
}

/// The three bytes of each pixel group the filter writes are equal in the
/// output.
pub proof fn lemma_pipeline_group_uniform(b: Seq<u8>, c: int)
    requires
        b.len() >= HEADER_LEN,
        is_center(offset_of(b), b.len() as int, c),
    ensures
        edges_spec(b)[c] == edges_spec(b)[c + 1],
        edges_spec(b)[c + 1] == edges_spec(b)[c + 2],
{
    let off = offset_of(b);
    lemma_sobel_group_uniform(greyscale_spec(b, off), off, width_of(b), c);
}

} // verus!
