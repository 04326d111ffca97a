//! RGB pixel buffers and the compressors' output type.
use std::collections::HashMap;
use vstd::prelude::*;

verus! {

/// Number of bytes that an RGB image of the given dimensions occupies.
pub open spec fn rgb_len(width: u32, height: u32) -> int {
    3 * width * height
}

/// `3 * width` and `3 * width * height` are both representable as a
/// `usize`, as `image::ImageBuffer` computes them.
pub open spec fn fits_usize(width: u32, height: u32) -> bool {
    &&& 3 * width <= usize::MAX
    &&& rgb_len(width, height) <= usize::MAX
}

/// An RGB image with 8 bits per channel, stored row by row: pixel `k`
/// occupies bytes `3k`, `3k + 1`, `3k + 2` of the raw buffer. As with the
/// buffers of the `image` crate, the raw buffer may be longer than
/// `3 * width * height` bytes, never shorter.
pub struct RgbImage {
    pub(crate) width: u32,
    pub(crate) height: u32,
    pub(crate) raw: Vec<u8>,
}

impl RgbImage {
    #[verifier::type_invariant]
    spec fn fits(self) -> bool {
        &&& rgb_len(self.width, self.height) <= self.raw@.len()
        &&& rgb_len(self.width, self.height) <= usize::MAX
    }

    pub closed spec fn spec_width(&self) -> u32 {
        self.width
    }

    pub closed spec fn spec_height(&self) -> u32 {
        self.height
    }

    pub closed spec fn spec_raw(&self) -> Seq<u8> {
        self.raw@
    }

    #[verifier::when_used_as_spec(spec_width)]
    pub fn width(&self) -> (w: u32)
        ensures
            w == self.spec_width(),
    {
        self.width
    }

    #[verifier::when_used_as_spec(spec_height)]
    pub fn height(&self) -> (h: u32)
        ensures
            h == self.spec_height(),
    {
        self.height
    }

    pub fn as_raw(&self) -> (raw: &Vec<u8>)
        ensures
            raw@ == self.spec_raw(),
            rgb_len(self.spec_width(), self.spec_height()) <= raw@.len(),
            rgb_len(self.spec_width(), self.spec_height()) <= usize::MAX,
    {
        proof {
            use_type_invariant(self);
        }
        &self.raw
    }

    pub fn into_raw(self) -> (raw: Vec<u8>)
        ensures
            raw@ == self.spec_raw(),
    {
        self.raw
    }

    /// Builds an image from its raw buffer through
    /// `image::ImageBuffer::from_raw`, which computes the needed length as
    /// `(3 * width) * height` with checked `usize` multiplications and accepts
    /// the buffer exactly when both products fit in a `usize` and the buffer
    /// is no shorter; it then keeps the buffer whole.
    #[verifier::external_body]
    pub fn from_raw(width: u32, height: u32, raw: Vec<u8>) -> (img: Option<RgbImage>)
        ensures
            img is Some <==> (fits_usize(width, height) && rgb_len(width, height) <= raw@.len()),
            img matches Some(i) ==> i.spec_width() == width && i.spec_height() == height
                && i.spec_raw() == raw@,
    {
        ::image::RgbImage::from_raw(width, height, raw).map(
            |buf| {
                let (w, h) = buf.dimensions();
                RgbImage { width: w, height: h, raw: buf.into_raw() }
            },
        )
    }
}

/// What a decompressor needs besides the compressed bytes.
pub enum CompressionMetadata {
    Empty,
    /// The Huffman code table: the key `len * 2^32 + code` of each code word
    /// maps to the pixel (`r * 2^16 + g * 2^8 + b`) that it stands for.
    Huffman { freq_table: HashMap<u64, u32> },
}

/// The output of a compressor.
pub struct CompressedImage {
    pub data: Vec<u8>,
    pub width: u32,
    pub height: u32,
    pub metadata: CompressionMetadata,
}

/// Pixel index into a flat row-major buffer.
pub fn pixel_index(x: u32, y: u32, width: u32) -> (i: usize)
    requires
        y * width + x <= u32::MAX,
    ensures
        i == y * width + x,
{
    (y * width + x) as usize
}

/// Byte index into a flat RGB buffer (3 bytes per pixel).
pub fn rgb_index(x: u32, y: u32, width: u32) -> (i: usize)
    requires
        y * width + x <= u32::MAX,
        3 * (y * width + x) <= usize::MAX,
    ensures
        i == 3 * (y * width + x),
{
    pixel_index(x, y, width) * 3
}

} // verus!
