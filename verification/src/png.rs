//! The PNG baseline codec, through the `image` crate.
use crate::image::{CompressedImage, CompressionMetadata, RgbImage, rgb_len};
use std::io::Cursor;
use vstd::prelude::*;

verus! {

/// What the `image` crate's PNG encoder writes for an RGB image of the given
/// dimensions and pixel bytes, or the text of its error.
pub uninterp spec fn png_encoding(width: u32, height: u32, pixels: Seq<u8>) -> Result<Seq<u8>, Seq<char>>;

/// What `image::load_from_memory` followed by `into_rgb8` reads from a byte
/// buffer (dimensions and pixel bytes), or the text of its error.
pub uninterp spec fn image_decoding(data: Seq<u8>) -> Result<(u32, u32, Seq<u8>), Seq<char>>;

/// Encodes the pixel bytes of an RGB image as PNG through
/// `image::write_buffer_with_format` into an in-memory buffer. The result is
/// named by `png_encoding`; the encoder's panic on a buffer of the wrong
/// length is excluded by the precondition.
#[verifier::external_body]
fn encode_png(width: u32, height: u32, pixels: &[u8]) -> (res: Result<Vec<u8>, String>)
    requires
        pixels@.len() == rgb_len(width, height),
    ensures
        match res {
            Ok(bytes) => png_encoding(width, height, pixels@) == Ok::<Seq<u8>, Seq<char>>(bytes@),
            Err(e) => png_encoding(width, height, pixels@) == Err::<Seq<u8>, Seq<char>>(e@),
        },
{
    let mut buf = Vec::new();
    ::image::write_buffer_with_format(
        &mut Cursor::new(&mut buf),
        pixels,
        width,
        height,
        ::image::ExtendedColorType::Rgb8,
        ::image::ImageFormat::Png,
    ).map_err(|e| e.to_string())?;
    Ok(buf)
}

/// Decodes an image in any format the `image` crate recognises through
/// `image::load_from_memory`, converted to RGB with `into_rgb8`. The result
/// is named by `image_decoding`; the converted buffer holds exactly
/// `3 * width * height` bytes, as `into_rgb8` allocates it.
#[verifier::external_body]
fn decode_image(data: &[u8]) -> (res: Result<RgbImage, String>)
    ensures
        match res {
            Ok(img) => image_decoding(data@) == Ok::<(u32, u32, Seq<u8>), Seq<char>>(
                (img.spec_width(), img.spec_height(), img.spec_raw()),
            ),
            Err(e) => image_decoding(data@) == Err::<(u32, u32, Seq<u8>), Seq<char>>(e@),
        },
{
    let img = ::image::load_from_memory(data).map_err(|e| e.to_string())?.into_rgb8();
    let (width, height) = img.dimensions();
    Ok(RgbImage { width, height, raw: img.into_raw() })
}

/// Baseline reference codec: the `image` crate's PNG encoder.
pub struct PngCompressor;

impl PngCompressor {
    /// PNG-encodes the image's `3 * width * height` pixel bytes.
    pub fn compress(&self, image: &RgbImage) -> (res: Result<CompressedImage, String>)
        ensures
            match png_encoding(
                image.spec_width(),
                image.spec_height(),
                image.spec_raw().take(rgb_len(image.spec_width(), image.spec_height())),
            ) {
                Ok(bytes) => res matches Ok(c) && c.data@ == bytes && c.width == image.spec_width()
                    && c.height == image.spec_height() && c.metadata is Empty,
                Err(msg) => res matches Err(e) && e@ == msg,
            },
    {
        let width = image.width();
        let height = image.height();
        let raw = image.as_raw();
        proof {
            assert(width * height <= 3 * width * height) by (nonlinear_arith);
            assert(width * height * 3 == 3 * width * height) by (nonlinear_arith);
        }
        let n = (width as usize) * (height as usize) * 3;
        let pixels = vstd::slice::slice_subrange(raw.as_slice(), 0, n);
        proof {
            assert(pixels@ =~= image.spec_raw().take(rgb_len(width, height)));
        }
        let data = encode_png(width, height, pixels)?;
        Ok(CompressedImage { data, width, height, metadata: CompressionMetadata::Empty })
    }

    /// Decodes the data as an image file and converts it to RGB.
    pub fn decompress(&self, compressed: &CompressedImage) -> (res: Result<RgbImage, String>)
        ensures
            match image_decoding(compressed.data@) {
                Ok((w, h, raw)) => res matches Ok(img) && img.spec_width() == w && img.spec_height()
                    == h && img.spec_raw() == raw,
                Err(msg) => res matches Err(e) && e@ == msg,
            },
    {
        decode_image(compressed.data.as_slice())
    }
}

/// The sizes that a benchmark run reports of one compression, and whether
/// it was lossless.
pub struct SizeStats {
    pub raw_size: usize,
    pub compressed_size: usize,
    /// The size of the image as PNG, where the encoder succeeds.
    pub png_size: Option<usize>,
    pub lossless: bool,
}

fn same_bytes(a: &Vec<u8>, b: &Vec<u8>) -> (r: bool)
    ensures
        r == (a@ == b@),
{
    if a.len() != b.len() {
        return false;
    }
    let mut i: usize = 0;
    while i < a.len()
        invariant
            i <= a@.len(),
            a@.len() == b@.len(),
            forall|j: int| 0 <= j < i ==> a@[j] == b@[j],
        decreases a@.len() - i,
    {
        if a[i] != b[i] {
            return false;
        }
        i += 1;
    }
    proof {
        assert(a@ =~= b@);
    }
    true
}

/// The raw size of the image, the size of its compressed data, the size of
/// its PNG encoding, and whether the decompressed buffer equals the
/// original one.
pub fn size_stats(image: &RgbImage, compressed: &CompressedImage, decompressed: &RgbImage) -> (s: SizeStats)
    ensures
        s.raw_size == image.spec_raw().len(),
        s.compressed_size == compressed.data@.len(),
        s.png_size == match png_encoding(
            image.spec_width(),
            image.spec_height(),
            image.spec_raw().take(rgb_len(image.spec_width(), image.spec_height())),
        ) {
            Ok(bytes) => Some(bytes.len() as usize),
            Err(_) => None::<usize>,
        },
        s.lossless == (image.spec_raw() == decompressed.spec_raw()),
{
    let png_size = match PngCompressor.compress(image) {
        Ok(c) => Some(c.data.len()),
        Err(_) => None,
    };
    SizeStats {
        raw_size: image.as_raw().len(),
        compressed_size: compressed.data.len(),
        png_size,
        lossless: same_bytes(image.as_raw(), decompressed.as_raw()),
    }
}

} // verus!
