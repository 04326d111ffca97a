//! The starting point for a new compressor.
use crate::image::{CompressedImage, CompressionMetadata, RgbImage, fits_usize, rgb_len};
use vstd::prelude::*;

verus! {

/// The starting point for a new compressor: stores the raw buffer as it is.
pub struct MyCompressor {}

impl MyCompressor {
    pub fn new() -> Self {
        MyCompressor {  }
    }

    /// Copies the raw buffer.
    pub fn compress(&self, image: &RgbImage) -> (res: Result<CompressedImage, String>)
        ensures
            res matches Ok(c) && c.data@ == image.spec_raw() && c.width == image.spec_width()
                && c.height == image.spec_height() && c.metadata is Empty,
    {
        let width = image.width();
        let height = image.height();
        let data = image.as_raw().clone();
        Ok(CompressedImage { data, width, height, metadata: CompressionMetadata::Empty })
    }

    /// Wraps a copy of the data into an image of the recorded dimensions,
    /// which fails when the data are too short for them.
    pub fn decompress(&self, compressed: &CompressedImage) -> (res: Result<RgbImage, String>)
        ensures
            (fits_usize(compressed.width, compressed.height) && rgb_len(
                compressed.width,
                compressed.height,
            ) <= compressed.data@.len()) ==> (res matches Ok(img) && img.spec_raw()
                == compressed.data@ && img.spec_width() == compressed.width
                && img.spec_height() == compressed.height),
            !(fits_usize(compressed.width, compressed.height) && rgb_len(
                compressed.width,
                compressed.height,
            ) <= compressed.data@.len()) ==> (res matches Err(e) && e@
                == "Buffer too small for image dimensions"@),
    {
        let raw = compressed.data.clone();
        match RgbImage::from_raw(compressed.width, compressed.height, raw) {
            Some(img) => Ok(img),
            None => Err("Buffer too small for image dimensions".to_string()),
        }
    }
}

} // verus!
