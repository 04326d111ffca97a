//! Lossless image compressors (run-length, per-channel run-length, Huffman)
//! with their pixel buffers, bit streams and the helpers of the benchmark
//! runner, specified and verified with Verus.

pub mod image;
pub use crate::image::{CompressedImage, CompressionMetadata, RgbImage, pixel_index, rgb_index};

pub mod rle;
pub use crate::rle::RunLengthCompressor;
pub mod bits;
pub use crate::bits::{BitReader, BitWriter};
pub mod huffman;
pub mod rlce;
pub use crate::rlce::RunLengthChannelCompressor;
pub mod png;
pub mod template;
pub use crate::huffman::HuffmanCompressor;
pub use crate::png::PngCompressor;
pub use crate::template::MyCompressor;
pub mod library;
pub use crate::library::{DirEntryInfo, LibraryConfig, LibraryListing, load_image_library};
pub mod text;
pub mod runner;
pub mod pattern;
pub mod report;
pub mod merging;
pub mod sizes;
pub mod args_order;
