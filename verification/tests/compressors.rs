use image_compression::huffman::{build_huffman_tree, decode_pixel_stream, explore_node, get_color_frequencies, HuffmanNode};
use image_compression::{
    pixel_index, rgb_index, CompressedImage, CompressionMetadata, HuffmanCompressor, MyCompressor,
    PngCompressor, RgbImage, RunLengthChannelCompressor, RunLengthCompressor,
};
use image_compression::bits::{BitReader, BitWriter};
use std::collections::HashMap;

fn image(width: u32, height: u32, raw: Vec<u8>) -> RgbImage {
    RgbImage::from_raw(width, height, raw).expect("buffer fits")
}

fn solid(width: u32, height: u32, p: [u8; 3]) -> RgbImage {
    let mut raw = Vec::new();
    for _ in 0..(width * height) {
        raw.extend_from_slice(&p);
    }
    image(width, height, raw)
}

fn gradient(width: u32, height: u32) -> RgbImage {
    let mut raw = Vec::new();
    for y in 0..height {
        for x in 0..width {
            raw.push((x * 7 % 256) as u8);
            raw.push((y * 3 % 256) as u8);
            raw.push(((x + y) % 5) as u8);
        }
    }
    image(width, height, raw)
}

#[test]
fn pixel_and_rgb_index() {
    assert_eq!(pixel_index(2, 3, 10), 32);
    assert_eq!(rgb_index(2, 3, 10), 96);
    assert_eq!(pixel_index(0, 0, 5), 0);
}

#[test]
fn from_raw_checks_the_buffer_length() {
    assert!(RgbImage::from_raw(2, 2, vec![0; 11]).is_none());
    let img = RgbImage::from_raw(2, 2, vec![1; 13]).unwrap();
    assert_eq!(img.width(), 2);
    assert_eq!(img.height(), 2);
    assert_eq!(img.as_raw().len(), 13);
    assert!(RgbImage::from_raw(0, 5, vec![]).is_some());
}

#[test]
fn rle_encodes_runs_of_pixels() {
    let img = image(3, 1, vec![1, 2, 3, 1, 2, 3, 4, 5, 6]);
    let c = RunLengthCompressor::new().compress(&img).unwrap();
    assert_eq!(c.data, vec![2, 1, 2, 3, 1, 4, 5, 6]);
    assert_eq!((c.width, c.height), (3, 1));
    assert!(matches!(c.metadata, CompressionMetadata::Empty));
}

#[test]
fn rle_splits_runs_longer_than_255() {
    let img = solid(300, 1, [7, 8, 9]);
    let c = RunLengthCompressor::new().compress(&img).unwrap();
    assert_eq!(c.data, vec![255, 7, 8, 9, 45, 7, 8, 9]);
}

#[test]
fn rle_roundtrip() {
    for img in [gradient(17, 9), solid(40, 30, [1, 2, 3]), image(0, 0, vec![])] {
        let c = RunLengthCompressor::new().compress(&img).unwrap();
        assert_eq!(c.data.len() % 4, 0);
        let d = RunLengthCompressor::new().decompress(&c).unwrap();
        assert_eq!(d.as_raw(), img.as_raw());
        assert_eq!((d.width(), d.height()), (img.width(), img.height()));
    }
}

#[test]
fn rle_decompress_too_short() {
    let c = CompressedImage { data: vec![1, 9, 9, 9], width: 2, height: 1, metadata: CompressionMetadata::Empty };
    match RunLengthCompressor::new().decompress(&c) {
        Err(e) => assert_eq!(e, "Buffer too small for image dimensions"),
        Ok(_) => panic!("expected an error"),
    }
}

#[test]
fn rlce_encodes_each_channel() {
    let img = image(3, 1, vec![1, 2, 3, 1, 2, 3, 4, 5, 6]);
    let c = RunLengthChannelCompressor::new().compress(&img).unwrap();
    assert_eq!(c.data, vec![2, 1, 1, 4, 2, 2, 1, 5, 2, 3, 1, 6]);
}

#[test]
fn rlce_is_worse_than_rle_on_a_solid_image() {
    let img = solid(10, 10, [100, 149, 237]);
    let rle = RunLengthCompressor::new().compress(&img).unwrap();
    let rlce = RunLengthChannelCompressor::new().compress(&img).unwrap();
    assert_eq!(rle.data.len(), 4);
    assert_eq!(rlce.data, vec![100, 100, 100, 149, 100, 237]);
}

#[test]
fn rlce_roundtrip() {
    for img in [gradient(23, 11), solid(300, 2, [9, 9, 9]), image(0, 3, vec![])] {
        let c = RunLengthChannelCompressor::new().compress(&img).unwrap();
        let d = RunLengthChannelCompressor::new().decompress(&c).unwrap();
        assert_eq!(d.as_raw(), img.as_raw());
    }
}

#[test]
fn huffman_two_colours() {
    let a = [10u8, 20, 30];
    let b = [1u8, 2, 3];
    let raw: Vec<u8> = [a, a, a, b].concat();
    let img = image(4, 1, raw.clone());
    let c = HuffmanCompressor::new().compress(&img).unwrap();
    // b (the lighter) gets code 0, a gets code 1: bits 1110, padded.
    assert_eq!(c.data, vec![0xE0]);
    match &c.metadata {
        CompressionMetadata::Huffman { freq_table } => {
            assert_eq!(freq_table.len(), 2);
            assert_eq!(freq_table.get(&(1u64 << 32)), Some(&0x010203));
            assert_eq!(freq_table.get(&((1u64 << 32) + 1)), Some(&0x0A141E));
        }
        CompressionMetadata::Empty => panic!("expected a Huffman table"),
    }
    let d = HuffmanCompressor::new().decompress(&c).unwrap();
    assert_eq!(d.as_raw(), &raw);
}

#[test]
fn huffman_single_colour_needs_no_bits() {
    let img = solid(5, 4, [200, 100, 50]);
    let c = HuffmanCompressor::new().compress(&img).unwrap();
    assert!(c.data.is_empty());
    let d = HuffmanCompressor::new().decompress(&c).unwrap();
    assert_eq!(d.as_raw(), img.as_raw());
}

#[test]
fn huffman_empty_image() {
    let img = image(0, 0, vec![]);
    let c = HuffmanCompressor::new().compress(&img).unwrap();
    assert!(c.data.is_empty());
    let d = HuffmanCompressor::new().decompress(&c).unwrap();
    assert!(d.as_raw().is_empty());
}

#[test]
fn huffman_roundtrip() {
    for img in [gradient(31, 17), gradient(64, 64), solid(3, 3, [0, 0, 0])] {
        let c = HuffmanCompressor::new().compress(&img).unwrap();
        let d = HuffmanCompressor::new().decompress(&c).unwrap();
        assert_eq!(d.as_raw(), img.as_raw());
        assert_eq!((d.width(), d.height()), (img.width(), img.height()));
    }
}

#[test]
fn huffman_shorter_codes_for_frequent_pixels() {
    // 90% white, 10% blue: one bit per pixel.
    let mut raw = Vec::new();
    for i in 0..100 {
        if i % 10 == 0 { raw.extend_from_slice(&[30, 30, 200]) } else { raw.extend_from_slice(&[245, 245, 245]) }
    }
    let img = image(10, 10, raw);
    let c = HuffmanCompressor::new().compress(&img).unwrap();
    assert_eq!(c.data.len(), 13);
}

#[test]
fn color_frequencies_count_pixels() {
    let img = image(4, 1, vec![1, 1, 1, 2, 2, 2, 1, 1, 1, 3, 3, 3]);
    let (freq, keys) = get_color_frequencies(&img);
    assert_eq!(keys, vec![0x010101, 0x020202, 0x030303]);
    assert_eq!(freq.get(&0x010101), Some(&2));
    assert_eq!(freq.get(&0x020202), Some(&1));
    assert_eq!(freq.get(&0x030303), Some(&1));
}

#[test]
fn tree_merges_lightest_first() {
    assert!(build_huffman_tree(vec![]).is_none());
    let leaves = vec![
        HuffmanNode::Leaf { value: 1, freq: 5 },
        HuffmanNode::Leaf { value: 2, freq: 1 },
        HuffmanNode::Leaf { value: 3, freq: 2 },
    ];
    let root = build_huffman_tree(leaves).unwrap();
    assert_eq!(root.freq(), 8);
    let mut codes = HashMap::new();
    explore_node(&root, 0, 0, &mut codes);
    // (2 + 3) merged first, then with 1 on the right.
    assert_eq!(codes.get(&2), Some(&(0b00, 2)));
    assert_eq!(codes.get(&3), Some(&(0b01, 2)));
    assert_eq!(codes.get(&1), Some(&(0b1, 1)));
}

#[test]
fn explore_node_shifts_codes() {
    let node = HuffmanNode::Internal {
        left: Box::new(HuffmanNode::Leaf { value: 7, freq: 1 }),
        right: Box::new(HuffmanNode::Leaf { value: 8, freq: 1 }),
        freq: 2,
    };
    let mut codes = HashMap::new();
    explore_node(&node, 0b11, 2, &mut codes);
    assert_eq!(codes.get(&7), Some(&(0b110, 3)));
    assert_eq!(codes.get(&8), Some(&(0b111, 3)));
}

#[test]
fn decode_stream_stops_when_bits_run_out() {
    let mut table = HashMap::new();
    table.insert((2u64 << 32) | 0b11, 5u32);
    assert!(decode_pixel_stream(&vec![0xC0], &table, 1).is_some());
    assert!(decode_pixel_stream(&vec![], &table, 1).is_none());
    assert!(decode_pixel_stream(&vec![0x00], &table, 1).is_none());
    assert_eq!(decode_pixel_stream(&vec![0xF0], &table, 2), Some(vec![0, 0, 5, 0, 0, 5]));
}

#[test]
fn bit_writer_and_reader() {
    let mut w = BitWriter::new();
    w.write_code(0b101, 3);
    w.write_code(0b1, 1);
    w.write_code(0xFF, 8);
    let bytes = w.finish();
    assert_eq!(bytes, vec![0xBF, 0xF0]);
    let mut r = BitReader::new(bytes);
    let mut bits = Vec::new();
    while let Some(b) = r.read_bit() {
        bits.push(b);
    }
    let expected = [1, 0, 1, 1, 1, 1, 1, 1, 1, 1, 1, 1, 0, 0, 0, 0];
    assert_eq!(bits, expected.iter().map(|&b| b == 1).collect::<Vec<_>>());
    assert_eq!(r.read_bit(), None);
}

#[test]
fn bit_writer_long_code() {
    let mut w = BitWriter::new();
    w.write_code(1, 40);
    let bytes = w.finish();
    assert_eq!(bytes, vec![0, 0, 0, 0, 1]);
}

#[test]
fn bit_reader_reads_more_than_eight_bytes() {
    let data: Vec<u8> = (0..20).collect();
    let mut r = BitReader::new(data.clone());
    let mut out = Vec::new();
    for _ in 0..20 {
        let mut byte = 0u8;
        for _ in 0..8 {
            byte = (byte << 1) | r.read_bit().unwrap() as u8;
        }
        out.push(byte);
    }
    assert_eq!(out, data);
    assert_eq!(r.read_bit(), None);
}

#[test]
fn png_roundtrip() {
    let img = gradient(12, 7);
    let c = PngCompressor.compress(&img).unwrap();
    assert_eq!(&c.data[..8], &[137, 80, 78, 71, 13, 10, 26, 10]);
    let d = PngCompressor.decompress(&c).unwrap();
    assert_eq!(d.as_raw(), img.as_raw());
    assert_eq!((d.width(), d.height()), (12, 7));
}

#[test]
fn png_encodes_only_the_image_bytes() {
    let mut raw = gradient(4, 4).into_raw();
    raw.extend_from_slice(&[1, 2, 3, 4, 5]);
    let img = image(4, 4, raw);
    let c = PngCompressor.compress(&img).unwrap();
    let d = PngCompressor.decompress(&c).unwrap();
    assert_eq!(d.as_raw().len(), 48);
}

#[test]
fn png_decompress_rejects_garbage() {
    let c = CompressedImage { data: vec![1, 2, 3], width: 1, height: 1, metadata: CompressionMetadata::Empty };
    assert!(PngCompressor.decompress(&c).is_err());
}

#[test]
fn template_copies_the_buffer() {
    let img = gradient(5, 5);
    let c = MyCompressor::new().compress(&img).unwrap();
    assert_eq!(&c.data, img.as_raw());
    let d = MyCompressor::new().decompress(&c).unwrap();
    assert_eq!(d.as_raw(), img.as_raw());
    let short = CompressedImage { data: vec![0; 5], width: 2, height: 1, metadata: CompressionMetadata::Empty };
    match MyCompressor::new().decompress(&short) {
        Err(e) => assert_eq!(e, "Buffer too small for image dimensions"),
        Ok(_) => panic!("expected an error"),
    }
}

#[test]
fn tree_ties_go_to_the_older_tree() {
    // Four leaves of weight 1: (1, 2) is merged first, then (3, 4), then the two pairs.
    let leaves = vec![
        HuffmanNode::Leaf { value: 1, freq: 1 },
        HuffmanNode::Leaf { value: 2, freq: 1 },
        HuffmanNode::Leaf { value: 3, freq: 1 },
        HuffmanNode::Leaf { value: 4, freq: 1 },
    ];
    let root = build_huffman_tree(leaves).unwrap();
    let mut codes = HashMap::new();
    explore_node(&root, 0, 0, &mut codes);
    assert_eq!(codes.get(&1), Some(&(0b00, 2)));
    assert_eq!(codes.get(&2), Some(&(0b01, 2)));
    assert_eq!(codes.get(&3), Some(&(0b10, 2)));
    assert_eq!(codes.get(&4), Some(&(0b11, 2)));
}

#[test]
fn code_lengths_follow_pixel_counts() {
    // Counts 8, 4, 2, 1, 1: code lengths 1, 2, 3, 4, 4.
    let colours: [[u8; 3]; 5] = [[1, 1, 1], [2, 2, 2], [3, 3, 3], [4, 4, 4], [5, 5, 5]];
    let counts = [8, 4, 2, 1, 1];
    let mut raw = Vec::new();
    for (c, n) in colours.iter().zip(counts) {
        for _ in 0..n {
            raw.extend_from_slice(c);
        }
    }
    let img = image(16, 1, raw.clone());
    let c = HuffmanCompressor::new().compress(&img).unwrap();
    let table = match &c.metadata {
        CompressionMetadata::Huffman { freq_table } => freq_table.clone(),
        CompressionMetadata::Empty => panic!("expected a Huffman table"),
    };
    let length_of = |pixel: u32| table.iter().find(|(_, p)| **p == pixel).map(|(k, _)| k >> 32).unwrap();
    assert_eq!(length_of(0x010101), 1);
    assert_eq!(length_of(0x020202), 2);
    assert_eq!(length_of(0x030303), 3);
    assert_eq!(length_of(0x040404), 4);
    assert_eq!(length_of(0x050505), 4);
    let d = HuffmanCompressor::new().decompress(&c).unwrap();
    assert_eq!(d.as_raw(), &raw);
}

#[test]
fn solid_image_sizes_per_piece_of_255_pixels() {
    let img = solid(600, 1, [100, 149, 237]);
    let rle = RunLengthCompressor::new().compress(&img).unwrap();
    let rlce = RunLengthChannelCompressor::new().compress(&img).unwrap();
    assert_eq!(rle.data.len(), 12);
    assert_eq!(rlce.data.len(), 18);
    assert_eq!(rle.data, vec![255, 100, 149, 237, 255, 100, 149, 237, 90, 100, 149, 237]);
}

#[test]
fn huffman_exact_output() {
    let raw = vec![9, 9, 9, 9, 9, 9, 9, 9, 9, 9, 9, 9, 5, 5, 5, 5, 5, 5, 1, 1, 1];
    let img = image(7, 1, raw.clone());
    let c = HuffmanCompressor::new().compress(&img).unwrap();
    assert_eq!((c.width, c.height), (7, 1));
    assert_eq!(c.data, vec![245, 0]);
    match &c.metadata {
        CompressionMetadata::Huffman { freq_table } => {
            let mut expected = HashMap::new();
            expected.insert((1u64 << 32) | 1, 0x090909u32);
            expected.insert((2u64 << 32) | 1, 0x050505u32);
            expected.insert(2u64 << 32, 0x010101u32);
            assert_eq!(freq_table, &expected);
        }
        CompressionMetadata::Empty => panic!("expected a Huffman table"),
    }
    let d = HuffmanCompressor::new().decompress(&c).unwrap();
    assert_eq!(d.as_raw(), &raw);
}

#[test]
fn huffman_tables_of_empty_and_lone_colour_images() {
    let c = HuffmanCompressor::new().compress(&image(0, 3, vec![])).unwrap();
    match &c.metadata {
        CompressionMetadata::Huffman { freq_table } => assert!(freq_table.is_empty()),
        CompressionMetadata::Empty => panic!("expected a Huffman table"),
    }
    let c = HuffmanCompressor::new().compress(&solid(2, 2, [7, 8, 9])).unwrap();
    assert!(c.data.is_empty());
    match &c.metadata {
        CompressionMetadata::Huffman { freq_table } => {
            assert_eq!(freq_table.len(), 1);
            assert_eq!(freq_table.get(&0), Some(&0x070809));
        }
        CompressionMetadata::Empty => panic!("expected a Huffman table"),
    }
}
