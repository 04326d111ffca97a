use image_compression::bits::{BitReader, BitWriter};
use image_compression::png::size_stats;
use image_compression::report::{
    group_by_category, infer_mode, no_images_message, plan_targets, progress_bar, run_spec,
    shows_progress, PROGRESS_WIDTH,
};
use image_compression::rlce::rlce_decodable;
use image_compression::runner::Mode;
use image_compression::{CompressedImage, CompressionMetadata, RgbImage, RunLengthChannelCompressor};

fn strings(v: &[&str]) -> Vec<String> {
    v.iter().map(|s| s.to_string()).collect()
}

#[test]
fn spec_defaults_to_all() {
    assert_eq!(run_spec(&Vec::new()), "all");
    assert_eq!(run_spec(&strings(&["RLE"])), "RLE");
    assert_eq!(run_spec(&strings(&["rle", "", "Huffman"])), "rle,,Huffman");
}

#[test]
fn mode_is_forced_or_inferred() {
    assert!(infer_mode(Some(Mode::Compare), 1, 1) == Mode::Compare);
    assert!(infer_mode(Some(Mode::Detail), 7, 3) == Mode::Detail);
    assert!(infer_mode(None, 1, 4) == Mode::Detail);
    assert!(infer_mode(None, 5, 1) == Mode::Average);
    assert!(infer_mode(None, 5, 2) == Mode::Compare);
    assert!(infer_mode(None, 0, 0) == Mode::Compare);
}

#[test]
fn progress_only_for_several_runs() {
    assert!(!shows_progress(0, 4));
    assert!(!shows_progress(3, 0));
    assert!(!shows_progress(1, 1));
    assert!(shows_progress(1, 2));
    assert!(shows_progress(2, 1));
    assert!(shows_progress(usize::MAX, usize::MAX));
}

#[test]
fn progress_bar_cells_and_percentage() {
    assert_eq!(PROGRESS_WIDTH, 30);
    assert_eq!(progress_bar(0, 0), (30, 100));
    assert_eq!(progress_bar(0, 8), (0, 0));
    assert_eq!(progress_bar(3, 8), (11, 37));
    assert_eq!(progress_bar(8, 8), (30, 100));
}

#[test]
fn grouping_keeps_first_seen_order() {
    let cats = strings(&["math", "cartoon", "math", "real-life", "cartoon", "math"]);
    let groups = group_by_category(&cats);
    assert_eq!(
        groups,
        vec![
            ("math".to_string(), vec![0, 2, 5]),
            ("cartoon".to_string(), vec![1, 4]),
            ("real-life".to_string(), vec![3]),
        ]
    );
    assert!(group_by_category(&Vec::new()).is_empty());
}

#[test]
fn written_bits_read_back_with_zero_padding() {
    let mut w = BitWriter::new();
    w.write_code(0b11, 2);
    w.write_code(0b1, 1);
    let mut r = BitReader::new(w.finish());
    let mut bits = Vec::new();
    while let Some(b) = r.read_bit() {
        bits.push(b);
    }
    assert_eq!(bits, vec![true, true, true, false, false, false, false, false]);
}

#[test]
fn rlce_decodable_checks_every_channel() {
    // Two pixels: each channel one run of 2.
    assert!(rlce_decodable(&vec![2, 10, 2, 20, 2, 30], 2));
    // The blue channel is missing.
    assert!(!rlce_decodable(&vec![2, 10, 2, 20], 2));
    // A run longer than the image.
    assert!(!rlce_decodable(&vec![3, 10, 2, 20, 2, 30], 2));
    // Runs of zero are skipped.
    assert!(rlce_decodable(&vec![0, 99, 2, 10, 1, 20, 1, 21, 2, 30], 2));
    assert!(rlce_decodable(&Vec::new(), 0));
    let c = CompressedImage {
        data: vec![0, 99, 2, 10, 1, 20, 1, 21, 2, 30],
        width: 2,
        height: 1,
        metadata: CompressionMetadata::Empty,
    };
    let img: RgbImage = RunLengthChannelCompressor::new().decompress(&c).unwrap();
    assert_eq!(img.into_raw(), vec![10, 20, 30, 10, 21, 30]);
}

#[test]
fn progress_bar_past_the_total() {
    // The original only fails once the bar would overflow its width.
    assert_eq!(progress_bar(41, 40), (30, 102));
}

#[test]
fn targets_fall_back_to_the_image_library() {
    assert_eq!(plan_targets(&strings(&["a", "b"]), false), Ok(strings(&["a", "b"])));
    assert_eq!(plan_targets(&Vec::new(), true), Ok(strings(&["images"])));
    assert_eq!(
        plan_targets(&Vec::new(), false),
        Err("No image path given and default 'images' does not exist".to_string())
    );
    assert_eq!(no_images_message(&strings(&["a", "b/c"])), "No images found in a, b/c");
    assert_eq!(no_images_message(&strings(&["x"])), "No images found in x");
}

#[test]
fn sizes_of_a_run() {
    let img = RgbImage::from_raw(2, 1, vec![1, 2, 3, 4, 5, 6]).unwrap();
    let c = CompressedImage { data: vec![9, 9], width: 2, height: 1, metadata: CompressionMetadata::Empty };
    let same = RgbImage::from_raw(2, 1, vec![1, 2, 3, 4, 5, 6]).unwrap();
    let other = RgbImage::from_raw(2, 1, vec![1, 2, 3, 4, 5, 7]).unwrap();
    let s = size_stats(&img, &c, &same);
    assert_eq!((s.raw_size, s.compressed_size, s.lossless), (6, 2, true));
    assert!(s.png_size.unwrap() > 0);
    assert!(!size_stats(&img, &c, &other).lossless);
}

#[test]
fn reads_after_a_write() {
    let mut w = BitWriter::new();
    w.write_code(0b101, 3);
    let mut r = BitReader::new(w.finish());
    let reads = r.read_bits(10);
    let expected = vec![
        Some(true), Some(false), Some(true), Some(false), Some(false), Some(false), Some(false),
        Some(false), None, None,
    ];
    assert_eq!(reads, expected);
}
