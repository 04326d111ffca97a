//! The deterministic pixel hash of the test-image generator.
use vstd::prelude::*;
use vstd::arithmetic::div_mod::{lemma_add_mod_noop, lemma_mod_bound};

verus! {

/// The deterministic pixel hash of the test-image generator:
/// `v = (2654435761 x + 2246822519 y + seed) mod 2^32`, then
/// `v ^= v >> 16; v = 0x45d9f3b v mod 2^32; v ^= v >> 16`.
pub open spec fn spec_hash(x: u32, y: u32, seed: u32) -> u32 {
    let v0 = ((x * 2654435761 + y * 2246822519 + seed) % 0x1_0000_0000) as u32;
    let v1 = v0 ^ (v0 >> 16u32);
    let v2 = ((v1 * 0x45d9f3b) % 0x1_0000_0000) as u32;
    v2 ^ (v2 >> 16u32)
}

/// Deterministic pixel hash, so that the generated noise images are the
/// same on every run.
pub fn hash(x: u32, y: u32, seed: u32) -> (h: u32)
    ensures
        h == spec_hash(x, y, seed),
{
    let a = x.wrapping_mul(2654435761);
    let b = y.wrapping_mul(2246822519);
    let mut v = a.wrapping_add(b).wrapping_add(seed);
    proof {
        let m: int = 0x1_0000_0000;
        let xa: int = x * 2654435761;
        let yb: int = y * 2246822519;
        assert(a as int == xa % m);
        assert(b as int == yb % m);
        lemma_add_mod_noop(xa, yb, m);
        lemma_mod_bound(xa + yb, m);
        let ab = (a as int + b as int) % m;
        assert(ab == (xa + yb) % m);
        lemma_add_mod_noop(xa + yb, seed as int, m);
        assert((ab + seed as int) % m == (xa + yb + seed as int) % m) by {
            vstd::arithmetic::div_mod::lemma_small_mod(seed as nat, m as nat);
        }
    }
    v ^= v >> 16;
    v = v.wrapping_mul(0x45d9f3b);
    v ^= v >> 16;
    v
}

/// The low three bytes of `v`, lowest first.
pub open spec fn low_bytes(v: u32) -> (u8, u8, u8) {
    ((v & 0xFF) as u8, ((v >> 8u32) & 0xFF) as u8, ((v >> 16u32) & 0xFF) as u8)
}

fn low_bytes_of(v: u32) -> (rgb: (u8, u8, u8))
    ensures
        rgb == low_bytes(v),
{
    ((v & 0xFF) as u8, ((v >> 8) & 0xFF) as u8, ((v >> 16) & 0xFF) as u8)
}

/// The test images of `images/math` whose colours are integer formulas of
/// the pixel position; the others are drawn from floating-point geometry.
pub open spec fn is_integer_pattern(index: u32) -> bool {
    index < 25 && index != 4 && index != 14 && index != 15 && index != 16
}

/// Colour of pixel `(x, y)` of test image `index + 1` of `images/math`, a
/// 512 by 512 image; each image shows a strength or a weakness of one
/// compressor.
pub open spec fn spec_math_pattern(index: u32, x: u32, y: u32) -> (u8, u8, u8) {
    let white = (245u8, 245u8, 245u8);
    if index == 0 {
        // One run for the whole image.
        white
    } else if index == 1 {
        // One solid colour per band of 64 rows.
        let b = y / 64;
        if b == 0 { (220, 60, 60) } else if b == 1 { (220, 140, 60) } else if b == 2 { (200, 200, 60) }
        else if b == 3 { (60, 180, 60) } else if b == 4 { (60, 160, 220) } else if b == 5 { (100, 60, 200) }
        else if b == 6 { (200, 60, 180) } else { (120, 120, 120) }
    } else if index == 2 {
        // Horizontal steps of 32 pixels.
        let s = x / 32;
        ((s * 16) as u8, 80, (220 - s * 8) as u8)
    } else if index == 3 {
        // Checkerboard of 64-pixel squares.
        if (x / 64 + y / 64) % 2 == 0 { (240, 240, 240) } else { (30, 30, 30) }
    } else if index == 5 {
        // Checkerboard of single pixels.
        if (x + y) % 2 == 0 { (255, 255, 255) } else { (0, 0, 0) }
    } else if index == 6 {
        // Vertical stripes one pixel wide.
        if x % 2 == 0 { (240, 80, 80) } else { (80, 80, 240) }
    } else if index == 7 {
        // Diagonal gradient.
        let v = ((x + y) * 255 / 1024) as u8;
        (v, 100, (255 - v) as u8)
    } else if index == 8 {
        // Noise.
        low_bytes(spec_hash(x, y, 1))
    } else if index == 9 {
        // Red to magenta: only blue varies.
        (255, 0, (x * 255 / 512) as u8)
    } else if index == 10 {
        // Cyan to green: only blue varies.
        (0, 255, (255 - x * 255 / 512) as u8)
    } else if index == 11 {
        // Red follows x, green follows y, blue is constant.
        ((x * 255 / 512) as u8, (y * 255 / 512) as u8, 128)
    } else if index == 12 {
        // Grey vertical gradient.
        let v = (y * 255 / 512) as u8;
        (v, v, v)
    } else if index == 13 {
        // One solid colour.
        (100, 149, 237)
    } else if index == 17 {
        // Grid of hard-edged 32-pixel squares.
        if (x / 32) % 2 == (y / 32) % 2 { (0, 0, 0) } else { (255, 255, 255) }
    } else if index == 18 {
        // Noise in 4-pixel blocks.
        low_bytes(spec_hash(x / 4, y / 4, 7))
    } else if index == 19 {
        // Sparse dots on white.
        if spec_hash(x, y, 3) % 40 == 0 { (30, 30, 200) } else { white }
    } else if index == 20 {
        // Text-like lines of dark blocks on white.
        if y % 20 < 14 && spec_hash(x / 3, y / 14, 5) % 5 == 0 { (20, 20, 20) } else { white }
    } else if index == 21 {
        // Uniform noise.
        low_bytes(spec_hash(x, y, 9))
    } else if index == 22 {
        // Sierpinski triangle.
        if x & y != 0 { (40, 80, 180) } else { white }
    } else if index == 23 {
        // Diagonal stripes of four colours.
        let k = (x + y) / 64 % 4;
        if k == 0 { (220, 80, 80) } else if k == 1 { (80, 150, 220) } else if k == 2 { (80, 200, 100) }
        else { (240, 200, 80) }
    } else {
        // Random black and white 16-pixel blocks.
        if spec_hash(x / 16, y / 16, 11) % 2 == 0 { (0, 0, 0) } else { (255, 255, 255) }
    }
}

/// Colour of pixel `(x, y)` of the integer test image `index + 1`.
pub fn math_pattern(index: u32, x: u32, y: u32) -> (rgb: (u8, u8, u8))
    requires
        is_integer_pattern(index),
        x < 512,
        y < 512,
    ensures
        rgb == spec_math_pattern(index, x, y),
{
    let white = (245u8, 245u8, 245u8);
    if index == 0 {
        white
    } else if index == 1 {
        let b = y / 64;
        if b == 0 { (220, 60, 60) } else if b == 1 { (220, 140, 60) } else if b == 2 { (200, 200, 60) }
        else if b == 3 { (60, 180, 60) } else if b == 4 { (60, 160, 220) } else if b == 5 { (100, 60, 200) }
        else if b == 6 { (200, 60, 180) } else { (120, 120, 120) }
    } else if index == 2 {
        let s = x / 32;
        ((s * 16) as u8, 80, (220 - s * 8) as u8)
    } else if index == 3 {
        if (x / 64 + y / 64) % 2 == 0 { (240, 240, 240) } else { (30, 30, 30) }
    } else if index == 5 {
        if (x + y) % 2 == 0 { (255, 255, 255) } else { (0, 0, 0) }
    } else if index == 6 {
        if x % 2 == 0 { (240, 80, 80) } else { (80, 80, 240) }
    } else if index == 7 {
        let v = ((x + y) * 255 / 1024) as u8;
        (v, 100, (255 - v) as u8)
    } else if index == 8 {
        low_bytes_of(hash(x, y, 1))
    } else if index == 9 {
        (255, 0, (x * 255 / 512) as u8)
    } else if index == 10 {
        (0, 255, (255 - x * 255 / 512) as u8)
    } else if index == 11 {
        ((x * 255 / 512) as u8, (y * 255 / 512) as u8, 128)
    } else if index == 12 {
        let v = (y * 255 / 512) as u8;
        (v, v, v)
    } else if index == 13 {
        (100, 149, 237)
    } else if index == 17 {
        if (x / 32) % 2 == (y / 32) % 2 { (0, 0, 0) } else { (255, 255, 255) }
    } else if index == 18 {
        low_bytes_of(hash(x / 4, y / 4, 7))
    } else if index == 19 {
        if hash(x, y, 3) % 40 == 0 { (30, 30, 200) } else { white }
    } else if index == 20 {
        if y % 20 < 14 && hash(x / 3, y / 14, 5) % 5 == 0 { (20, 20, 20) } else { white }
    } else if index == 21 {
        low_bytes_of(hash(x, y, 9))
    } else if index == 22 {
        if x & y != 0 { (40, 80, 180) } else { white }
    } else if index == 23 {
        let k = (x + y) / 64 % 4;
        if k == 0 { (220, 80, 80) } else if k == 1 { (80, 150, 220) } else if k == 2 { (80, 200, 100) }
        else { (240, 200, 80) }
    } else {
        if hash(x / 16, y / 16, 11) % 2 == 0 { (0, 0, 0) } else { (255, 255, 255) }
    }
}

/// The solid images hold one colour: white, and cornflower blue.
pub proof fn lemma_solid_images(x: u32, y: u32)
    ensures
        spec_math_pattern(0, x, y) == (245u8, 245u8, 245u8),
        spec_math_pattern(13, x, y) == (100u8, 149u8, 237u8),
{
}

/// The band image: each row is one colour, rows in a band of 64 share it,
/// and neighbouring bands differ.
pub proof fn lemma_bands(x: u32, x2: u32, y: u32)
    requires
        y < 511,
    ensures
        spec_math_pattern(1, x, y) == spec_math_pattern(1, x2, y),
        y % 64 != 63 ==> spec_math_pattern(1, x, y) == spec_math_pattern(1, x, (y + 1) as u32),
        y % 64 == 63 ==> spec_math_pattern(1, x, y) != spec_math_pattern(1, x, (y + 1) as u32),
{
}

/// The stepped gradient: each column is one colour, steps are 32 pixels
/// wide, green stays 80, and each step adds 16 to red and takes 8 from
/// blue, from (0, 80, 220) on the left.
pub proof fn lemma_steps(x: u32, y: u32, y2: u32)
    requires
        x < 512,
    ensures
        spec_math_pattern(2, x, y) == spec_math_pattern(2, x, y2),
        spec_math_pattern(2, x, y).1 == 80,
        x % 32 != 31 ==> spec_math_pattern(2, x, y) == spec_math_pattern(2, (x + 1) as u32, y),
        x + 32 < 512 ==> spec_math_pattern(2, (x + 32) as u32, y).0 == spec_math_pattern(2, x, y).0 + 16
            && spec_math_pattern(2, (x + 32) as u32, y).2 + 8 == spec_math_pattern(2, x, y).2,
        spec_math_pattern(2, 0, y) == (0u8, 80u8, 220u8),
{
}

/// The two checkerboards: the 64-pixel one is constant on its squares and
/// changes colour from one square to the next, in both directions; in the
/// one-pixel one every two neighbouring pixels differ. Both are light or
/// dark, and light at the corner.
pub proof fn lemma_checkerboards(x: u32, y: u32)
    requires
        x < 511,
        y < 511,
    ensures
        spec_math_pattern(5, x, y) != spec_math_pattern(5, (x + 1) as u32, y),
        spec_math_pattern(5, x, y) != spec_math_pattern(5, x, (y + 1) as u32),
        spec_math_pattern(5, x, y) == (255u8, 255u8, 255u8) || spec_math_pattern(5, x, y) == (0u8, 0u8, 0u8),
        spec_math_pattern(5, 0, 0) == (255u8, 255u8, 255u8),
        x % 64 != 63 ==> spec_math_pattern(3, x, y) == spec_math_pattern(3, (x + 1) as u32, y),
        y % 64 != 63 ==> spec_math_pattern(3, x, y) == spec_math_pattern(3, x, (y + 1) as u32),
        x % 64 == 63 ==> spec_math_pattern(3, x, y) != spec_math_pattern(3, (x + 1) as u32, y),
        y % 64 == 63 ==> spec_math_pattern(3, x, y) != spec_math_pattern(3, x, (y + 1) as u32),
        spec_math_pattern(3, x, y) == (240u8, 240u8, 240u8) || spec_math_pattern(3, x, y) == (30u8, 30u8, 30u8),
        spec_math_pattern(3, 0, 0) == (240u8, 240u8, 240u8),
{
}

/// The vertical stripes: the colour depends on the column alone, changes
/// from each column to the next, and is red-ish or blue-ish, red-ish in the
/// first column.
pub proof fn lemma_vertical_stripes(x: u32, y: u32, y2: u32)
    requires
        x < 511,
    ensures
        spec_math_pattern(6, x, y) == spec_math_pattern(6, x, y2),
        spec_math_pattern(6, x, y) != spec_math_pattern(6, (x + 1) as u32, y),
        spec_math_pattern(6, x, y) == (240u8, 80u8, 80u8) || spec_math_pattern(6, x, y) == (80u8, 80u8, 240u8),
        spec_math_pattern(6, 0, y) == (240u8, 80u8, 80u8),
{
}

/// The 32-pixel grid: constant on its squares, changing colour from one
/// square to the next in both directions, black or white, black at the
/// corner.
pub proof fn lemma_grid(x: u32, y: u32)
    requires
        x < 511,
        y < 511,
    ensures
        x % 32 != 31 ==> spec_math_pattern(17, x, y) == spec_math_pattern(17, (x + 1) as u32, y),
        y % 32 != 31 ==> spec_math_pattern(17, x, y) == spec_math_pattern(17, x, (y + 1) as u32),
        x % 32 == 31 ==> spec_math_pattern(17, x, y) != spec_math_pattern(17, (x + 1) as u32, y),
        y % 32 == 31 ==> spec_math_pattern(17, x, y) != spec_math_pattern(17, x, (y + 1) as u32),
        spec_math_pattern(17, x, y) == (0u8, 0u8, 0u8) || spec_math_pattern(17, x, y) == (255u8, 255u8, 255u8),
        spec_math_pattern(17, 0, 0) == (0u8, 0u8, 0u8),
{
}

/// The diagonal gradient: the colour depends on `x + y` alone, green stays
/// 100, red and blue add up to 255, and red never falls as `x + y` grows,
/// from 0 at the top left corner to 254 at the bottom right one.
pub proof fn lemma_diagonal_gradient(x: u32, y: u32, x2: u32, y2: u32)
    requires
        x < 512,
        y < 512,
        x2 < 512,
        y2 < 512,
    ensures
        x + y == x2 + y2 ==> spec_math_pattern(7, x, y) == spec_math_pattern(7, x2, y2),
        spec_math_pattern(7, x, y).1 == 100,
        spec_math_pattern(7, x, y).0 + spec_math_pattern(7, x, y).2 == 255,
        x + y <= x2 + y2 ==> spec_math_pattern(7, x, y).0 <= spec_math_pattern(7, x2, y2).0,
        spec_math_pattern(7, 0, 0).0 == 0,
        spec_math_pattern(7, 511, 511).0 == 254,
{
    assert(((x + y) * 255) / 1024 <= 254) by (nonlinear_arith)
        requires
            x + y <= 1022,
    ;
    if x + y <= x2 + y2 {
        assert(((x + y) * 255) / 1024 <= ((x2 + y2) * 255) / 1024) by (nonlinear_arith)
            requires
                x + y <= x2 + y2,
        ;
    }
}

/// The channel gradients: in the red-to-magenta image red is 255, green 0
/// and blue depends on the column alone, never falling from 0 on the left
/// to 254 on the right; the cyan-to-green image has red 0, green 255 and the
/// blue of the first taken from 255; the two-channel image takes red from
/// the column as the first takes blue, green from the row as the grey
/// gradient does, and blue 128; the grey gradient has equal channels that
/// depend on the row alone and never fall.
pub proof fn lemma_channel_gradients(x: u32, y: u32, x2: u32, y2: u32)
    requires
        x < 512,
        y < 512,
        x2 < 512,
        y2 < 512,
    ensures
        spec_math_pattern(9, x, y).0 == 255 && spec_math_pattern(9, x, y).1 == 0,
        spec_math_pattern(9, x, y) == spec_math_pattern(9, x, y2),
        x <= x2 ==> spec_math_pattern(9, x, y).2 <= spec_math_pattern(9, x2, y).2,
        spec_math_pattern(9, 0, y).2 == 0 && spec_math_pattern(9, 511, y).2 == 254,
        spec_math_pattern(10, x, y).0 == 0 && spec_math_pattern(10, x, y).1 == 255,
        spec_math_pattern(10, x, y).2 + spec_math_pattern(9, x, y).2 == 255,
        spec_math_pattern(11, x, y).0 == spec_math_pattern(9, x, y2).2,
        spec_math_pattern(11, x, y).1 == spec_math_pattern(12, x2, y).0,
        spec_math_pattern(11, x, y).2 == 128,
        spec_math_pattern(12, x, y).0 == spec_math_pattern(12, x, y).1 && spec_math_pattern(12, x, y).1
            == spec_math_pattern(12, x, y).2,
        spec_math_pattern(12, x, y) == spec_math_pattern(12, x2, y),
        y <= y2 ==> spec_math_pattern(12, x, y).0 <= spec_math_pattern(12, x, y2).0,
{
    assert((x * 255) / 512 <= 254) by (nonlinear_arith)
        requires
            x < 512,
    ;
    assert((y * 255) / 512 <= 254) by (nonlinear_arith)
        requires
            y < 512,
    ;
    if x <= x2 {
        assert((x * 255) / 512 <= (x2 * 255) / 512) by (nonlinear_arith)
            requires
                x <= x2,
        ;
    }
    if y <= y2 {
        assert((y * 255) / 512 <= (y2 * 255) / 512) by (nonlinear_arith)
            requires
                y <= y2,
        ;
    }
}

/// The noise images take each pixel's colour from the low three bytes of
/// the pixel hash: of the position with seed 1 and with seed 9, and of the
/// 4-pixel block with seed 7, so that this one is constant on its blocks.
pub proof fn lemma_noise(x: u32, y: u32)
    ensures
        spec_math_pattern(8, x, y) == ((spec_hash(x, y, 1) % 256) as u8, ((spec_hash(x, y, 1) / 256) % 256) as u8,
            ((spec_hash(x, y, 1) / 65536) % 256) as u8),
        spec_math_pattern(21, x, y) == ((spec_hash(x, y, 9) % 256) as u8, ((spec_hash(x, y, 9) / 256) % 256) as u8,
            ((spec_hash(x, y, 9) / 65536) % 256) as u8),
        spec_math_pattern(18, x, y) == ((spec_hash(x / 4, y / 4, 7) % 256) as u8, ((spec_hash(x / 4, y / 4, 7) / 256)
            % 256) as u8, ((spec_hash(x / 4, y / 4, 7) / 65536) % 256) as u8),
        spec_math_pattern(18, x, y) == spec_math_pattern(18, (x / 4 * 4) as u32, (y / 4 * 4) as u32),
{
    lemma_low_bytes(spec_hash(x, y, 1));
    lemma_low_bytes(spec_hash(x, y, 9));
    lemma_low_bytes(spec_hash(x / 4, y / 4, 7));
    assert((x / 4 * 4) / 4 == x / 4);
    assert((y / 4 * 4) / 4 == y / 4);
}

proof fn lemma_low_bytes(v: u32)
    ensures
        low_bytes(v) == ((v % 256) as u8, ((v / 256) % 256) as u8, ((v / 65536) % 256) as u8),
{
    assert((v & 0xFF) == v % 256) by (bit_vector);
    assert(((v >> 8u32) & 0xFF) == (v / 256) % 256) by (bit_vector);
    assert(((v >> 16u32) & 0xFF) == (v / 65536) % 256) by (bit_vector);
}

/// The dotted and blocky images use two colours each: sparse blue dots,
/// where the pixel hash with seed 3 is a multiple of 40, on white; dark
/// text blocks on white, only in the first 14 rows of every 20, and
/// constant over 3 columns; and black or white 16-pixel blocks.
pub proof fn lemma_sparse_images(x: u32, y: u32)
    ensures
        spec_math_pattern(19, x, y) == if spec_hash(x, y, 3) % 40 == 0 {
            (30u8, 30u8, 200u8)
        } else {
            (245u8, 245u8, 245u8)
        },
        spec_math_pattern(20, x, y) == (20u8, 20u8, 20u8) || spec_math_pattern(20, x, y) == (245u8, 245u8, 245u8),
        y % 20 >= 14 ==> spec_math_pattern(20, x, y) == (245u8, 245u8, 245u8),
        spec_math_pattern(20, x, y) == spec_math_pattern(20, (x / 3 * 3) as u32, y),
        spec_math_pattern(24, x, y) == (0u8, 0u8, 0u8) || spec_math_pattern(24, x, y) == (255u8, 255u8, 255u8),
        spec_math_pattern(24, x, y) == spec_math_pattern(24, (x / 16 * 16) as u32, (y / 16 * 16) as u32),
{
    assert((x / 3 * 3) / 3 == x / 3);
    assert((x / 16 * 16) / 16 == x / 16);
    assert((y / 16 * 16) / 16 == y / 16);
}

/// The Sierpinski triangle: a pixel is blue exactly where its coordinates
/// share a set bit, so the top row and the left column are white and the
/// diagonal past the corner is blue; every other pixel is white.
pub proof fn lemma_sierpinski(x: u32, y: u32)
    ensures
        spec_math_pattern(22, x, y) == (40u8, 80u8, 180u8) || spec_math_pattern(22, x, y) == (245u8, 245u8, 245u8),
        spec_math_pattern(22, x, 0) == (245u8, 245u8, 245u8),
        spec_math_pattern(22, 0, y) == (245u8, 245u8, 245u8),
        x > 0 ==> spec_math_pattern(22, x, x) == (40u8, 80u8, 180u8),
        spec_math_pattern(22, x, y) == spec_math_pattern(22, y, x),
{
    assert(x & 0u32 == 0u32) by (bit_vector);
    assert(0u32 & y == 0u32) by (bit_vector);
    assert(x > 0 ==> x & x != 0u32) by (bit_vector);
    assert(x & y == y & x) by (bit_vector);
}

/// The diagonal stripes: the colour depends on the stripe `(x + y) / 64`
/// alone, cycles through four colours, and changes from each stripe to the
/// next.
pub proof fn lemma_diagonal_stripes(x: u32, y: u32, x2: u32, y2: u32)
    requires
        x < 512,
        y < 512,
        x2 < 512,
        y2 < 512,
    ensures
        (x + y) / 64 == (x2 + y2) / 64 ==> spec_math_pattern(23, x, y) == spec_math_pattern(23, x2, y2),
        (x2 + y2) / 64 == (x + y) / 64 + 1 ==> spec_math_pattern(23, x, y) != spec_math_pattern(23, x2, y2),
        (x2 + y2) / 64 == (x + y) / 64 + 4 ==> spec_math_pattern(23, x, y) == spec_math_pattern(23, x2, y2),
        spec_math_pattern(23, 0, 0) == (220u8, 80u8, 80u8),
{
}

} // verus!
