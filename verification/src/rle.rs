//! Run-length encoding of whole RGB pixels.
use crate::image::{CompressedImage, CompressionMetadata, RgbImage, fits_usize, rgb_len};
use vstd::prelude::*;

verus! {

/// The three bytes of the first pixel of `s`.
pub open spec fn first_pixel(s: Seq<u8>) -> Seq<u8> {
    s.subrange(0, 3)
}

/// Length of the run of pixels equal to the first pixel of `s` that starts
/// at pixel 0, counted on from `r` and capped at 255 pixels.
pub open spec fn lead_run(s: Seq<u8>, r: nat) -> nat
    decreases 255 - r,
{
    if r < 255 && 3 * r + 3 <= s.len() && s.subrange(3 * r as int, 3 * r as int + 3) == first_pixel(s) {
        lead_run(s, r + 1)
    } else {
        r
    }
}

/// Run-length encoding of the pixels of `s`: each maximal run of equal
/// pixels, cut into pieces of at most 255 pixels, becomes the four bytes
/// `count, r, g, b`.
pub open spec fn rle_encode(s: Seq<u8>) -> Seq<u8>
    decreases s.len(),
{
    if s.len() < 3 {
        Seq::empty()
    } else {
        let r = lead_run(s, 1);
        if 1 <= r <= 255 && 3 * r <= s.len() {
            seq![r as u8, s[0], s[1], s[2]] + rle_encode(s.skip(3 * r as int))
        } else {
            Seq::empty()
        }
    }
}

/// `n` copies of `p`, one after the other.
pub open spec fn repeat_seq(p: Seq<u8>, n: nat) -> Seq<u8>
    decreases n,
{
    if n == 0 {
        Seq::empty()
    } else {
        repeat_seq(p, (n - 1) as nat) + p
    }
}

/// Expansion of a sequence of four-byte groups `count, r, g, b`.
pub open spec fn rle_decode(d: Seq<u8>) -> Seq<u8>
    decreases d.len(),
{
    if d.len() < 4 {
        Seq::empty()
    } else {
        repeat_seq(d.subrange(1, 4), d[0] as nat) + rle_decode(d.skip(4))
    }
}

proof fn lemma_lead_run(s: Seq<u8>, r: nat)
    requires
        1 <= r <= 255,
        3 * r <= s.len(),
        forall|j: int| 0 <= j < r ==> #[trigger] s.subrange(3 * j, 3 * j + 3) == first_pixel(s),
    ensures
        r <= lead_run(s, r) <= 255,
        3 * lead_run(s, r) <= s.len(),
        forall|j: int|
            0 <= j < lead_run(s, r) ==> #[trigger] s.subrange(3 * j, 3 * j + 3) == first_pixel(s),
    decreases 255 - r,
{
    if r < 255 && 3 * r + 3 <= s.len() && s.subrange(3 * r as int, 3 * r as int + 3) == first_pixel(s) {
        assert forall|j: int| 0 <= j < r + 1 implies #[trigger] s.subrange(3 * j, 3 * j + 3)
            == first_pixel(s) by {
            if j < r {
            }
        }
        lemma_lead_run(s, r + 1);
    }
}

proof fn lemma_repeat_prefix(s: Seq<u8>, r: nat)
    requires
        3 * r <= s.len(),
        3 <= s.len(),
        forall|j: int| 0 <= j < r ==> #[trigger] s.subrange(3 * j, 3 * j + 3) == first_pixel(s),
    ensures
        repeat_seq(first_pixel(s), r) == s.take(3 * r as int),
    decreases r,
{
    if r > 0 {
        lemma_repeat_prefix(s, (r - 1) as nat);
        assert(s.subrange(3 * (r - 1), 3 * (r - 1) + 3) == first_pixel(s));
        assert(s.take(3 * r as int) =~= s.take(3 * (r - 1) as int) + s.subrange(3 * (r - 1) as int, 3 * r as int));
    } else {
        assert(s.take(0) =~= Seq::<u8>::empty());
    }
}

proof fn lemma_encode_step(s: Seq<u8>)
    requires
        s.len() % 3 == 0,
        s.len() >= 3,
    ensures
        1 <= lead_run(s, 1) <= 255,
        3 * lead_run(s, 1) <= s.len(),
        rle_encode(s) == seq![lead_run(s, 1) as u8, s[0], s[1], s[2]] + rle_encode(
            s.skip(3 * lead_run(s, 1) as int),
        ),
        repeat_seq(first_pixel(s), lead_run(s, 1)) == s.take(3 * lead_run(s, 1) as int),
{
    assert(s.subrange(0, 3) == first_pixel(s));
    lemma_lead_run(s, 1);
    lemma_repeat_prefix(s, lead_run(s, 1));
}

proof fn lemma_decode_step(d: Seq<u8>, head: Seq<u8>, tail: Seq<u8>)
    requires
        d == head + tail,
        head.len() == 4,
    ensures
        rle_decode(d) == repeat_seq(head.subrange(1, 4), head[0] as nat) + rle_decode(tail),
{
    assert(d.skip(4) =~= tail);
    assert(d.subrange(1, 4) =~= head.subrange(1, 4));
}

/// Decoding the run-length encoding of a buffer of whole pixels gives the
/// buffer back, and the encoding is made of whole four-byte groups.
#[verifier::spinoff_prover]
pub proof fn lemma_rle_roundtrip(s: Seq<u8>)
    requires
        s.len() % 3 == 0,
    ensures
        rle_decode(rle_encode(s)) == s,
        rle_encode(s).len() % 4 == 0,
    decreases s.len(),
{
    if s.len() >= 3 {
        lemma_encode_step(s);
        let r = lead_run(s, 1);
        let rest = s.skip(3 * r as int);
        let len = s.len() as int;
        assert(rest.len() % 3 == 0) by {
            assert((len - 3 * r) % 3 == 0) by (nonlinear_arith)
                requires
                    len % 3 == 0,
                    0 <= 3 * r <= len,
            ;
        }
        lemma_rle_roundtrip(rest);
        let head = seq![r as u8, s[0], s[1], s[2]];
        let tail = rle_encode(rest);
        assert(rle_encode(s) == head + tail);
        assert((head + tail).len() % 4 == 0) by {
            assert((4 + tail.len()) % 4 == tail.len() % 4) by (nonlinear_arith);
        }
        lemma_decode_step(rle_encode(s), head, tail);
        assert(head.subrange(1, 4) =~= first_pixel(s));
        assert(s =~= s.take(3 * r as int) + rest);
    } else {
        assert(s =~= Seq::<u8>::empty());
    }
}

/// Run-length encoding of whole RGB pixels.
pub struct RunLengthCompressor {}

impl RunLengthCompressor {
    pub fn new() -> Self {
        RunLengthCompressor {  }
    }

    /// Encodes the pixels of the raw buffer as `count, r, g, b` groups, a
    /// run of more than 255 equal pixels taking several groups.
    pub fn compress(&self, image: &RgbImage) -> (res: Result<CompressedImage, String>)
        requires
            image.spec_raw().len() % 3 == 0,
        ensures
            res matches Ok(c) && c.data@ == rle_encode(image.spec_raw()) && c.width
                == image.spec_width() && c.height == image.spec_height()
                && c.metadata is Empty,
    {
        let width = image.width();
        let height = image.height();
        let raw: &Vec<u8> = image.as_raw();
        let n = raw.len();
        let mut data: Vec<u8> = Vec::new();
        proof {
            assert(raw@.skip(0) =~= raw@);
        }
        let mut i: usize = 0;
        while i < raw.len()
            invariant
                i <= raw@.len(),
                n == raw@.len(),
                i % 3 == 0,
                raw@.len() % 3 == 0,
                raw@ == image.spec_raw(),
                data@ + rle_encode(raw@.skip(i as int)) == rle_encode(raw@),
            decreases raw@.len() - i,
        {
            let ghost s = raw@.skip(i as int);
            let p0 = raw[i];
            let p1 = raw[i + 1];
            let p2 = raw[i + 2];
            proof {
                assert(s.subrange(0, 3) == first_pixel(s));
            }
            let mut run: usize = 1;
            loop
                invariant_except_break
                    1 <= run <= 255,
                    i % 3 == 0,
                    raw@.len() % 3 == 0,
                        i + 3 * run <= raw@.len(),
                    n == raw@.len(),
                    s == raw@.skip(i as int),
                    s.len() >= 3,
                    p0 == s[0] && p1 == s[1] && p2 == s[2],
                    lead_run(s, run as nat) == lead_run(s, 1),
                ensures
                    1 <= run <= 255,
                    i + 3 * run <= raw@.len(),
                    lead_run(s, run as nat) == lead_run(s, 1),
                    lead_run(s, run as nat) == run,
                decreases 255 - run,
            {
                let j = i + run * 3;
                if run >= 255 || j >= raw.len() {
                    break;
                }
                proof {
                    assert(j + 3 <= raw@.len());
                    assert(s.subrange(3 * run as int, 3 * run as int + 3) =~= seq![raw@[j as int], raw@[j + 1], raw@[j + 2]]);
                }
                if raw[j] != p0 || raw[j + 1] != p1 || raw[j + 2] != p2 {
                    proof {
                        assert(s.subrange(3 * run as int, 3 * run as int + 3) != first_pixel(s)) by {
                            if s.subrange(3 * run as int, 3 * run as int + 3) == first_pixel(s) {
                                assert(s.subrange(3 * run as int, 3 * run as int + 3)[0] == s[0]);
                                assert(s.subrange(3 * run as int, 3 * run as int + 3)[1] == s[1]);
                                assert(s.subrange(3 * run as int, 3 * run as int + 3)[2] == s[2]);
                            }
                        }
                    }
                    break;
                }
                proof {
                    assert(s.subrange(3 * run as int, 3 * run as int + 3) =~= first_pixel(s));
                }
                run += 1;
            }
            proof {
                assert(raw@.skip(i + 3 * run) =~= s.skip(3 * run));
                assert(rle_encode(s) == seq![run as u8, p0, p1, p2] + rle_encode(s.skip(3 * run)));
            }
            let ghost old_data = data@;
            data.push(run as u8);
            data.push(p0);
            data.push(p1);
            data.push(p2);
            proof {
                assert(data@ =~= old_data + seq![run as u8, p0, p1, p2]);
            }
            i += run * 3;
        }
        proof {
            assert(raw@.skip(i as int) =~= Seq::<u8>::empty());
            assert(data@ =~= data@ + rle_encode(raw@.skip(i as int)));
        }
        Ok(CompressedImage { data, width, height, metadata: CompressionMetadata::Empty })
    }

    /// Expands the `count, r, g, b` groups and wraps the pixels into an
    /// image of the recorded dimensions, which fails when the expansion is
    /// shorter than those dimensions need.
    pub fn decompress(&self, compressed: &CompressedImage) -> (res: Result<RgbImage, String>)
        requires
            compressed.data@.len() % 4 == 0,
            3 * compressed.width * compressed.height <= u32::MAX,
        ensures
            fits_usize(compressed.width, compressed.height) && rgb_len(compressed.width, compressed.height)
                <= rle_decode(compressed.data@).len() ==> (res matches Ok(img) && img.spec_raw() == rle_decode(compressed.data@)
                && img.spec_width() == compressed.width && img.spec_height()
                == compressed.height),
            !fits_usize(compressed.width, compressed.height) || rle_decode(compressed.data@).len()
                < rgb_len(compressed.width, compressed.height) ==> (res matches Err(e) && e@ == "Buffer too small for image dimensions"@),
    {
        proof {
            assert(compressed.width * compressed.height <= 3 * compressed.width * compressed.height)
                by (nonlinear_arith);
            assert(compressed.width * compressed.height * 3 == 3 * compressed.width
                * compressed.height) by (nonlinear_arith);
        }
        let cap: u32 = compressed.width * compressed.height * 3;
        let mut raw: Vec<u8> = Vec::with_capacity(cap as usize);
        let data = &compressed.data;
        let mut i: usize = 0;
        proof {
            assert(data@.skip(0) =~= data@);
        }
        while i < data.len()
            invariant
                i <= data@.len(),
                i % 4 == 0,
                data@.len() % 4 == 0,
                raw@ + rle_decode(data@.skip(i as int)) == rle_decode(data@),
            decreases data@.len() - i,
        {
            let ghost d = data@.skip(i as int);
            let count = data[i];
            let q0 = data[i + 1];
            let q1 = data[i + 2];
            let q2 = data[i + 3];
            let ghost p = d.subrange(1, 4);
            proof {
                assert(p =~= seq![q0, q1, q2]);
                assert(d.skip(4) =~= data@.skip(i + 4));
            }
            let ghost before = raw@;
            let mut k: u8 = 0;
            while k < count
                invariant
                    k <= count,
                    p == seq![q0, q1, q2],
                    raw@ == before + repeat_seq(p, k as nat),
                decreases count - k,
            {
                raw.push(q0);
                raw.push(q1);
                raw.push(q2);
                k += 1;
                proof {
                    assert(raw@ =~= before + repeat_seq(p, k as nat));
                }
            }
            proof {
                assert(rle_decode(d) == repeat_seq(p, count as nat) + rle_decode(d.skip(4)));
            }
            i += 4;
        }
        proof {
            assert(data@.skip(i as int) =~= Seq::<u8>::empty());
            assert(raw@ =~= rle_decode(data@));
        }
        match RgbImage::from_raw(compressed.width, compressed.height, raw) {
            Some(img) => Ok(img),
            None => Err("Buffer too small for image dimensions".to_string()),
        }
    }
}

} // verus!
