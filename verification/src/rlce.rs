//! Run-length encoding of each colour channel on its own.
use crate::image::{CompressedImage, CompressionMetadata, RgbImage, fits_usize, rgb_len};
use vstd::prelude::*;

verus! {

/// The bytes of colour channel `c` of a raw RGB buffer: bytes `c`, `c + 3`,
/// `c + 6`, ... as far as the buffer goes.
pub open spec fn channel(raw: Seq<u8>, c: nat) -> Seq<u8> {
    let count: nat = if raw.len() > c {
        ((raw.len() - c + 2) / 3) as nat
    } else {
        0
    };
    Seq::new(count, |k: int| raw[c + 3 * k])
}

/// Length of the run of bytes equal to `s[0]` at the start of `s`, counted
/// on from `r` and capped at 255.
pub open spec fn byte_run(s: Seq<u8>, r: nat) -> nat
    decreases 255 - r,
{
    if r < 255 && r < s.len() && s[r as int] == s[0] {
        byte_run(s, r + 1)
    } else {
        r
    }
}

/// Run-length encoding of a byte sequence: each maximal run of equal bytes,
/// cut into pieces of at most 255, becomes the two bytes `count, byte`.
pub open spec fn rle_bytes(s: Seq<u8>) -> Seq<u8>
    decreases s.len(),
{
    if s.len() == 0 {
        Seq::empty()
    } else {
        let r = byte_run(s, 1);
        if 1 <= r <= 255 && r <= s.len() {
            seq![r as u8, s[0]] + rle_bytes(s.skip(r as int))
        } else {
            Seq::empty()
        }
    }
}

/// The per-channel encoding: the red channel's runs, then the green
/// channel's, then the blue channel's.
pub open spec fn rlce_encode(raw: Seq<u8>) -> Seq<u8> {
    rle_bytes(channel(raw, 0)) + rle_bytes(channel(raw, 1)) + rle_bytes(channel(raw, 2))
}

/// `n` copies of the byte `b`.
pub open spec fn repeat_byte(b: u8, n: nat) -> Seq<u8> {
    Seq::new(n, |k: int| b)
}

/// Reading `count, byte` pairs from position `i` of `data` until `n`
/// values are filled in: the values and the position after the last pair.
/// `None` where the data end inside the pairs, or where a run would reach
/// past the `n` values.
pub open spec fn decode_channel(data: Seq<u8>, i: nat, n: nat) -> Option<(Seq<u8>, nat)>
    decreases data.len() - i,
{
    if n == 0 {
        Some((Seq::empty(), i))
    } else if i + 1 >= data.len() {
        None
    } else if data[i as int] > n {
        None
    } else {
        match decode_channel(data, i + 2, (n - data[i as int]) as nat) {
            Some((vals, e)) => Some((repeat_byte(data[i + 1int], data[i as int] as nat) + vals, e)),
            None => None,
        }
    }
}

/// Three channels of `n` values each, put back together pixel by pixel.
pub open spec fn interleave(c0: Seq<u8>, c1: Seq<u8>, c2: Seq<u8>, n: nat) -> Seq<u8> {
    Seq::new(
        3 * n,
        |k: int|
            if k % 3 == 0 {
                c0[k / 3]
            } else if k % 3 == 1 {
                c1[k / 3]
            } else {
                c2[k / 3]
            },
    )
}

/// The raw buffer of `n` pixels that per-channel decoding of `data` gives.
pub open spec fn rlce_decode(data: Seq<u8>, n: nat) -> Option<Seq<u8>> {
    match decode_channel(data, 0, n) {
        Some((c0, i1)) => match decode_channel(data, i1, n) {
            Some((c1, i2)) => match decode_channel(data, i2, n) {
                Some((c2, _)) => Some(interleave(c0, c1, c2, n)),
                None => None,
            },
            None => None,
        },
        None => None,
    }
}

proof fn lemma_byte_run(s: Seq<u8>, r: nat)
    requires
        1 <= r <= 255,
        r <= s.len(),
        forall|j: int| 0 <= j < r ==> #[trigger] s[j] == s[0],
    ensures
        r <= byte_run(s, r) <= 255,
        byte_run(s, r) <= s.len(),
        forall|j: int| 0 <= j < byte_run(s, r) ==> #[trigger] s[j] == s[0],
    decreases 255 - r,
{
    if r < 255 && r < s.len() && s[r as int] == s[0] {
        lemma_byte_run(s, r + 1);
    }
}

proof fn lemma_decode_rle_bytes(pre: Seq<u8>, s: Seq<u8>, post: Seq<u8>)
    ensures
        decode_channel(pre + rle_bytes(s) + post, pre.len(), s.len()) == Some(
            (s, pre.len() + rle_bytes(s).len()),
        ),
    decreases s.len(),
{
    let data = pre + rle_bytes(s) + post;
    if s.len() > 0 {
        lemma_byte_run(s, 1);
        let r = byte_run(s, 1);
        let rest = s.skip(r as int);
        let pre2 = pre + seq![r as u8, s[0]];
        assert(rle_bytes(s) == seq![r as u8, s[0]] + rle_bytes(rest));
        assert(data =~= pre2 + rle_bytes(rest) + post);
        assert(data[pre.len() as int] == r as u8);
        assert(data[pre.len() + 1int] == s[0]);
        lemma_decode_rle_bytes(pre2, rest, post);
        assert(repeat_byte(s[0], r) + rest =~= s);
    } else {
        assert(s =~= Seq::<u8>::empty());
    }
}

proof fn lemma_decode_channel_len(d: Seq<u8>, i: nat, n: nat)
    ensures
        decode_channel(d, i, n) matches Some((v, e)) ==> v.len() == n,
    decreases d.len() - i,
{
    if n > 0 && i + 1 < d.len() && d[i as int] <= n {
        lemma_decode_channel_len(d, i + 2, (n - d[i as int]) as nat);
    }
}

proof fn lemma_decode_channel_step(d: Seq<u8>, i: nat, n: nat)
    requires
        n > 0,
        decode_channel(d, i, n) is Some,
    ensures
        i + 1 < d.len(),
        d[i as int] <= n,
        decode_channel(d, i + 2, (n - d[i as int]) as nat) is Some,
        decode_channel(d, i, n).unwrap().0 == repeat_byte(d[i + 1int], d[i as int] as nat)
            + decode_channel(d, i + 2, (n - d[i as int]) as nat).unwrap().0,
        decode_channel(d, i, n).unwrap().1 == decode_channel(d, i + 2, (n - d[i as int]) as nat).unwrap().1,
{
}

/// Per-channel decoding of the per-channel encoding of a buffer that holds
/// exactly `n` pixels gives the buffer back.
pub proof fn lemma_rlce_roundtrip(raw: Seq<u8>, n: nat)
    requires
        raw.len() == 3 * n,
    ensures
        rlce_decode(rlce_encode(raw), n) == Some(raw),
{
    let c0 = channel(raw, 0);
    let c1 = channel(raw, 1);
    let c2 = channel(raw, 2);
    assert(c0.len() == n && c1.len() == n && c2.len() == n);
    let e0 = rle_bytes(c0);
    let e1 = rle_bytes(c1);
    let e2 = rle_bytes(c2);
    let data = rlce_encode(raw);
    assert(data =~= Seq::<u8>::empty() + e0 + (e1 + e2));
    lemma_decode_rle_bytes(Seq::<u8>::empty(), c0, e1 + e2);
    assert(data =~= e0 + e1 + e2);
    lemma_decode_rle_bytes(e0, c1, e2);
    assert(data =~= (e0 + e1) + e2 + Seq::<u8>::empty());
    lemma_decode_rle_bytes(e0 + e1, c2, Seq::<u8>::empty());
    assert(interleave(c0, c1, c2, n) =~= raw);
}

/// Where the `count, byte` pairs read from position `i` on fill `n` values
/// (see `decode_channel`): the position after the last pair, or `None`.
fn channel_end(data: &Vec<u8>, i: usize, n: u32) -> (e: Option<usize>)
    requires
        i <= data@.len(),
    ensures
        match decode_channel(data@, i as nat, n as nat) {
            Some((_, end)) => e matches Some(p) && p == end && p <= data@.len(),
            None => e is None,
        },
{
    let ghost d = data@;
    let mut pos: usize = i;
    let mut rem: u32 = n;
    while rem > 0
        invariant
            d == data@,
            i <= pos <= data@.len(),
            (decode_channel(d, i as nat, n as nat) is Some) == (decode_channel(d, pos as nat, rem as nat) is Some),
            decode_channel(d, pos as nat, rem as nat) is Some ==> decode_channel(d, i as nat, n as nat).unwrap().1
                == decode_channel(d, pos as nat, rem as nat).unwrap().1,
        decreases data@.len() - pos,
    {
        if data.len() - pos <= 1 {
            return None;
        }
        let count = data[pos] as u32;
        if count > rem {
            return None;
        }
        rem = rem - count;
        pos = pos + 2;
    }
    proof {
        assert(decode_channel(d, pos as nat, 0).unwrap().1 == pos);
    }
    Some(pos)
}

/// Whether per-channel decoding of `data` fills `n` pixels, that is, whether
/// `RunLengthChannelCompressor::decompress` can read it.
pub fn rlce_decodable(data: &Vec<u8>, n: u32) -> (b: bool)
    ensures
        b == rlce_decode(data@, n as nat) is Some,
{
    match channel_end(data, 0, n) {
        Some(i1) => match channel_end(data, i1, n) {
            Some(i2) => channel_end(data, i2, n).is_some(),
            None => false,
        },
        None => false,
    }
}

/// Run-length encoding applied to each colour channel on its own.
pub struct RunLengthChannelCompressor {}

impl RunLengthChannelCompressor {
    pub fn new() -> Self {
        RunLengthChannelCompressor {  }
    }

    /// Encodes the red bytes, then the green bytes, then the blue bytes of
    /// the raw buffer, each as `count, byte` runs of at most 255.
    pub fn compress(&self, image: &RgbImage) -> (res: Result<CompressedImage, String>)
        ensures
            res matches Ok(c) && c.data@ == rlce_encode(image.spec_raw()) && c.width
                == image.spec_width() && c.height == image.spec_height()
                && c.metadata is Empty,
    {
        let width = image.width();
        let height = image.height();
        let raw = image.as_raw();
        let len = raw.len();
        let mut data: Vec<u8> = Vec::new();
        let mut c: usize = 0;
        while c < 3
            invariant
                c <= 3,
                len == raw@.len(),
                raw@ == image.spec_raw(),
                data@ == if c == 0 {
                    Seq::<u8>::empty()
                } else if c == 1 {
                    rle_bytes(channel(raw@, 0))
                } else if c == 2 {
                    rle_bytes(channel(raw@, 0)) + rle_bytes(channel(raw@, 1))
                } else {
                    rlce_encode(raw@)
                },
            decreases 3 - c,
        {
            let ghost ch = channel(raw@, c as nat);
            let ghost before = data@;
            let ghost mut q: nat = 0;
            let mut i = c;
            proof {
                assert(ch.skip(0) =~= ch);
            }
            while i < len
                invariant_except_break
                    c < 3,
                    len == raw@.len(),
                    ch == channel(raw@, c as nat),
                    i == c + 3 * q,
                    q <= ch.len(),
                    i < len <==> q < ch.len(),
                    data@ + rle_bytes(ch.skip(q as int)) == before + rle_bytes(ch),
                ensures
                    q == ch.len(),
                    data@ + rle_bytes(ch.skip(q as int)) == before + rle_bytes(ch),
                decreases ch.len() - q,
            {
                let ghost s = ch.skip(q as int);
                let color = raw[i];
                proof {
                    assert(s[0] == color);
                }
                let mut run: usize = 1;
                loop
                    invariant_except_break
                        1 <= run <= 255,
                        run <= s.len(),
                        i == c + 3 * q,
                        i < len,
                        len == raw@.len(),
                        s == ch.skip(q as int),
                        ch == channel(raw@, c as nat),
                        color == s[0],
                        byte_run(s, run as nat) == byte_run(s, 1),
                    ensures
                        1 <= run <= 255,
                        byte_run(s, 1) == run,
                    decreases 255 - run,
                {
                    if run >= 255 || run * 3 >= len - i {
                        proof {
                            if run < 255 {
                                assert(!(run < s.len()));
                            }
                        }
                        break;
                    }
                    let j = i + run * 3;
                    proof {
                        assert(s[run as int] == raw@[j as int]);
                    }
                    if raw[j] != color {
                        break;
                    }
                    run += 1;
                }
                let ghost old_data = data@;
                data.push(run as u8);
                data.push(color);
                proof {
                    lemma_byte_run(s, 1);
                    assert(rle_bytes(s) == seq![run as u8, s[0]] + rle_bytes(s.skip(run as int)));
                    assert(s.skip(run as int) =~= ch.skip(q + run));
                    assert(data@ =~= old_data + seq![run as u8, color]);
                }
                if run * 3 >= len - i {
                    proof {
                        q = q + run as nat;
                        assert(q == ch.len());
                        assert(ch.skip(q as int) =~= Seq::<u8>::empty());
                        assert(data@ + rle_bytes(ch.skip(q as int)) =~= before + rle_bytes(ch));
                    }
                    break;
                }
                i += run * 3;
                proof {
                    q = q + run as nat;
                }
            }
            proof {
                assert(q == ch.len());
                assert(ch.skip(q as int) =~= Seq::<u8>::empty());
                assert(data@ =~= before + rle_bytes(ch));
            }
            c += 1;
        }
        Ok(CompressedImage { data, width, height, metadata: CompressionMetadata::Empty })
    }

    /// Fills each channel of a `width * height` pixel buffer in turn from
    /// the `count, byte` pairs of the data (see `decode_channel`) and wraps
    /// the buffer into an image of the recorded dimensions.
    pub fn decompress(&self, compressed: &CompressedImage) -> (res: Result<RgbImage, String>)
        requires
            3 * compressed.width * compressed.height <= u32::MAX,
            rlce_decode(compressed.data@, (compressed.width * compressed.height) as nat) is Some,
        ensures
            fits_usize(compressed.width, compressed.height) ==> (res matches Ok(img) && img.spec_width()
                == compressed.width && img.spec_height() == compressed.height && img.spec_raw()
                == rlce_decode(compressed.data@, (compressed.width * compressed.height) as nat).unwrap()),
            !fits_usize(compressed.width, compressed.height) ==> (res matches Err(e) && e@
                == "Buffer too small for image dimensions"@),
    {
        proof {
            assert(compressed.width * compressed.height <= 3 * compressed.width
                * compressed.height) by (nonlinear_arith);
            assert(compressed.width * compressed.height * 3 == 3 * compressed.width
                * compressed.height) by (nonlinear_arith);
        }
        let total: u32 = compressed.width * compressed.height * 3;
        let n: usize = (compressed.width * compressed.height) as usize;
        let mut raw: Vec<u8> = vec![0u8; total as usize];
        let data = &compressed.data;
        let ghost d = data@;
        let ghost (v0, s1) = decode_channel(d, 0, n as nat).unwrap();
        let ghost (v1, s2) = decode_channel(d, s1, n as nat).unwrap();
        let ghost (v2, s3) = decode_channel(d, s2, n as nat).unwrap();
        let ghost chans = seq![v0, v1, v2];
        let ghost starts = seq![0nat, s1, s2];
        let ghost ends = seq![s1, s2, s3];
        let mut c: usize = 0;
        let mut i: usize = 0;
        let dlen = data.len();
        proof {
            lemma_decode_channel_len(d, 0, n as nat);
            lemma_decode_channel_len(d, s1, n as nat);
            lemma_decode_channel_len(d, s2, n as nat);
        }
        while c < 3
            invariant
                c <= 3,
                dlen == data@.len(),
                3 * n <= u32::MAX,
                v0.len() == n && v1.len() == n && v2.len() == n,
                raw@.len() == 3 * n,
                d == data@,
                chans == seq![v0, v1, v2],
                starts == seq![0nat, s1, s2],
                ends == seq![s1, s2, s3],
                forall|ch: int| 0 <= ch < 3 ==> decode_channel(d, #[trigger] starts[ch], n as nat) == Some((chans[ch], ends[ch])),
                c < 3 ==> i == starts[c as int],
                forall|p: int, ch: int| 0 <= p < n && 0 <= ch < c ==> raw@[3 * p + ch] == #[trigger] chans[ch][p],
            decreases 3 - c,
        {
            let ghost vc = chans[c as int];
            let ghost endc = ends[c as int];
            let mut j: usize = 0;
            proof {
                assert(vc.skip(0) =~= vc);
            }
            while j < n
                invariant
                    c < 3,
                    j <= n,
                    dlen == data@.len(),
                    3 * n <= u32::MAX,
                    raw@.len() == 3 * n,
                    d == data@,
                    chans == seq![v0, v1, v2],
                    vc == chans[c as int],
                    decode_channel(d, i as nat, (n - j) as nat) == Some((vc.skip(j as int), endc)),
                    forall|p: int, ch: int| 0 <= p < n && 0 <= ch < c ==> raw@[3 * p + ch] == #[trigger] chans[ch][p],
                    forall|p: int| 0 <= p < j ==> raw@[3 * p + c] == #[trigger] vc[p],
                    vc.len() == n,
                    i < dlen || j == n,
                decreases dlen - i,
            {
                proof {
                    lemma_decode_channel_step(d, i as nat, (n - j) as nat);
                }
                let count = data[i] as usize;
                let color = data[i + 1];
                let ghost rest = decode_channel(d, i as nat + 2, (n - j - count) as nat).unwrap();
                proof {
                    assert(repeat_byte(color, count as nat) + rest.0 == vc.skip(j as int));
                    lemma_decode_channel_len(d, i as nat + 2, (n - j - count) as nat);
                    assert forall|t: int| 0 <= t < rest.0.len() implies rest.0[t] == vc.skip(j + count)[t] by {
                        assert(vc.skip(j as int)[count + t] == (repeat_byte(color, count as nat) + rest.0)[count + t]);
                    }
                    assert(rest.0 =~= vc.skip(j + count));
                    assert forall|p: int| j <= p < j + count implies #[trigger] vc[p] == color by {
                        assert(vc.skip(j as int)[p - j] == (repeat_byte(color, count as nat) + rest.0)[p - j]);
                    }
                }
                let ghost before = raw@;
                let mut k: usize = 0;
                while k < count
                    invariant
                        k <= count,
                        j + count <= n,
                        3 * n <= u32::MAX,
                        c < 3,
                        raw@.len() == 3 * n,
                        forall|t: int| 0 <= t < 3 * n ==> (raw@[t] == if t % 3 == c && j <= t / 3 < j + k {
                            color
                        } else {
                            before[t]
                        }),
                    decreases count - k,
                {
                    raw.set((j + k) * 3 + c, color);
                    k += 1;
                }
                proof {
                    assert forall|p: int, ch: int| 0 <= p < n && 0 <= ch < c implies raw@[3 * p + ch] == #[trigger] chans[ch][p] by {
                        assert((3 * p + ch) % 3 == ch && (3 * p + ch) / 3 == p);
                        assert(before[3 * p + ch] == chans[ch][p]);
                    }
                    assert forall|p: int| 0 <= p < j + count implies raw@[3 * p + c] == #[trigger] vc[p] by {
                        assert((3 * p + c) % 3 == c && (3 * p + c) / 3 == p);
                    }
                }
                j += count;
                i += 2;
            }
            proof {
                assert(vc.skip(n as int) =~= Seq::<u8>::empty());
                assert(i == endc);
            }
            c += 1;
        }
        proof {
            assert(raw@ =~= interleave(v0, v1, v2, n as nat)) by {
                assert forall|t: int| 0 <= t < 3 * n implies raw@[t] == interleave(v0, v1, v2, n as nat)[t] by {
                    let p = t / 3;
                    let ch = t % 3;
                    assert(t == 3 * p + ch);
                    assert(raw@[3 * p + ch] == chans[ch][p]);
                }
            }
            assert(rgb_len(compressed.width, compressed.height) == 3 * n);
        }
        match RgbImage::from_raw(compressed.width, compressed.height, raw) {
            Some(img) => Ok(img),
            None => Err("Buffer too small for image dimensions".to_string()),
        }
    }
}

} // verus!
