//! Output sizes of the run-length encoders on solid-colour images.
use crate::rle::{first_pixel, lead_run, rle_encode};
use crate::rlce::{byte_run, channel, rle_bytes, rlce_encode};
use vstd::prelude::*;

verus! {

/// A raw buffer of whole pixels that are all the same colour.
pub open spec fn solid(raw: Seq<u8>) -> bool {
    &&& raw.len() % 3 == 0
    &&& forall|i: int| 0 <= i < raw.len() ==> #[trigger] raw[i] == raw[i % 3]
}

/// The number of pieces of at most 255 that `m` splits into.
pub open spec fn pieces(m: nat) -> nat
    decreases m,
{
    if m == 0 {
        0
    } else if m <= 255 {
        1
    } else {
        1 + pieces((m - 255) as nat)
    }
}

proof fn lemma_solid_lead_run(s: Seq<u8>, r: nat)
    requires
        solid(s),
        1 <= r,
        r <= 255,
        3 * r <= s.len(),
    ensures
        lead_run(s, r) == if s.len() / 3 <= 255 { s.len() / 3 } else { 255 },
    decreases 255 - r,
{
    if r < 255 && 3 * r + 3 <= s.len() {
        assert(s.subrange(3 * r as int, 3 * r as int + 3) =~= first_pixel(s)) by {
            assert forall|t: int| 0 <= t < 3 implies s[3 * r + t] == #[trigger] s[t] by {
                assert((3 * r + t) % 3 == t);
            }
        }
        lemma_solid_lead_run(s, r + 1);
    }
}

proof fn lemma_solid_skip(s: Seq<u8>, k: nat)
    requires
        solid(s),
        3 * k <= s.len(),
    ensures
        solid(s.skip(3 * k as int)),
        s.skip(3 * k as int).len() >= 3 ==> s.skip(3 * k as int)[0] == s[0] && s.skip(3 * k as int)[1] == s[1]
            && s.skip(3 * k as int)[2] == s[2],
{
    let t = s.skip(3 * k as int);
    assert forall|i: int| 0 <= i < t.len() implies #[trigger] t[i] == t[i % 3] by {
        assert((3 * k + i) % 3 == i % 3);
        assert((3 * k + i % 3) % 3 == i % 3);
    }
    if t.len() >= 3 {
        assert((3 * k + 1) % 3 == 1);
        assert((3 * k + 2) % 3 == 2);
    }
}

/// The run-length encoding of a solid buffer of `m` pixels has four bytes
/// for each piece of at most 255 pixels.
proof fn lemma_solid_rle_len(s: Seq<u8>)
    requires
        solid(s),
    ensures
        rle_encode(s).len() == 4 * pieces(s.len() / 3),
    decreases s.len(),
{
    if s.len() >= 3 {
        lemma_solid_lead_run(s, 1);
        let r = lead_run(s, 1);
        lemma_solid_skip(s, r);
        lemma_solid_rle_len(s.skip(3 * r as int));
        assert(s.skip(3 * r as int).len() / 3 == s.len() / 3 - r);
    }
}

/// `s` holds a single byte value.
pub open spec fn constant(s: Seq<u8>) -> bool {
    forall|i: int| 0 <= i < s.len() ==> #[trigger] s[i] == s[0]
}

proof fn lemma_constant_byte_run(s: Seq<u8>, r: nat)
    requires
        constant(s),
        1 <= r <= 255,
        r <= s.len(),
    ensures
        byte_run(s, r) == if s.len() <= 255 { s.len() } else { 255 },
    decreases 255 - r,
{
    if r < 255 && r < s.len() {
        lemma_constant_byte_run(s, r + 1);
    }
}

/// The run-length encoding of a constant byte sequence has two bytes for
/// each piece of at most 255 bytes.
proof fn lemma_constant_rle_len(s: Seq<u8>)
    requires
        constant(s),
    ensures
        rle_bytes(s).len() == 2 * pieces(s.len()),
    decreases s.len(),
{
    if s.len() > 0 {
        lemma_constant_byte_run(s, 1);
        let r = byte_run(s, 1);
        let t = s.skip(r as int);
        assert forall|i: int| 0 <= i < t.len() implies #[trigger] t[i] == t[0] by {
            assert(s[r + i] == s[0]);
            assert(s[r as int] == s[0]);
        }
        lemma_constant_rle_len(t);
    }
}

proof fn lemma_solid_channel(raw: Seq<u8>, c: nat)
    requires
        solid(raw),
        c < 3,
    ensures
        constant(channel(raw, c)),
        channel(raw, c).len() == raw.len() / 3,
{
    let ch = channel(raw, c);
    let m = raw.len() / 3;
    if raw.len() > c {
        assert((raw.len() - c + 2) / 3 == m) by {
            assert(raw.len() == 3 * m);
        }
    } else {
        assert(m == 0);
    }
    assert forall|i: int| 0 <= i < ch.len() implies #[trigger] ch[i] == ch[0] by {
        assert((c + 3 * i) % 3 == c);
        assert(raw[c + 3 * i] == raw[(c + 3 * i) % 3]);
        assert(raw[c as int] == raw[(c as int) % 3]);
    }
}

/// On a solid image of at least one pixel, the per-channel encoding is
/// longer than the run-length encoding of whole pixels: six bytes against
/// four for each piece of at most 255 pixels.
pub proof fn lemma_solid_rlce_longer(raw: Seq<u8>)
    requires
        solid(raw),
        raw.len() >= 3,
    ensures
        rle_encode(raw).len() == 4 * pieces(raw.len() / 3),
        rlce_encode(raw).len() == 6 * pieces(raw.len() / 3),
        rlce_encode(raw).len() > rle_encode(raw).len(),
{
    lemma_solid_rle_len(raw);
    lemma_solid_channel(raw, 0);
    lemma_solid_channel(raw, 1);
    lemma_solid_channel(raw, 2);
    lemma_constant_rle_len(channel(raw, 0));
    lemma_constant_rle_len(channel(raw, 1));
    lemma_constant_rle_len(channel(raw, 2));
    assert(pieces(raw.len() / 3) >= 1);
}

} // verus!
