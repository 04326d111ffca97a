//! Bit streams packed most significant bit first: a buffered writer and
//! the reader that reads back what it wrote.
use vstd::prelude::*;

verus! {

/// Bit `i` of `x`, counted from the least significant bit.
pub open spec fn bit_of(x: u64, i: int) -> bool {
    ((x >> (i as u64)) & 1) == 1
}

/// The low `n` bits of `x`, most significant first.
pub open spec fn low_bits(x: u64, n: nat) -> Seq<bool> {
    Seq::new(n, |j: int| bit_of(x, n - 1 - j))
}

/// The eight bits of a byte, most significant first.
pub open spec fn byte_bits(b: u8) -> Seq<bool> {
    low_bits(b as u64, 8)
}

/// The bits of a byte sequence, each byte most significant bit first.
pub open spec fn bytes_bits(s: Seq<u8>) -> Seq<bool> {
    Seq::new(8 * s.len(), |i: int| bit_of(s[i / 8] as u64, 7 - i % 8))
}

/// `bits` followed by zero bits up to the next multiple of eight.
pub open spec fn pad_to_bytes(bits: Seq<bool>) -> Seq<bool> {
    bits + Seq::new(((8 - bits.len() % 8) % 8) as nat, |i: int| false)
}

proof fn lemma_shl_or_bit(a: u64, c: u64, len: u64, p: u64)
    requires
        len < 64,
        c >> len == 0,
        p < 64,
    ensures
        (((a << len) | c) >> p) & 1 == if p < len {
            (c >> p) & 1
        } else {
            (a >> ((p - len) as u64)) & 1
        },
{
    assert((((a << len) | c) >> p) & 1 == if p < len {
        (c >> p) & 1
    } else {
        (a >> ((p - len) as u64)) & 1
    }) by (bit_vector)
        requires
            len < 64,
            c >> len == 0,
            p < 64,
    ;
}

proof fn lemma_shr_byte_bit(acc: u64, n: u64, k: u64)
    requires
        k < 8,
        n + k < 64,
    ensures
        (((acc >> n) as u8) as u64 >> k) & 1 == (acc >> ((n + k) as u64)) & 1,
{
    assert((((acc >> n) as u8) as u64 >> k) & 1 == (acc >> ((n + k) as u64)) & 1) by (bit_vector)
        requires
            k < 8,
            n + k < 64,
    ;
}

proof fn lemma_shl_byte_bit(acc: u64, n: u64, k: u64)
    requires
        1 <= n < 8,
        k < 8,
    ensures
        (((acc << ((8 - n) as u64)) as u8) as u64 >> k) & 1 == if k < 8 - n {
            0
        } else {
            (acc >> ((k - (8 - n)) as u64)) & 1
        },
{
    assert((((acc << ((8 - n) as u64)) as u8) as u64 >> k) & 1 == if k < 8 - n {
        0
    } else {
        (acc >> ((k - (8 - n)) as u64)) & 1
    }) by (bit_vector)
        requires
            1 <= n < 8,
            k < 8,
    ;
}

proof fn lemma_bytes_bits_push(s: Seq<u8>, b: u8)
    ensures
        bytes_bits(s.push(b)) == bytes_bits(s) + byte_bits(b),
{
    let l = bytes_bits(s.push(b));
    let r = bytes_bits(s) + byte_bits(b);
    assert forall|i: int| 0 <= i < l.len() implies l[i] == r[i] by {
        if i < 8 * s.len() {
            assert(s.push(b)[i / 8] == s[i / 8]);
        } else {
            assert(i / 8 == s.len());
        }
    }
    assert(l =~= r);
}

proof fn lemma_bytes_bits_skip(s: Seq<u8>, k: int)
    requires
        0 <= k < s.len(),
    ensures
        bytes_bits(s.skip(k)) == byte_bits(s[k]) + bytes_bits(s.skip(k + 1)),
{
    let l = bytes_bits(s.skip(k));
    let r = byte_bits(s[k]) + bytes_bits(s.skip(k + 1));
    assert forall|i: int| 0 <= i < l.len() implies l[i] == r[i] by {
        if i < 8 {
            assert(i / 8 == 0);
        } else {
            assert((i - 8) / 8 == i / 8 - 1);
            assert((i - 8) % 8 == i % 8);
        }
    }
    assert(l =~= r);
}

/// Low `n + len` bits of `(a << len) | c` are the low `n` bits of `a`
/// followed by the low `len` bits of `c`.
proof fn lemma_low_bits_shl_or(a: u64, c: u64, n: nat, len: nat)
    requires
        n + len <= 64,
        len < 64,
        c >> (len as u64) == 0,
    ensures
        low_bits((a << (len as u64)) | c, n + len) == low_bits(a, n) + low_bits(c, len),
{
    let x = (a << (len as u64)) | c;
    let l = low_bits(x, n + len);
    let r = low_bits(a, n) + low_bits(c, len);
    assert forall|j: int| 0 <= j < l.len() implies l[j] == r[j] by {
        let p = (n + len - 1 - j) as u64;
        lemma_shl_or_bit(a, c, len as u64, p);
    }
    assert(l =~= r);
}

/// What read number `k` (counted from 0) of a reader over `bits` gives: bit
/// `k`, or `None` once the bits are used up.
pub open spec fn nth_read(bits: Seq<bool>, k: nat) -> Option<bool> {
    if k < bits.len() {
        Some(bits[k as int])
    } else {
        None
    }
}

/// Reading back what a `BitWriter` wrote, through a `BitReader` over the
/// bytes that `finish` hands over: read `k` gives written bit `k`, then come
/// zero bits up to the next multiple of eight, then `None` for ever.
pub proof fn lemma_reads_after_write(written: Seq<bool>, bytes: Seq<u8>)
    requires
        bytes_bits(bytes) == pad_to_bytes(written),
    ensures
        forall|k: nat|
            #[trigger] nth_read(bytes_bits(bytes), k) == if k < written.len() {
                Some(written[k as int])
            } else if k < written.len() + (8 - written.len() % 8) % 8 {
                Some(false)
            } else {
                None
            },
{
    lemma_written_bits_read_back(written, bytes);
    assert forall|k: nat| #[trigger] nth_read(bytes_bits(bytes), k) == if k < written.len() {
        Some(written[k as int])
    } else if k < written.len() + (8 - written.len() % 8) % 8 {
        Some(false)
    } else {
        None
    } by {
        if k < written.len() {
            assert(bytes_bits(bytes).take(written.len() as int)[k as int] == bytes_bits(bytes)[k as int]);
        }
    }
}

/// What `BitWriter::finish` hands over reads back, through `BitReader`, as
/// every bit that was written, in order, followed by zero bits up to the
/// next multiple of eight.
pub proof fn lemma_written_bits_read_back(written: Seq<bool>, bytes: Seq<u8>)
    requires
        bytes_bits(bytes) == pad_to_bytes(written),
    ensures
        bytes_bits(bytes).take(written.len() as int) == written,
        bytes_bits(bytes).len() == written.len() + (8 - written.len() % 8) % 8,
        forall|i: int| written.len() <= i < bytes_bits(bytes).len() ==> !#[trigger] bytes_bits(bytes)[i],
{
    assert(bytes_bits(bytes).take(written.len() as int) =~= written);
}

/// Buffered bit writer: bits accumulate in a 64-bit register and are flushed a
/// whole byte at a time. Bits are packed most significant first.
pub struct BitWriter {
    bytes: Vec<u8>,
    acc: u64,
    nbits: u32,
}

impl BitWriter {
    /// Fewer than 8 bits wait in the register between calls.
    pub closed spec fn wf(self) -> bool {
        self.nbits < 8
    }

    /// Every bit written so far, the flushed bytes first, then the bits
    /// still held in the register.
    pub closed spec fn written(self) -> Seq<bool> {
        bytes_bits(self.bytes@) + low_bits(self.acc, self.nbits as nat)
    }

    /// The bytes flushed so far.
    pub closed spec fn flushed(self) -> Seq<u8> {
        self.bytes@
    }

    pub fn new() -> (w: Self)
        ensures
            w.wf(),
            w.written() == Seq::<bool>::empty(),
            w.flushed() == Seq::<u8>::empty(),
    {
        let w = BitWriter { bytes: Vec::new(), acc: 0, nbits: 0 };
        proof {
            assert(w.written() =~= Seq::<bool>::empty());
        }
        w
    }

    /// Append the low `len` bits of `code` (which must be below `2^len`),
    /// most significant first. The register holds fewer than 8 bits between
    /// calls, so for `len <= 56` no pending bit is lost.
    pub fn write_code(&mut self, code: u32, len: u8)
        requires
            old(self).wf(),
            len <= 56,
            (code as u64) >> (len as u64) == 0,
        ensures
            final(self).wf(),
            final(self).written() == old(self).written() + low_bits(code as u64, len as nat),
            old(self).flushed().len() <= final(self).flushed().len(),
            final(self).flushed().take(old(self).flushed().len() as int) == old(self).flushed(),
    {
        let ghost b0 = self.bytes@;
        proof {
            lemma_low_bits_shl_or(self.acc, code as u64, self.nbits as nat, len as nat);
        }
        let ghost target = self.written() + low_bits(code as u64, len as nat);
        let len = len as u32;
        self.acc = (self.acc << len) | code as u64;
        self.nbits = self.nbits + len;
        proof {
            assert(self.written() =~= target);
        }
        while self.nbits >= 8
            invariant
                self.nbits < 64,
                self.written() == target,
                b0.len() <= self.bytes@.len(),
                self.bytes@.take(b0.len() as int) == b0,
            decreases self.nbits,
        {
            let ghost old_bytes = self.bytes@;
            let ghost n = self.nbits;
            self.nbits = self.nbits - 8;
            let b = (self.acc >> self.nbits) as u8;
            self.bytes.push(b);
            proof {
                lemma_bytes_bits_push(old_bytes, b);
                let nb = self.nbits;
                assert forall|j: int| 0 <= j < 8 implies byte_bits(b)[j] == low_bits(
                    self.acc,
                    n as nat,
                )[j] by {
                    lemma_shr_byte_bit(self.acc, nb as u64, (7 - j) as u64);
                }
                assert(low_bits(self.acc, n as nat) =~= byte_bits(b) + low_bits(
                    self.acc,
                    nb as nat,
                ));
                assert(self.written() =~= target);
                assert(self.bytes@.take(b0.len() as int) =~= old_bytes.take(b0.len() as int));
            }
        }
    }

    /// Flush a trailing partial byte (zero-padded on the right) and return the
    /// finished buffer.
    pub fn finish(self) -> (bytes: Vec<u8>)
        requires
            self.wf(),
        ensures
            bytes_bits(bytes@) == pad_to_bytes(self.written()),
            bytes@.take(self.flushed().len() as int) == self.flushed(),
            bytes@.len() <= self.flushed().len() + 1,
    {
        let ghost fl = self.bytes@;
        let ghost w = self.written();
        let BitWriter { bytes, acc, nbits } = self;
        let mut bytes = bytes;
        if nbits > 0 {
            let ghost old_bytes = bytes@;
            let b = (acc << (8 - nbits)) as u8;
            bytes.push(b);
            proof {
                lemma_bytes_bits_push(old_bytes, b);
                assert forall|j: int| 0 <= j < 8 implies byte_bits(b)[j] == (low_bits(
                    acc,
                    nbits as nat,
                ) + Seq::new((8 - nbits) as nat, |i: int| false))[j] by {
                    lemma_shl_byte_bit(acc, nbits as u64, (7 - j) as u64);
                }
                assert(w.len() % 8 == nbits) by {
                    assert(w.len() == 8 * old_bytes.len() + nbits);
                }
                assert(bytes_bits(bytes@) =~= pad_to_bytes(w));
                assert(bytes@.take(fl.len() as int) =~= fl);
            }
        } else {
            proof {
                assert(w.len() % 8 == 0) by {
                    assert(w.len() == 8 * bytes@.len());
                }
                assert(bytes_bits(bytes@) =~= pad_to_bytes(w));
                assert(bytes@.take(fl.len() as int) =~= fl);
            }
        }
        bytes
    }
}

/// Buffered bit reader mirroring `BitWriter`: refills a 64-bit register from
/// the byte buffer and serves bits from it, most significant first.
pub struct BitReader {
    bytes: Vec<u8>,
    byte_pos: usize,
    acc: u64,
    nbits: u32,
}

impl BitReader {
    pub closed spec fn wf(self) -> bool {
        &&& self.byte_pos <= self.bytes@.len()
        &&& self.nbits <= 64
        &&& self.nbits <= 8 * self.byte_pos
        &&& self.unread() == self.all_bits().skip(self.read_count() as int)
    }

    /// The bits of the whole buffer, each byte most significant bit first.
    pub closed spec fn all_bits(self) -> Seq<bool> {
        bytes_bits(self.bytes@)
    }

    /// How many bits have been read so far.
    pub closed spec fn read_count(self) -> nat {
        (8 * self.byte_pos - self.nbits) as nat
    }

    /// The bits not read yet: those held in the register, then those of the
    /// bytes not loaded yet.
    pub closed spec fn unread(self) -> Seq<bool> {
        low_bits(self.acc, self.nbits as nat) + bytes_bits(self.bytes@.skip(self.byte_pos as int))
    }

    pub fn new(bytes: Vec<u8>) -> (r: Self)
        ensures
            r.wf(),
            r.unread() == bytes_bits(bytes@),
            r.all_bits() == bytes_bits(bytes@),
            r.read_count() == 0,
    {
        let r = BitReader { bytes, byte_pos: 0, acc: 0, nbits: 0 };
        proof {
            assert(r.bytes@.skip(0) =~= r.bytes@);
            assert(r.unread() =~= bytes_bits(r.bytes@));
            assert(r.all_bits().skip(0) =~= r.all_bits());
        }
        r
    }

    /// The results of the next `count` reads.
    pub fn read_bits(&mut self, count: usize) -> (bits: Vec<Option<bool>>)
        requires
            old(self).wf(),
        ensures
            final(self).wf(),
            final(self).all_bits() == old(self).all_bits(),
            bits@.len() == count,
            forall|k: int| 0 <= k < count ==> #[trigger] bits@[k] == nth_read(
                old(self).all_bits(),
                (old(self).read_count() + k) as nat,
            ),
    {
        let ghost all = self.all_bits();
        let ghost rc0 = self.read_count();
        let mut bits: Vec<Option<bool>> = Vec::new();
        let mut k: usize = 0;
        while k < count
            invariant
                self.wf(),
                self.all_bits() == all,
                k <= count,
                bits@.len() == k,
                self.read_count() == if rc0 + k <= all.len() { rc0 + k } else { all.len() as int },
                rc0 <= all.len(),
                forall|j: int| 0 <= j < k ==> #[trigger] bits@[j] == nth_read(all, (rc0 + j) as nat),
            decreases count - k,
        {
            let b = self.read_bit();
            bits.push(b);
            k += 1;
        }
        bits
    }

    /// The next unread bit, or `None` once every bit has been read.
    pub fn read_bit(&mut self) -> (bit: Option<bool>)
        requires
            old(self).wf(),
        ensures
            final(self).wf(),
            old(self).unread().len() == 0 ==> bit is None
                && final(self).unread() == old(self).unread(),
            old(self).unread().len() > 0 ==> bit == Some(old(self).unread()[0])
                && final(self).unread() == old(self).unread().drop_first(),
            final(self).all_bits() == old(self).all_bits(),
            bit == nth_read(old(self).all_bits(), old(self).read_count()),
            final(self).read_count() == if old(self).read_count() < old(self).all_bits().len() {
                (old(self).read_count() + 1) as nat
            } else {
                old(self).read_count()
            },
    {
        let ghost all = self.all_bits();
        let ghost rc = self.read_count();
        let ghost start = self.unread();
        let ghost b0 = self.bytes@;
        let ghost bp0 = self.byte_pos;
        if self.nbits == 0 {
            if self.byte_pos >= self.bytes.len() {
                proof {
                    assert(self.bytes@.skip(self.byte_pos as int) =~= Seq::<u8>::empty());
                    assert(start =~= Seq::<bool>::empty());
                    assert(rc <= all.len());
                    assert(start.len() == all.len() - rc);
                }
                return None;
            }
            proof {
                assert(low_bits(self.acc, 0) =~= Seq::<bool>::empty());
            }
            let mut count: u32 = 0;
            while count < 8 && self.byte_pos < self.bytes.len()
                invariant
                    count <= 8,
                    self.nbits == 0,
                    self.byte_pos <= self.bytes@.len(),
                    count == 0 ==> self.byte_pos < self.bytes@.len(),
                    self.bytes@ == b0,
                    self.byte_pos == bp0 + count,
                    low_bits(self.acc, 8 * count as nat) + bytes_bits(
                        self.bytes@.skip(self.byte_pos as int),
                    ) == start,
                decreases 8 - count,
            {
                let ghost old_acc = self.acc;
                let ghost pos = self.byte_pos;
                let b = self.bytes[self.byte_pos];
                self.acc = (self.acc << 8) | b as u64;
                self.byte_pos += 1;
                count += 1;
                proof {
                    assert((b as u64) >> 8u64 == 0) by (bit_vector);
                    lemma_low_bits_shl_or(old_acc, b as u64, 8 * (count - 1) as nat, 8);
                    lemma_bytes_bits_skip(self.bytes@, pos as int);
                    assert(8 * (count - 1) as nat + 8 == 8 * count as nat);
                    assert(low_bits(self.acc, 8 * count as nat) + bytes_bits(
                        self.bytes@.skip(self.byte_pos as int),
                    ) =~= start);
                }
            }
            self.nbits = count * 8;
        }
        proof {
            assert(self.nbits > 0);
        }
        self.nbits -= 1;
        let bit = (self.acc >> self.nbits) & 1 == 1;
        proof {
            assert(low_bits(self.acc, (self.nbits + 1) as nat) =~= seq![bit] + low_bits(
                self.acc,
                self.nbits as nat,
            ));
            assert(self.unread() =~= start.drop_first());
            assert(self.bytes@ == b0);
            assert(self.read_count() == rc + 1);
            assert(rc <= all.len());
            assert(start[0] == all[rc as int]);
            assert(start.drop_first() =~= all.skip(rc + 1int));
        }
        Some(bit)
    }
}

} // verus!
