//! Bit fields in byte sequences, the high bit first.
use vstd::arithmetic::power2::{lemma2_to64, lemma_pow2_unfold, pow2};
use vstd::prelude::*;

use crate::wire::be;

verus! {

/// Bit `k` of `v`, counted from the low end.
pub open spec fn bit_of(v: u32, k: int) -> bool {
    (v >> (k as u32)) & 1 == 1
}

/// The low `n` bits of `v`, the highest of them first.
pub open spec fn value_bits(v: u32, n: nat) -> Seq<bool> {
    Seq::new(n, |i: int| bit_of(v, n - 1 - i))
}

/// The bits of a byte sequence.
pub open spec fn bits_of(s: Seq<u8>) -> Seq<bool> {
    Seq::new(8 * s.len(), |i: int| bit_of(s[i / 8] as u32, 7 - i % 8))
}

/// The number that has these bits.
pub open spec fn value_of(bits: Seq<bool>) -> nat
    decreases bits.len(),
{
    if bits.len() == 0 {
        0
    } else {
        2 * value_of(bits.drop_last()) + (if bits.last() { 1nat } else { 0 })
    }
}

// ── Bits and bytes ───────────────────────────────────────────────────────

proof fn lemma_shift_in(byte: u8, bit: u8, k: u32, k1: u32)
    by (bit_vector)
    requires
        bit <= 1,
        k < 7,
        k1 == k + 1,
    ensures
        ((((byte << 1u8) | bit) as u32) >> k1) & 1 == ((byte as u32) >> k) & 1,
        ((((byte << 1u8) | bit) as u32) >> 0u32) & 1 == bit as u32,
{
}

proof fn lemma_shift_up(byte: u8, q: u8, k: u32, k1: u32)
    by (bit_vector)
    requires
        k1 == k + (q as u32),
        k1 < 8u32,
    ensures
        (((byte << q) as u32) >> k1) & 1 == ((byte as u32) >> k) & 1,
{
}

proof fn lemma_shift_up_zero(byte: u8, q: u8, k: u32)
    by (bit_vector)
    requires
        q < 8u8,
        k < (q as u32),
    ensures
        (((byte << q) as u32) >> k) & 1 == 0u32,
{
}

proof fn lemma_append_bit(v: u32, bit: u32)
    by (bit_vector)
    requires
        v < 0x8000_0000,
        bit <= 1,
    ensures
        (v << 1u32) | bit == 2 * v + bit,
{
}

proof fn lemma_low_bit(v: u32)
    by (bit_vector)
    ensures
        v == 2 * (v >> 1u32) + (v & 1),
        v >> 0u32 == v,
        v & 1 <= 1,
{
}

proof fn lemma_shifts(v: u32, k: u32, k1: u32)
    by (bit_vector)
    requires
        k < 31,
        k1 == k + 1,
    ensures
        (v >> 1u32) >> k == v >> k1,
{
}

proof fn lemma_high_byte(v: u32, k: u32, k1: u32)
    by (bit_vector)
    requires
        k < 8,
        k1 == k + 8,
    ensures
        ((v % 0x1_0000 / 256) >> k) & 1 == (v >> k1) & 1,
{
}

proof fn lemma_low_byte(v: u32, k: u32)
    by (bit_vector)
    requires
        k < 8,
    ensures
        ((v % 0x1_0000 % 256) >> k) & 1 == (v >> k) & 1,
{
}

proof fn lemma_byte_equal(a: u32, b: u32)
    by (bit_vector)
    requires
        a < 256,
        b < 256,
        (a >> 0u32) & 1 == (b >> 0u32) & 1,
        (a >> 1u32) & 1 == (b >> 1u32) & 1,
        (a >> 2u32) & 1 == (b >> 2u32) & 1,
        (a >> 3u32) & 1 == (b >> 3u32) & 1,
        (a >> 4u32) & 1 == (b >> 4u32) & 1,
        (a >> 5u32) & 1 == (b >> 5u32) & 1,
        (a >> 6u32) & 1 == (b >> 6u32) & 1,
        (a >> 7u32) & 1 == (b >> 7u32) & 1,
    ensures
        a == b,
{
}

/// A bit is zero or one.
proof fn lemma_bit_range(v: u32, k: u32)
    by (bit_vector)
    ensures
        (v >> k) & 1 == 0 || (v >> k) & 1 == 1,
{
}

/// Bytes with the same bits are the same.
proof fn lemma_bits_determine(a: Seq<u8>, b: Seq<u8>)
    requires
        bits_of(a) == bits_of(b),
    ensures
        a == b,
{
    assert(bits_of(a).len() == 8 * a.len() && bits_of(b).len() == 8 * b.len());
    assert forall|i: int| 0 <= i < a.len() implies #[trigger] a[i] == b[i] by {
        let x = a[i] as u32;
        let y = b[i] as u32;
        assert forall|k: u32| k < 8 implies (#[trigger] (x >> k)) & 1 == (y >> k) & 1 by {
            let j = 8 * i + 7 - k;
            assert(j / 8 == i && 7 - j % 8 == k);
            assert(bits_of(a)[j] == bit_of(x, k as int));
            assert(bits_of(b)[j] == bit_of(y, k as int));
            lemma_bit_range(x, k);
            lemma_bit_range(y, k);
        }
        assert((x >> 0u32) & 1 == (y >> 0u32) & 1);
        assert((x >> 1u32) & 1 == (y >> 1u32) & 1);
        assert((x >> 2u32) & 1 == (y >> 2u32) & 1);
        assert((x >> 3u32) & 1 == (y >> 3u32) & 1);
        assert((x >> 4u32) & 1 == (y >> 4u32) & 1);
        assert((x >> 5u32) & 1 == (y >> 5u32) & 1);
        assert((x >> 6u32) & 1 == (y >> 6u32) & 1);
        assert((x >> 7u32) & 1 == (y >> 7u32) & 1);
        lemma_byte_equal(x, y);
    }
    assert(a =~= b);
}

/// The bits of a sequence are the bits of its parts.
proof fn lemma_bits_append(a: Seq<u8>, b: Seq<u8>)
    ensures
        bits_of(a + b) == bits_of(a) + bits_of(b),
{
    assert forall|i: int| 0 <= i < 8 * (a.len() + b.len()) implies #[trigger] bits_of(a + b)[i]
        == (bits_of(a) + bits_of(b))[i] by {
        if i >= 8 * a.len() {
            let j = i - 8 * a.len();
            assert(j / 8 == i / 8 - a.len() && j % 8 == i % 8);
            assert((a + b)[i / 8] == b[j / 8]);
        }
    }
    assert(bits_of(a + b) =~= bits_of(a) + bits_of(b));
}

/// Sixteen bits are two bytes.
proof fn lemma_bits_16(v: u32)
    ensures
        value_bits(v, 16) == bits_of(be::be16((v % 0x1_0000) as u16)),
{
    let w = (v % 0x1_0000) as u16;
    reveal(be::be16);
    let s = be::be16(w);
    assert forall|i: int| 0 <= i < 16 implies #[trigger] value_bits(v, 16)[i] == bits_of(s)[i] by {
        let k = (7 - i % 8) as u32;
        if i < 8 {
            lemma_high_byte(v, k, (k + 8) as u32);
            assert(s[0] as u32 == v % 0x1_0000 / 256);
        } else {
            lemma_low_byte(v, k);
            assert(s[1] as u32 == v % 0x1_0000 % 256);
        }
    }
    assert(value_bits(v, 16) =~= bits_of(s));
}

/// A number is determined by its bits.
proof fn lemma_value(v: u32, n: nat)
    requires
        n <= 32,
        v < pow2(n),
    ensures
        value_of(value_bits(v, n)) == v,
    decreases n,
{
    lemma2_to64();
    lemma_low_bit(v);
    if n > 0 {
        let m = (n - 1) as nat;
        let half = v >> 1u32;
        lemma_pow2_unfold(n);
        lemma_value(half, m);
        let b = value_bits(v, n);
        assert forall|i: int| 0 <= i < m implies #[trigger] b.drop_last()[i] == value_bits(
            half,
            m,
        )[i] by {
            lemma_shifts(v, (m - 1 - i) as u32, (n - 1 - i) as u32);
        }
        assert(b.drop_last() =~= value_bits(half, m));
    }
}

/// Numbers with few bits are small.
proof fn lemma_value_bound(bits: Seq<bool>)
    ensures
        value_of(bits) < pow2(bits.len()),
    decreases bits.len(),
{
    lemma2_to64();
    if bits.len() > 0 {
        lemma_value_bound(bits.drop_last());
        lemma_pow2_unfold(bits.len());
    }
}

// ── Writing ──────────────────────────────────────────────────────────────

/// Writes bit fields one after the other.
pub(crate) struct BitWriter {
    buf: Vec<u8>,
    cur_byte: u8,
    bit_pos: u8,
}

impl BitWriter {
    /// The bits written so far.
    pub closed spec fn view(&self) -> Seq<bool> {
        bits_of(self.buf@) + value_bits(self.cur_byte as u32, self.bit_pos as nat)
    }

    /// The last byte is not complete.
    pub closed spec fn wf(&self) -> bool {
        self.bit_pos < 8
    }

    pub(crate) fn new() -> (r: Self)
        ensures
            r.wf(),
            r@ == Seq::<bool>::empty(),
    {
        let r = Self { buf: Vec::new(), cur_byte: 0, bit_pos: 0 };
        assert(r@ =~= Seq::<bool>::empty());
        r
    }

    /// Appends the low `nbits` bits of `value`.
    pub(crate) fn write_bits(&mut self, value: u32, nbits: u8)
        requires
            old(self).wf(),
            nbits <= 32,
        ensures
            final(self).wf(),
            final(self)@ == old(self)@ + value_bits(value, nbits as nat),
    {
        let ghost all = value_bits(value, nbits as nat);
        let mut i: u8 = nbits;
        assert(self@ =~= old(self)@ + all.take(0));
        while i > 0
            invariant
                i <= nbits <= 32,
                self.wf(),
                all == value_bits(value, nbits as nat),
                self@ == old(self)@ + all.take(nbits - i),
            decreases i,
        {
            let ghost before = self@;
            i -= 1;
            proof {
                lemma_bit_range(value, i as u32);
            }
            let bit: u8 = ((value >> (i as u32)) & 1) as u8;
            self.push_bit(bit);
            assert(all[nbits - i - 1] == (bit == 1));
            assert(all.take(nbits - i) =~= all.take(nbits - i - 1).push(bit == 1));
            assert(self@ =~= old(self)@ + all.take(nbits - i));
        }
        assert(all.take(nbits as int) =~= all);
    }

    fn push_bit(&mut self, bit: u8)
        requires
            old(self).wf(),
            bit <= 1,
        ensures
            final(self).wf(),
            final(self)@ == old(self)@.push(bit == 1),
    {
        let ghost byte = self.cur_byte;
        let ghost p = self.bit_pos;
        self.cur_byte = (self.cur_byte << 1u8) | bit;
        self.bit_pos = self.bit_pos + 1;
        let ghost full = self.cur_byte;
        proof {
            let a = value_bits(byte as u32, p as nat);
            let b = value_bits(full as u32, (p + 1) as nat);
            assert forall|i: int| 0 <= i <= p implies #[trigger] b[i] == a.push(bit == 1)[i] by {
                if i < p {
                    lemma_shift_in(byte, bit, (p - 1 - i) as u32, (p - i) as u32);
                } else {
                    lemma_shift_in(byte, bit, 0, 1);
                }
            }
            assert(b =~= a.push(bit == 1));
        }
        if self.bit_pos == 8 {
            let ghost before = self.buf@;
            self.buf.push(self.cur_byte);
            self.cur_byte = 0;
            self.bit_pos = 0;
            proof {
                lemma_bits_append(before, seq![full]);
                assert(self.buf@ =~= before + seq![full]);
                assert(bits_of(seq![full]) =~= value_bits(full as u32, 8));
            }
        }
        assert(self@ =~= old(self)@.push(bit == 1));
    }

    /// The bytes; zero bits fill up the last one.
    pub(crate) fn finish(self) -> (r: Vec<u8>)
        requires
            self.wf(),
        ensures
            r@.len() == (self@.len() + 7) / 8,
            forall|i: int|
                0 <= i < 8 * r@.len() ==> #[trigger] bits_of(r@)[i] == (i < self@.len()
                    && self@[i]),
    {
        let mut buf = self.buf;
        let ghost start = buf@;
        let p: u8 = self.bit_pos;
        if p > 0 {
            let last: u8 = self.cur_byte << (8 - p);
            buf.push(last);
            proof {
                lemma_bits_append(start, seq![last]);
                assert(buf@ =~= start + seq![last]);
                assert forall|i: int| 0 <= i < 8 * buf@.len() implies #[trigger] bits_of(buf@)[i]
                    == (i < self@.len() && self@[i]) by {
                    let j = i - 8 * start.len();
                    if 0 <= j < p {
                        lemma_shift_up(
                            self.cur_byte,
                            (8 - p) as u8,
                            (p - 1 - j) as u32,
                            (7 - j) as u32,
                        );
                        assert(j / 8 == 0 && j % 8 == j);
                        assert(bits_of(seq![last])[j] == bit_of(last as u32, 7 - j));
                    } else if j >= p {
                        lemma_shift_up_zero(self.cur_byte, (8 - p) as u8, (7 - j) as u32);
                        assert(j / 8 == 0 && j % 8 == j);
                        assert(bits_of(seq![last])[j] == bit_of(last as u32, 7 - j));
                    }
                }
            }
        }
        buf
    }
}

/// Whole bytes come out as they went in.
pub(crate) proof fn lemma_finished(w: Seq<bool>, r: Seq<u8>, s: Seq<u8>)
    requires
        w == bits_of(s),
        r.len() == (w.len() + 7) / 8,
        forall|i: int| 0 <= i < 8 * r.len() ==> #[trigger] bits_of(r)[i] == (i < w.len() && w[i]),
    ensures
        r == s,
{
    assert(bits_of(r) =~= bits_of(s));
    lemma_bits_determine(r, s);
}

/// Sixteen more bits are two more bytes.
pub(crate) proof fn lemma_written_16(s: Seq<u8>, v: u32)
    ensures
        bits_of(s + be::be16((v % 0x1_0000) as u16)) == bits_of(s) + value_bits(v, 16),
{
    lemma_bits_append(s, be::be16((v % 0x1_0000) as u16));
    lemma_bits_16(v);
}

// ── Reading ──────────────────────────────────────────────────────────────

/// The smaller number.
pub(crate) open spec fn least(a: nat, b: nat) -> nat {
    if a <= b {
        a
    } else {
        b
    }
}

/// Reads bit fields one after the other.
pub(crate) struct BitReader<'a> {
    buf: &'a [u8],
    byte_i: usize,
    bit_pos: u8,
}

impl<'a> BitReader<'a> {
    /// The bytes that are read.
    pub closed spec fn bytes(&self) -> Seq<u8> {
        self.buf@
    }

    /// The number of bits that have been read.
    pub closed spec fn position(&self) -> nat {
        (8 * self.byte_i + self.bit_pos) as nat
    }

    /// The reader stands inside the bytes or at their end.
    pub closed spec fn wf(&self) -> bool {
        &&& self.bit_pos < 8
        &&& self.byte_i <= self.buf@.len()
        &&& self.byte_i == self.buf@.len() ==> self.bit_pos == 0
    }

    pub(crate) fn new(buf: &'a [u8]) -> (r: Self)
        ensures
            r.wf(),
            r.bytes() == buf@,
            r.position() == 0,
    {
        Self { buf, byte_i: 0, bit_pos: 0 }
    }

    /// The next `nbits` bits as a number; fewer at the end of the bytes.
    pub(crate) fn read_bits(&mut self, nbits: u8) -> (r: u32)
        requires
            old(self).wf(),
            nbits <= 32,
        ensures
            final(self).wf(),
            final(self).bytes() == old(self).bytes(),
            final(self).position() == least(
                old(self).position() + nbits as nat,
                8 * old(self).bytes().len(),
            ),
            r == value_of(
                bits_of(old(self).bytes()).subrange(
                    old(self).position() as int,
                    final(self).position() as int,
                ),
            ),
    {
        let mut val: u32 = 0;
        let mut i: u8 = 0;
        let ghost bits = bits_of(self.buf@);
        let ghost start = self.position();
        assert(bits.subrange(start as int, start as int) =~= Seq::<bool>::empty());
        while i < nbits && self.byte_i < self.buf.len()
            invariant
                i <= nbits <= 32,
                self.wf(),
                self.buf == old(self).buf,
                bits == bits_of(self.buf@),
                start == old(self).position(),
                self.position() == start + i,
                self.position() <= 8 * self.buf@.len(),
                val == value_of(bits.subrange(start as int, (start + i) as int)),
            decreases nbits - i,
        {
            let ghost part = bits.subrange(start as int, (start + i) as int);
            let byte: u32 = self.buf[self.byte_i] as u32;
            let shift: u32 = 7 - self.bit_pos as u32;
            proof {
                lemma_bit_range(byte, shift);
                lemma_value_bound(part);
                lemma_small_value(part.len());
                let at = self.position() as int;
                assert(at / 8 == self.byte_i && at % 8 == self.bit_pos);
                assert(bits[at] == bit_of(byte, 7 - self.bit_pos));
                assert(bits.subrange(start as int, (start + i + 1) as int).drop_last() =~= part);
            }
            let bit: u32 = (byte >> shift) & 1;
            proof {
                lemma_append_bit(val, bit);
            }
            val = (val << 1u32) | bit;
            self.bit_pos = self.bit_pos + 1;
            if self.bit_pos == 8 {
                self.byte_i = self.byte_i + 1;
                self.bit_pos = 0;
            }
            i += 1;
        }
        val
    }

    /// The number of bytes that have been read, in part or as a whole.
    pub(crate) fn bytes_consumed(&self) -> (r: usize)
        requires
            self.wf(),
        ensures
            r == (self.position() + 7) / 8,
    {
        assert(self.buf@.len() == self.buf.len());
        if self.bit_pos > 0 {
            self.byte_i + 1
        } else {
            self.byte_i
        }
    }

    /// The number of bits that are left.
    pub(crate) fn remaining_bits(&self) -> (r: u128)
        requires
            self.wf(),
        ensures
            r == 8 * self.bytes().len() - self.position(),
    {
        (self.buf.len() - self.byte_i) as u128 * 8 - self.bit_pos as u128
    }
}

proof fn lemma_small_value(n: nat)
    requires
        n < 32,
    ensures
        pow2(n) <= 0x8000_0000,
    decreases 32 - n,
{
    lemma2_to64();
    if n < 31 {
        lemma_small_value(n + 1);
        lemma_pow2_unfold(n + 1);
    }
}

/// Sixteen bits at the start of a byte are a 16-bit number.
pub(crate) proof fn lemma_read_16(s: Seq<u8>, i: int)
    requires
        0 <= i,
        i + 2 <= s.len(),
    ensures
        value_of(bits_of(s).subrange(8 * i, 8 * i + 16)) == be::u16_at(s, i),
{
    let v = be::u16_at(s, i);
    reveal(be::u16_at);
    reveal(be::be16);
    lemma_bits_16(v as u32);
    let two = be::be16(v);
    assert(two =~= seq![s[i], s[i + 1]]);
    let part = bits_of(s).subrange(8 * i, 8 * i + 16);
    assert forall|j: int| 0 <= j < 16 implies #[trigger] part[j] == bits_of(two)[j] by {
        let k = 8 * i + j;
        assert(k / 8 == i + j / 8 && k % 8 == j % 8);
        assert(s[k / 8] == two[j / 8]);
    }
    assert(part =~= value_bits(v as u32, 16));
    lemma2_to64();
    lemma_value(v as u32, 16);
}

} // verus!
