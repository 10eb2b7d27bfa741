//! Big-endian integers in byte sequences.
use vstd::prelude::*;

verus! {

/// The two bytes of `v`, the high one first.
#[verifier::opaque]
pub open spec fn be16(v: u16) -> Seq<u8> {
    seq![(v / 256) as u8, (v % 256) as u8]
}

/// The four bytes of `v`, the high one first.
#[verifier::opaque]
pub open spec fn be32(v: u32) -> Seq<u8> {
    seq![
        (v / 0x100_0000) as u8,
        (v / 0x1_0000 % 256) as u8,
        (v / 256 % 256) as u8,
        (v % 256) as u8,
    ]
}

/// The 16-bit number at position `i`.
#[verifier::opaque]
pub open spec fn u16_at(s: Seq<u8>, i: int) -> u16 {
    (s[i] * 256 + s[i + 1]) as u16
}

/// The 32-bit number at position `i`.
#[verifier::opaque]
pub open spec fn u32_at(s: Seq<u8>, i: int) -> u32 {
    (s[i] * 0x100_0000 + s[i + 1] * 0x1_0000 + s[i + 2] * 256 + s[i + 3]) as u32
}

/// Reading gives back what was written.
pub proof fn lemma_be16(v: u16)
    ensures
        be16(v).len() == 2,
        u16_at(be16(v), 0) == v,
{
    reveal(be16);
    reveal(u16_at);
}

/// Reading gives back what was written.
pub proof fn lemma_be32(v: u32)
    ensures
        be32(v).len() == 4,
        u32_at(be32(v), 0) == v,
{
    reveal(be32);
    reveal(u32_at);
}

/// A number is read the same from a sequence and from a part of it.
pub proof fn lemma_u16_at_sub(s: Seq<u8>, t: Seq<u8>, i: int, j: int)
    requires
        0 <= i,
        0 <= j,
        i + 2 <= s.len(),
        j + 2 <= t.len(),
        s[i] == t[j],
        s[i + 1] == t[j + 1],
    ensures
        u16_at(s, i) == u16_at(t, j),
{
    reveal(u16_at);
}

/// A number is read the same from a sequence and from a part of it.
pub proof fn lemma_u32_at_sub(s: Seq<u8>, t: Seq<u8>, i: int, j: int)
    requires
        0 <= i,
        0 <= j,
        i + 4 <= s.len(),
        j + 4 <= t.len(),
        forall|k: int| 0 <= k < 4 ==> #[trigger] s[i + k] == t[j + k],
    ensures
        u32_at(s, i) == u32_at(t, j),
{
    reveal(u32_at);
    assert(s[i + 0] == t[j + 0]);
    assert(s[i + 1] == t[j + 1]);
    assert(s[i + 2] == t[j + 2]);
    assert(s[i + 3] == t[j + 3]);
}

/// Reading a number at the place where it was appended.
pub proof fn lemma_u32_at_append(pre: Seq<u8>, v: u32, post: Seq<u8>)
    ensures
        u32_at(pre + be32(v) + post, pre.len() as int) == v,
{
    let s = pre + be32(v) + post;
    lemma_be32(v);
    assert forall|k: int| 0 <= k < 4 implies #[trigger] s[pre.len() as int + k] == be32(v)[0
        + k] by {}
    lemma_u32_at_sub(s, be32(v), pre.len() as int, 0);
}

/// Appends a 16-bit number.
pub fn push_u16(out: &mut Vec<u8>, v: u16)
    ensures
        final(out)@ == old(out)@ + be16(v),
        be16(v).len() == 2,
{
    reveal(be16);
    out.push((v / 256) as u8);
    out.push((v % 256) as u8);
    assert(out@ =~= old(out)@ + be16(v));
}

/// Appends a 32-bit number.
pub fn push_u32(out: &mut Vec<u8>, v: u32)
    ensures
        final(out)@ == old(out)@ + be32(v),
        be32(v).len() == 4,
{
    reveal(be32);
    out.push((v / 0x100_0000) as u8);
    out.push((v / 0x1_0000 % 256) as u8);
    out.push((v / 256 % 256) as u8);
    out.push((v % 256) as u8);
    assert(out@ =~= old(out)@ + be32(v));
}

/// Reads the 16-bit number at position `i`.
pub fn read_u16(buf: &[u8], i: usize) -> (r: u16)
    requires
        i + 2 <= buf@.len(),
    ensures
        r == u16_at(buf@, i as int),
{
    reveal(u16_at);
    buf[i] as u16 * 256 + buf[i + 1] as u16
}

/// Reads the 32-bit number at position `i`.
pub fn read_u32(buf: &[u8], i: usize) -> (r: u32)
    requires
        i + 4 <= buf@.len(),
    ensures
        r == u32_at(buf@, i as int),
{
    reveal(u32_at);
    buf[i] as u32 * 0x100_0000 + buf[i + 1] as u32 * 0x1_0000 + buf[i + 2] as u32 * 256 + buf[i
        + 3] as u32
}

} // verus!
