//! The four storage formats of the source ids in an encoding vector.
//!
//! | Wire value | Format            | Description                              |
//! |:----------:|:-----------------:|:-----------------------------------------|
//! | 0          | Contiguous        | the range from the first id              |
//! | 1          | UncompressedEdges | block boundaries, 32 bits each           |
//! | 2          | CompressedList    | the difference of every id to the last   |
//! | 3          | CompressedEdges   | differences of block boundaries, 16 bits |
//!
//! The first id itself stands outside of the stored field.
use vstd::prelude::*;

use crate::error::{DelpError, Result};
use crate::wire::be;
use crate::wire::be::{push_u32, read_u32};
use crate::wire::ev::bits;
use crate::wire::ev::bits::{BitReader, BitWriter};

verus! {

/// How the source ids of an encoding vector are stored.
#[derive(Debug, Clone, Copy, PartialEq, Eq, Structural)]
pub enum IdStorageFormat {
    /// A contiguous range from the first id.
    Contiguous,
    /// Block boundaries as 32-bit offsets from the first id.
    UncompressedEdges,
    /// A 16-bit difference per id.
    CompressedList,
    /// 16-bit differences of block boundaries.
    CompressedEdges,
}

/// The ids follow each other without a gap.
pub open spec fn contiguous(ids: Seq<u32>) -> bool {
    forall|i: int| 0 < i < ids.len() ==> #[trigger] ids[i] == next_id(ids[i - 1])
}

/// The id after `id`.
pub open spec fn next_id(id: u32) -> u32 {
    wrap(id + 1)
}

/// A number modulo the size of the id space.
#[verifier::opaque]
pub open spec fn wrap(v: int) -> u32 {
    (v % 0x1_0000_0000) as u32
}

/// The id `n` places after `id`.
pub(crate) fn id_after(id: u32, n: u32) -> (r: u32)
    ensures
        r == wrap(id + n),
{
    reveal(wrap);
    id.wrapping_add(n)
}

/// How many places `id` is after `base`.
pub(crate) fn id_distance(id: u32, base: u32) -> (r: u32)
    ensures
        r == wrap(id - base),
{
    reveal(wrap);
    id.wrapping_sub(base)
}

/// The number of an id in the id space is the id.
pub proof fn lemma_wrap(id: u32)
    ensures
        wrap(id as int) == id,
{
    reveal(wrap);
}

/// Ids before the last one are followed by the next number.
pub proof fn lemma_next_id(id: u32)
    requires
        id < u32::MAX,
    ensures
        next_id(id) == id + 1,
{
    reveal(wrap);
}

/// Numbers may be brought into the id space early.
pub proof fn lemma_wrap_add(a: int, b: int)
    ensures
        wrap(wrap(a) + b) == wrap(a + b),
        wrap(a + wrap(b)) == wrap(a + b),
{
    reveal(wrap);
}

impl IdStorageFormat {
    /// The two-bit number of a format.
    pub open spec fn number(self) -> u8 {
        match self {
            Self::Contiguous => 0,
            Self::UncompressedEdges => 1,
            Self::CompressedList => 2,
            Self::CompressedEdges => 3,
        }
    }

    /// The one of two formats that holds a list of ids in fewer bytes.
    pub open spec fn shorter(self, other: Self, ids: Seq<u32>) -> Self {
        if storable(ids, other) && !(storable(ids, self) && stored(ids, self).len() <= stored(
            ids,
            other,
        ).len()) {
            other
        } else {
            self
        }
    }

    /// The format that is chosen for a list of ids: nothing is stored for a
    /// contiguous range, and as little as possible for any other list.
    pub open spec fn chosen(ids: Seq<u32>) -> Self {
        if contiguous(ids) {
            Self::Contiguous
        } else {
            Self::CompressedList.shorter(Self::CompressedEdges, ids).shorter(
                Self::UncompressedEdges,
                ids,
            )
        }
    }

    /// The format with the number in the low two bits of `v`.
    pub fn from_wire(v: u8) -> (r: Result<Self>)
        ensures
            r is Ok,
            r->Ok_0.number() == v % 4,
    {
        let low: u8 = v % 4;
        if low == 0 {
            Ok(Self::Contiguous)
        } else if low == 1 {
            Ok(Self::UncompressedEdges)
        } else if low == 2 {
            Ok(Self::CompressedList)
        } else {
            Ok(Self::CompressedEdges)
        }
    }

    /// The number of the format.
    pub fn wire_value(self) -> (r: u8)
        ensures
            r == self.number(),
            r < 4,
    {
        match self {
            Self::Contiguous => 0,
            Self::UncompressedEdges => 1,
            Self::CompressedList => 2,
            Self::CompressedEdges => 3,
        }
    }

    /// The format that takes the fewest bytes among those that can hold a list of
    /// ids.
    pub fn best_for(ids: &[u32]) -> (r: Self)
        ensures
            r == Self::chosen(ids@),
            forall|g: Self| #[trigger]
                storable(ids@, g) ==> storable(ids@, r) && stored(ids@, r).len() <= stored(
                    ids@,
                    g,
                ).len(),
    {
        proof {
            lemma_chosen_shortest(ids@);
        }
        if is_contiguous(ids) {
            return Self::Contiguous;
        }
        let bs = to_blocks(ids);
        let n: u128 = ids.len() as u128;
        let m: u128 = bs.len() as u128;
        let list_len: u128 = 2 * (n - 1);
        let packed_len: u128 = 4 * m;
        let edges_len: u128 = 8 * m;
        proof {
            lemma_stored_len(ids@);
        }
        let list: bool = fits_list(ids);
        let edges: bool = fits_edges(ids);
        let packed: bool = edges && fits_packed(ids, &bs);
        let mut best = Self::CompressedList;
        let mut held: bool = list;
        let mut len: u128 = list_len;
        if packed && !(held && len <= packed_len) {
            best = Self::CompressedEdges;
            held = true;
            len = packed_len;
        }
        if edges && !(held && len <= edges_len) {
            best = Self::UncompressedEdges;
        }
        best
    }
}

/// Whether every id follows the one before it at a distance of 16 bits.
fn fits_list(ids: &[u32]) -> (r: bool)
    requires
        ids@.len() > 0,
    ensures
        r == storable(ids@, IdStorageFormat::CompressedList),
{
    let mut i: usize = 1;
    while i < ids.len()
        invariant
            1 <= i <= ids@.len(),
            forall|k: int| 0 < k < i ==> wrap((#[trigger] ids@[k]) - ids@[k - 1]) < 0x1_0000,
        decreases ids@.len() - i,
    {
        if id_distance(ids[i], ids[i - 1]) >= 0x1_0000 {
            assert(wrap(ids@[i as int] - ids@[i - 1]) >= 0x1_0000);
            return false;
        }
        i += 1;
    }
    true
}

/// Whether no block ends with the last id.
fn fits_edges(ids: &[u32]) -> (r: bool)
    requires
        ids@.len() > 0,
    ensures
        r == storable(ids@, IdStorageFormat::UncompressedEdges),
{
    let mut i: usize = 0;
    while i < ids.len()
        invariant
            i <= ids@.len(),
            forall|k: int| 0 <= k < i ==> #[trigger] ids@[k] < u32::MAX,
        decreases ids@.len() - i,
    {
        if ids[i] == u32::MAX {
            assert(ids@[i as int] == u32::MAX);
            return false;
        }
        i += 1;
    }
    true
}

/// Whether the gaps between the blocks and the blocks themselves are short enough
/// for 16 bits.
fn fits_packed(ids: &[u32], bs: &Vec<(u32, u32)>) -> (r: bool)
    requires
        storable(ids@, IdStorageFormat::UncompressedEdges),
        bs@ == blocks(ids@, ids@.len()),
    ensures
        r == storable(ids@, IdStorageFormat::CompressedEdges),
{
    let mut i: usize = 1;
    while i < ids.len()
        invariant
            1 <= i <= ids@.len(),
            forall|k: int|
                0 < k < i ==> wrap((#[trigger] ids@[k]) - next_id(ids@[k - 1])) < 0x1_0000,
        decreases ids@.len() - i,
    {
        if id_distance(ids[i], id_after(ids[i - 1], 1)) >= 0x1_0000 {
            assert(wrap(ids@[i as int] - next_id(ids@[i - 1])) >= 0x1_0000);
            return false;
        }
        i += 1;
    }
    let mut k: usize = 0;
    while k < bs.len()
        invariant
            k <= bs@.len(),
            bs@ == blocks(ids@, ids@.len()),
            forall|j: int| 0 <= j < k ==> wrap((#[trigger] bs@[j]).1 - bs@[j].0) < 0x1_0000,
        decreases bs@.len() - k,
    {
        if id_distance(bs[k].1, bs[k].0) >= 0x1_0000 {
            assert(wrap(
                blocks(ids@, ids@.len())[k as int].1 - blocks(ids@, ids@.len())[k as int].0,
            ) >= 0x1_0000);
            return false;
        }
        k += 1;
    }
    true
}

/// Whether the ids follow each other without a gap.
fn is_contiguous(ids: &[u32]) -> (r: bool)
    ensures
        r == contiguous(ids@),
{
    let mut i: usize = 1;
    while i < ids.len()
        invariant
            1 <= i,
            forall|k: int| 0 < k < i && k < ids@.len() ==> #[trigger] ids@[k] == next_id(ids@[k - 1]),
        decreases ids@.len() - i,
    {
        if ids[i] != id_after(ids[i - 1], 1) {
            assert(ids@[i as int] != next_id(ids@[i - 1]));
            return false;
        }
        i += 1;
    }
    true
}

// ── What is stored ───────────────────────────────────────────────────────

/// The differences between the first `n` ids, modulo 2^16.
pub open spec fn list_bytes(ids: Seq<u32>, n: nat) -> Seq<u8>
    decreases n,
{
    if n <= 1 {
        Seq::empty()
    } else {
        list_bytes(ids, (n - 1) as nat) + be::be16(
            (wrap(ids[n - 1] - ids[n - 2]) % 0x1_0000) as u16,
        )
    }
}

/// The blocks of contiguous ids among the first `n`: first id and the id after
/// the last.
pub open spec fn blocks(ids: Seq<u32>, n: nat) -> Seq<(u32, u32)>
    decreases n,
{
    if n == 0 {
        Seq::empty()
    } else {
        let b = blocks(ids, (n - 1) as nat);
        let id = ids[n - 1];
        if n > 1 && id == next_id(ids[n - 2]) {
            b.drop_last().push((b.last().0, next_id(id)))
        } else {
            b.push((id, next_id(id)))
        }
    }
}

/// The boundaries of the first `n` blocks as offsets from `base`.
pub open spec fn edge_bytes(bs: Seq<(u32, u32)>, base: u32, n: nat) -> Seq<u8>
    decreases n,
{
    if n == 0 {
        Seq::empty()
    } else {
        edge_bytes(bs, base, (n - 1) as nat) + be::be32(wrap(bs[n - 1].0 - base)) + be::be32(
            wrap(bs[n - 1].1 - base),
        )
    }
}

/// The gap before and the length of each of the first `n` blocks, modulo 2^16.
pub open spec fn packed_edge_bytes(bs: Seq<(u32, u32)>, base: u32, n: nat) -> Seq<u8>
    decreases n,
{
    if n == 0 {
        Seq::empty()
    } else {
        let before = if n == 1 { base } else { bs[n - 2].1 };
        packed_edge_bytes(bs, base, (n - 1) as nat) + be::be16(
            (wrap(bs[n - 1].0 - before) % 0x1_0000) as u16,
        ) + be::be16((wrap(bs[n - 1].1 - bs[n - 1].0) % 0x1_0000) as u16)
    }
}

/// What is stored for a list of ids.
#[verifier::opaque]
pub open spec fn stored(ids: Seq<u32>, format: IdStorageFormat) -> Seq<u8> {
    let bs = blocks(ids, ids.len());
    match format {
        IdStorageFormat::Contiguous => Seq::empty(),
        IdStorageFormat::CompressedList => list_bytes(ids, ids.len()),
        IdStorageFormat::UncompressedEdges => edge_bytes(bs, ids[0], bs.len()),
        IdStorageFormat::CompressedEdges => packed_edge_bytes(bs, ids[0], bs.len()),
    }
}

/// Stores a list of ids, without padding.
pub fn encode(ids: &[u32], format: IdStorageFormat) -> (r: Vec<u8>)
    requires
        format == IdStorageFormat::Contiguous || ids@.len() > 0,
    ensures
        r@ == stored(ids@, format),
{
    reveal(stored);
    match format {
        IdStorageFormat::Contiguous => Vec::new(),
        IdStorageFormat::CompressedList => encode_compressed_list(ids),
        IdStorageFormat::UncompressedEdges => encode_uncompressed_edges(ids),
        IdStorageFormat::CompressedEdges => encode_compressed_edges(ids),
    }
}

fn encode_compressed_list(ids: &[u32]) -> (r: Vec<u8>)
    requires
        ids@.len() > 0,
    ensures
        r@ == list_bytes(ids@, ids@.len()),
{
    let mut writer = BitWriter::new();
    let mut i: usize = 1;
    assert(bits::bits_of(list_bytes(ids@, 1)) =~= Seq::<bool>::empty());
    while i < ids.len()
        invariant
            1 <= i <= ids@.len(),
            writer.wf(),
            writer@ == bits::bits_of(list_bytes(ids@, i as nat)),
        decreases ids@.len() - i,
    {
        let delta: u32 = id_distance(ids[i], ids[i - 1]);
        proof {
            bits::lemma_written_16(list_bytes(ids@, i as nat), delta);
        }
        writer.write_bits(delta, 16);
        i += 1;
    }
    let ghost written = writer@;
    let out = writer.finish();
    proof {
        bits::lemma_finished(written, out@, list_bytes(ids@, ids@.len()));
    }
    out
}

fn encode_uncompressed_edges(ids: &[u32]) -> (r: Vec<u8>)
    requires
        ids@.len() > 0,
    ensures
        r@ == edge_bytes(blocks(ids@, ids@.len()), ids@[0], blocks(ids@, ids@.len()).len()),
{
    let bs = to_blocks(ids);
    let base: u32 = ids[0];
    let mut out: Vec<u8> = Vec::new();
    let mut i: usize = 0;
    while i < bs.len()
        invariant
            i <= bs@.len(),
            out@ == edge_bytes(bs@, base, i as nat),
        decreases bs@.len() - i,
    {
        push_u32(&mut out, id_distance(bs[i].0, base));
        push_u32(&mut out, id_distance(bs[i].1, base));
        i += 1;
    }
    out
}

fn encode_compressed_edges(ids: &[u32]) -> (r: Vec<u8>)
    requires
        ids@.len() > 0,
    ensures
        r@ == packed_edge_bytes(
            blocks(ids@, ids@.len()),
            ids@[0],
            blocks(ids@, ids@.len()).len(),
        ),
{
    let bs = to_blocks(ids);
    let base: u32 = ids[0];
    let mut before: u32 = base;
    let mut writer = BitWriter::new();
    let mut i: usize = 0;
    assert(bits::bits_of(packed_edge_bytes(bs@, base, 0)) =~= Seq::<bool>::empty());
    while i < bs.len()
        invariant
            i <= bs@.len(),
            before == (if i == 0 { base } else { bs@[i - 1].1 }),
            writer.wf(),
            writer@ == bits::bits_of(packed_edge_bytes(bs@, base, i as nat)),
        decreases bs@.len() - i,
    {
        let d_start: u32 = id_distance(bs[i].0, before);
        let d_len: u32 = id_distance(bs[i].1, bs[i].0);
        proof {
            let so_far = packed_edge_bytes(bs@, base, i as nat);
            bits::lemma_written_16(so_far, d_start);
            bits::lemma_written_16(so_far + be::be16((d_start % 0x1_0000) as u16), d_len);
        }
        writer.write_bits(d_start, 16);
        writer.write_bits(d_len, 16);
        before = bs[i].1;
        i += 1;
    }
    let ghost written = writer@;
    let out = writer.finish();
    proof {
        bits::lemma_finished(written, out@, packed_edge_bytes(bs@, base, bs@.len()));
    }
    out
}

/// Splits a list of ids into blocks of contiguous ids.
fn to_blocks(ids: &[u32]) -> (r: Vec<(u32, u32)>)
    requires
        ids@.len() > 0,
    ensures
        r@ == blocks(ids@, ids@.len()),
{
    let mut out: Vec<(u32, u32)> = Vec::new();
    let mut start: u32 = ids[0];
    let mut prev: u32 = ids[0];
    let mut i: usize = 1;
    assert(blocks(ids@, 1) =~= Seq::empty().push((start, next_id(prev)))) by {
        reveal_with_fuel(blocks, 2);
    }
    while i < ids.len()
        invariant
            1 <= i <= ids@.len(),
            prev == ids@[i - 1],
            blocks(ids@, i as nat) == out@.push((start, next_id(prev))),
        decreases ids@.len() - i,
    {
        let id: u32 = ids[i];
        let ghost before = out@;
        let ghost b = blocks(ids@, i as nat);
        if id != id_after(prev, 1) {
            out.push((start, id_after(prev, 1)));
            start = id;
            assert(out@.push((start, next_id(id))) =~= b.push((id, next_id(id))));
        } else {
            assert(b.drop_last() =~= before);
        }
        prev = id;
        i += 1;
    }
    out.push((start, id_after(prev, 1)));
    out
}

// ── What is read ─────────────────────────────────────────────────────────

/// The `n` ids from `first` on.
pub open spec fn id_range(first: u32, n: nat) -> Seq<u32> {
    Seq::new(n, |i: int| wrap(first + i))
}

/// The first `n` ids of a list of differences.
pub open spec fn listed_ids(buf: Seq<u8>, first: u32, n: nat) -> Seq<u32>
    decreases n,
{
    if n == 0 {
        Seq::empty()
    } else if n == 1 {
        seq![first]
    } else {
        let ids = listed_ids(buf, first, (n - 1) as nat);
        ids.push(wrap(ids.last() + be::u16_at(buf, 2 * (n - 2))))
    }
}

/// The ids from `start` to before `end`; none where `end` is not above `start`.
pub open spec fn block_ids(start: u32, end: u32) -> Seq<u32> {
    Seq::new(if start < end { (end - start) as nat } else { 0 }, |i: int| (start + i) as u32)
}

/// The first `n` members of a sequence, or all of them.
pub open spec fn at_most(s: Seq<u32>, n: nat) -> Seq<u32> {
    if s.len() <= n { s } else { s.take(n as int) }
}

/// Reads blocks from offset `off` until there are `n` ids: the ids and the offset
/// behind the last block.
pub open spec fn edge_ids(
    buf: Seq<u8>,
    first: u32,
    n: nat,
    acc: Seq<u32>,
    off: nat,
) -> Option<(Seq<u32>, nat)>
    decreases buf.len() - off,
{
    if acc.len() >= n {
        Some((acc, off))
    } else if buf.len() < off + 8 {
        None
    } else {
        let start = wrap(first + be::u32_at(buf, off as int));
        let end = wrap(first + be::u32_at(buf, (off + 4) as int));
        edge_ids(buf, first, n, at_most(acc + block_ids(start, end), n), off + 8)
    }
}

/// Reads packed blocks from offset `off` until there are `n` ids; `pos` is the id
/// after the last block.
pub open spec fn packed_edge_ids(
    buf: Seq<u8>,
    pos: u32,
    n: nat,
    acc: Seq<u32>,
    off: nat,
) -> Option<(Seq<u32>, nat)>
    decreases buf.len() - off,
{
    if acc.len() >= n {
        Some((acc, off))
    } else if buf.len() < off + 4 {
        None
    } else {
        let start = wrap(pos + be::u16_at(buf, off as int));
        let end = wrap(start + be::u16_at(buf, (off + 2) as int));
        packed_edge_ids(buf, end, n, at_most(acc + block_ids(start, end), n), off + 4)
    }
}

/// What a stored field says: the ids and the number of bytes they take, or the
/// reason why it is malformed.
pub open spec fn loaded(
    buf: Seq<u8>,
    nb_ids: nat,
    first: u32,
    format: IdStorageFormat,
) -> core::result::Result<(Seq<u32>, nat), DelpError> {
    match format {
        IdStorageFormat::Contiguous => Ok((id_range(first, nb_ids), 0)),
        IdStorageFormat::CompressedList => if nb_ids == 0 || buf.len() < 2 * (nb_ids - 1) {
            Err(
                DelpError::MalformedEncodingVector { reason: "CompressedList buffer too short" },
            )
        } else {
            Ok((listed_ids(buf, first, nb_ids), (2 * (nb_ids - 1)) as nat))
        },
        IdStorageFormat::UncompressedEdges => match edge_ids(
            buf,
            first,
            nb_ids,
            Seq::empty(),
            0,
        ) {
            Some(r) => Ok(r),
            None => Err(
                DelpError::MalformedEncodingVector { reason: "UncompressedEdges truncated" },
            ),
        },
        IdStorageFormat::CompressedEdges => match packed_edge_ids(
            buf,
            first,
            nb_ids,
            Seq::empty(),
            0,
        ) {
            Some(r) => Ok(r),
            None => Err(
                DelpError::MalformedEncodingVector { reason: "CompressedEdges truncated" },
            ),
        },
    }
}

/// The ids and the length that a result of [`decode`] holds.
pub open spec fn decoded(r: Result<(Vec<u32>, usize)>) -> core::result::Result<
    (Seq<u32>, nat),
    DelpError,
> {
    match r {
        Ok(p) => Ok((p.0@, p.1 as nat)),
        Err(e) => Err(e),
    }
}

/// Reads a list of ids from a stored field.
///
/// Returns the ids and the number of bytes they take.
pub fn decode(buf: &[u8], nb_ids: usize, first_src_id: u32, format: IdStorageFormat) -> (r: Result<
    (Vec<u32>, usize),
>)
    ensures
        decoded(r) == loaded(buf@, nb_ids as nat, first_src_id, format),
        r matches Ok(p) ==> p.0@.len() == nb_ids && p.1 <= buf@.len(),
{
    match format {
        IdStorageFormat::Contiguous => {
            let mut ids: Vec<u32> = Vec::new();
            let mut next: u32 = first_src_id;
            let mut i: usize = 0;
            proof {
                lemma_wrap(first_src_id);
            }
            while i < nb_ids
                invariant
                    i <= nb_ids,
                    next == wrap(first_src_id + i),
                    ids@ == id_range(first_src_id, i as nat),
                decreases nb_ids - i,
            {
                ids.push(next);
                proof {
                    lemma_wrap_add(first_src_id + i, 1);
                }
                next = id_after(next, 1);
                i += 1;
                assert(ids@ =~= id_range(first_src_id, i as nat));
            }
            Ok((ids, 0))
        },
        IdStorageFormat::CompressedList => decode_compressed_list(buf, nb_ids, first_src_id),
        IdStorageFormat::UncompressedEdges => decode_uncompressed_edges(buf, nb_ids, first_src_id),
        IdStorageFormat::CompressedEdges => decode_compressed_edges(buf, nb_ids, first_src_id),
    }
}

fn decode_compressed_list(buf: &[u8], nb_ids: usize, first_src_id: u32) -> (r: Result<
    (Vec<u32>, usize),
>)
    ensures
        decoded(r) == loaded(
            buf@,
            nb_ids as nat,
            first_src_id,
            IdStorageFormat::CompressedList,
        ),
        r matches Ok(p) ==> p.0@.len() == nb_ids && p.1 <= buf@.len(),
{
    if nb_ids == 0 || buf.len() / 2 < nb_ids - 1 {
        return Err(
            DelpError::MalformedEncodingVector { reason: "CompressedList buffer too short" },
        );
    }
    let mut ids: Vec<u32> = Vec::new();
    ids.push(first_src_id);
    let mut reader = BitReader::new(buf);
    let mut prev: u32 = first_src_id;
    let mut i: usize = 1;
    assert(ids@ =~= listed_ids(buf@, first_src_id, 1));
    while i < nb_ids
        invariant
            1 <= i <= nb_ids,
            2 * (nb_ids - 1) <= buf@.len(),
            reader.wf(),
            reader.bytes() == buf@,
            reader.position() == 16 * (i - 1),
            ids@ == listed_ids(buf@, first_src_id, i as nat),
            ids@.len() == i,
            prev == ids@.last(),
        decreases nb_ids - i,
    {
        proof {
            bits::lemma_read_16(buf@, 2 * (i - 1));
        }
        let delta: u32 = reader.read_bits(16);
        prev = id_after(prev, delta);
        ids.push(prev);
        i += 1;
    }
    Ok((ids, reader.bytes_consumed()))
}

/// Appends the ids from `start` to before `end`, up to `n` ids in all.
fn push_block(ids: &mut Vec<u32>, start: u32, end: u32, n: usize)
    requires
        old(ids)@.len() <= n,
    ensures
        final(ids)@ == at_most(old(ids)@ + block_ids(start, end), n as nat),
        final(ids)@.len() <= n,
{
    let mut id: u32 = start;
    let ghost mut k: nat = 0;
    let ghost full = old(ids)@ + block_ids(start, end);
    while id < end && ids.len() < n
        invariant
            start <= id,
            id <= end || id == start,
            k == id - start,
            full == old(ids)@ + block_ids(start, end),
            ids@.len() == old(ids)@.len() + k,
            ids@.len() <= n,
            ids@ == full.take(ids@.len() as int),
            ids@.len() <= full.len(),
        decreases end - id,
    {
        ids.push(id);
        id += 1;
        proof {
            k = k + 1;
            assert(ids@ =~= full.take(ids@.len() as int));
        }
    }
    assert(ids@ =~= at_most(full, n as nat));
}

fn decode_uncompressed_edges(buf: &[u8], nb_ids: usize, first_src_id: u32) -> (r: Result<
    (Vec<u32>, usize),
>)
    ensures
        decoded(r) == loaded(
            buf@,
            nb_ids as nat,
            first_src_id,
            IdStorageFormat::UncompressedEdges,
        ),
        r matches Ok(p) ==> p.0@.len() == nb_ids && p.1 <= buf@.len(),
{
    let mut ids: Vec<u32> = Vec::new();
    let mut off: usize = 0;
    while ids.len() < nb_ids
        invariant
            ids@.len() <= nb_ids,
            off <= buf@.len(),
            edge_ids(buf@, first_src_id, nb_ids as nat, ids@, off as nat) == edge_ids(
                buf@,
                first_src_id,
                nb_ids as nat,
                Seq::empty(),
                0,
            ),
        decreases buf@.len() - off,
    {
        if buf.len() - off < 8 {
            return Err(
                DelpError::MalformedEncodingVector { reason: "UncompressedEdges truncated" },
            );
        }
        let start: u32 = id_after(first_src_id, read_u32(buf, off));
        let end: u32 = id_after(first_src_id, read_u32(buf, off + 4));
        push_block(&mut ids, start, end, nb_ids);
        off += 8;
    }
    Ok((ids, off))
}

fn decode_compressed_edges(buf: &[u8], nb_ids: usize, first_src_id: u32) -> (r: Result<
    (Vec<u32>, usize),
>)
    ensures
        decoded(r) == loaded(
            buf@,
            nb_ids as nat,
            first_src_id,
            IdStorageFormat::CompressedEdges,
        ),
        r matches Ok(p) ==> p.0@.len() == nb_ids && p.1 <= buf@.len(),
{
    let mut ids: Vec<u32> = Vec::new();
    let mut reader = BitReader::new(buf);
    let mut pos: u32 = first_src_id;
    let ghost mut off: nat = 0;
    while ids.len() < nb_ids
        invariant
            ids@.len() <= nb_ids,
            off <= buf@.len(),
            reader.wf(),
            reader.bytes() == buf@,
            reader.position() == 8 * off,
            packed_edge_ids(buf@, pos, nb_ids as nat, ids@, off) == packed_edge_ids(
                buf@,
                first_src_id,
                nb_ids as nat,
                Seq::empty(),
                0,
            ),
        decreases buf@.len() - off,
    {
        if reader.remaining_bits() < 32 {
            return Err(
                DelpError::MalformedEncodingVector { reason: "CompressedEdges truncated" },
            );
        }
        proof {
            bits::lemma_read_16(buf@, off as int);
            bits::lemma_read_16(buf@, (off + 2) as int);
        }
        let d_start: u32 = reader.read_bits(16);
        let d_len: u32 = reader.read_bits(16);
        let start: u32 = id_after(pos, d_start);
        let end: u32 = id_after(start, d_len);
        push_block(&mut ids, start, end, nb_ids);
        pos = end;
        proof {
            off = off + 4;
        }
    }
    Ok((ids, reader.bytes_consumed()))
}

// ── Laws ─────────────────────────────────────────────────────────────────

/// A format can hold a list of ids.
///
/// The formats with 16-bit fields hold only ids that are close enough to each
/// other, packed blocks must be short enough for such a field, and the formats by
/// blocks cannot end a block with the last id.
pub open spec fn storable(ids: Seq<u32>, format: IdStorageFormat) -> bool {
    &&& ids.len() > 0
    &&& match format {
        IdStorageFormat::Contiguous => contiguous(ids),
        IdStorageFormat::CompressedList => forall|i: int|
            0 < i < ids.len() ==> wrap((#[trigger] ids[i]) - ids[i - 1]) < 0x1_0000,
        IdStorageFormat::UncompressedEdges => forall|i: int|
            0 <= i < ids.len() ==> #[trigger] ids[i] < u32::MAX,
        IdStorageFormat::CompressedEdges => {
            &&& forall|k: int|
                0 <= k < blocks(ids, ids.len()).len() ==> wrap(
                    (#[trigger] blocks(ids, ids.len())[k]).1 - blocks(ids, ids.len())[k].0,
                ) < 0x1_0000
            &&& forall|i: int| 0 <= i < ids.len() ==> #[trigger] ids[i] < u32::MAX
            &&& forall|i: int|
                0 < i < ids.len() ==> wrap((#[trigger] ids[i]) - next_id(ids[i - 1])) < 0x1_0000
        },
    }
}

pub proof fn lemma_contiguous_range(ids: Seq<u32>, i: int)
    requires
        contiguous(ids),
        0 <= i < ids.len(),
    ensures
        ids[i] == wrap(ids[0] + i),
    decreases i,
{
    if i == 0 {
        lemma_wrap(ids[0]);
    } else {
        lemma_contiguous_range(ids, i - 1);
        lemma_wrap_add(ids[0] + i - 1, 1);
    }
}

proof fn lemma_list_bytes(ids: Seq<u32>, n: nat, k: int)
    requires
        n <= ids.len(),
    ensures
        list_bytes(ids, n).len() == (if n <= 1 { 0 } else { 2 * (n - 1) }),
        0 < k < n ==> be::u16_at(list_bytes(ids, n), 2 * (k - 1)) == (wrap(ids[k] - ids[k - 1])
            % 0x1_0000) as u16,
    decreases n,
{
    if n > 1 {
        let pre = list_bytes(ids, (n - 1) as nat);
        let v = (wrap(ids[n - 1] - ids[n - 2]) % 0x1_0000) as u16;
        lemma_list_bytes(ids, (n - 1) as nat, k);
        be::lemma_be16(v);
        let s = list_bytes(ids, n);
        if k == n - 1 {
            be::lemma_u16_at_sub(s, be::be16(v), 2 * (k - 1), 0);
        } else if 0 < k < n {
            be::lemma_u16_at_sub(s, pre, 2 * (k - 1), 2 * (k - 1));
        }
    }
}

proof fn lemma_listed(ids: Seq<u32>, tail: Seq<u8>, n: nat)
    requires
        storable(ids, IdStorageFormat::CompressedList),
        1 <= n <= ids.len(),
    ensures
        listed_ids(list_bytes(ids, ids.len()) + tail, ids[0], n) == ids.take(n as int),
    decreases n,
{
    let all = list_bytes(ids, ids.len());
    let buf = all + tail;
    if n == 1 {
        assert(ids.take(1) =~= seq![ids[0]]);
    } else {
        lemma_listed(ids, tail, (n - 1) as nat);
        lemma_list_bytes(ids, ids.len(), n - 1);
        be::lemma_u16_at_sub(buf, all, 2 * (n - 2), 2 * (n - 2));
        let d = wrap(ids[n - 1] - ids[n - 2]);
        assert(d < 0x1_0000);
        lemma_wrap_add(ids[n - 2] as int, ids[n - 1] - ids[n - 2]);
        lemma_wrap(ids[n - 1]);
        assert(ids.take(n - 1).last() == ids[n - 2]);
        assert(ids.take(n as int) =~= ids.take(n - 1).push(ids[n - 1]));
    }
}

/// The ids of the first `n` blocks.
spec fn flat(bs: Seq<(u32, u32)>, n: nat) -> Seq<u32>
    decreases n,
{
    if n == 0 {
        Seq::empty()
    } else {
        flat(bs, (n - 1) as nat) + block_ids(bs[n - 1].0, bs[n - 1].1)
    }
}

proof fn lemma_flat_prefix(bs: Seq<(u32, u32)>, cs: Seq<(u32, u32)>, n: nat)
    requires
        n <= bs.len(),
        n <= cs.len(),
        forall|i: int| 0 <= i < n ==> bs[i] == cs[i],
    ensures
        flat(bs, n) == flat(cs, n),
    decreases n,
{
    if n > 0 {
        lemma_flat_prefix(bs, cs, (n - 1) as nat);
    }
}

/// The blocks of a list hold the list, and none is empty.
proof fn lemma_blocks(ids: Seq<u32>, n: nat)
    requires
        n <= ids.len(),
        forall|i: int| 0 <= i < ids.len() ==> #[trigger] ids[i] < u32::MAX,
    ensures
        n > 0 ==> blocks(ids, n).len() > 0,
        n > 0 ==> blocks(ids, n)[0].0 == ids[0],
        n > 0 ==> blocks(ids, n).last().1 == ids[n - 1] + 1,
        forall|k: int| 0 <= k < blocks(ids, n).len() ==> (#[trigger] blocks(ids, n)[k]).0 < blocks(
            ids,
            n,
        )[k].1,
        flat(blocks(ids, n), blocks(ids, n).len()) == ids.take(n as int),
    decreases n,
{
    if n == 0 {
        assert(ids.take(0) =~= Seq::<u32>::empty());
    } else {
        let m = (n - 1) as nat;
        lemma_blocks(ids, m);
        let b = blocks(ids, m);
        let c = blocks(ids, n);
        let id = ids[n - 1];
        assert(next_id(id) == id + 1) by {
            reveal(wrap);
        }
        assert(ids.take(n as int) =~= ids.take(m as int).push(id));
        if n > 1 && id == next_id(ids[n - 2]) {
            assert(next_id(ids[n - 2]) == ids[n - 2] + 1) by {
                reveal(wrap);
            }
            let last = (b.len() - 1) as nat;
            lemma_flat_prefix(b, c, last);
            assert(block_ids(b.last().0, (id + 1) as u32) =~= block_ids(b.last().0, id).push(id));
            assert(flat(c, c.len()) =~= flat(b, b.len()).push(id));
        } else {
            lemma_flat_prefix(b, c, b.len());
            assert(block_ids(id, (id + 1) as u32) =~= seq![id]);
            assert(flat(c, c.len()) =~= flat(b, b.len()).push(id));
        }
    }
}

/// Blocks that are not empty hold ever more ids.
proof fn lemma_flat_grows(bs: Seq<(u32, u32)>, k: nat, n: nat)
    requires
        k <= n <= bs.len(),
        forall|i: int| 0 <= i < bs.len() ==> (#[trigger] bs[i]).0 < bs[i].1,
    ensures
        flat(bs, k).len() + (n - k) <= flat(bs, n).len(),
        flat(bs, n).take(flat(bs, k).len() as int) == flat(bs, k),
    decreases n - k,
{
    if k < n {
        lemma_flat_grows(bs, k, (n - 1) as nat);
        let a = flat(bs, (n - 1) as nat);
        assert(bs[n - 1].0 < bs[n - 1].1);
        assert(flat(bs, n).take(flat(bs, k).len() as int) =~= a.take(flat(bs, k).len() as int));
    } else {
        assert(flat(bs, n).take(flat(bs, n).len() as int) =~= flat(bs, n));
    }
}

proof fn lemma_edge_bytes(bs: Seq<(u32, u32)>, base: u32, n: nat, k: int)
    requires
        n <= bs.len(),
    ensures
        edge_bytes(bs, base, n).len() == 8 * n,
        0 <= k < n ==> be::u32_at(edge_bytes(bs, base, n), 8 * k) == wrap(bs[k].0 - base)
            && be::u32_at(edge_bytes(bs, base, n), 8 * k + 4) == wrap(bs[k].1 - base),
    decreases n,
{
    if n > 0 {
        let m = (n - 1) as nat;
        let pre = edge_bytes(bs, base, m);
        let s = edge_bytes(bs, base, n);
        let v = wrap(bs[m as int].0 - base);
        let w = wrap(bs[m as int].1 - base);
        lemma_edge_bytes(bs, base, m, k);
        be::lemma_be32(v);
        be::lemma_be32(w);
        if k == m {
            be::lemma_u32_at_sub(s, be::be32(v), 8 * k, 0);
            be::lemma_u32_at_sub(s, be::be32(w), 8 * k + 4, 0);
        } else if 0 <= k < m {
            be::lemma_u32_at_sub(s, pre, 8 * k, 8 * k);
            be::lemma_u32_at_sub(s, pre, 8 * k + 4, 8 * k + 4);
        }
    }
}

proof fn lemma_edge_ids(ids: Seq<u32>, tail: Seq<u8>, k: nat)
    requires
        storable(ids, IdStorageFormat::UncompressedEdges),
        k <= blocks(ids, ids.len()).len(),
    ensures
        edge_ids(
            stored(ids, IdStorageFormat::UncompressedEdges) + tail,
            ids[0],
            ids.len(),
            flat(blocks(ids, ids.len()), k),
            8 * k,
        ) == Some((ids, stored(ids, IdStorageFormat::UncompressedEdges).len())),
    decreases blocks(ids, ids.len()).len() - k,
{
    let bs = blocks(ids, ids.len());
    reveal(stored);
    let all = stored(ids, IdStorageFormat::UncompressedEdges);
    let buf = all + tail;
    let base = ids[0];
    lemma_blocks(ids, ids.len());
    assert(ids.take(ids.len() as int) =~= ids);
    lemma_edge_bytes(bs, base, bs.len(), k as int);
    lemma_flat_grows(bs, k, bs.len());
    if k < bs.len() {
        be::lemma_u32_at_sub(buf, all, 8 * k as int, 8 * k as int);
        be::lemma_u32_at_sub(buf, all, (8 * k + 4) as int, (8 * k + 4) as int);
        let b = bs[k as int];
        lemma_wrap_add(base as int, b.0 - base);
        lemma_wrap_add(base as int, b.1 - base);
        lemma_wrap(b.0);
        lemma_wrap(b.1);
        lemma_flat_grows(bs, k + 1, bs.len());
        assert(flat(bs, k + 1) == flat(bs, k) + block_ids(b.0, b.1));
        lemma_edge_ids(ids, tail, k + 1);
    }
}

proof fn lemma_packed_edge_bytes(bs: Seq<(u32, u32)>, base: u32, n: nat, k: int)
    requires
        n <= bs.len(),
    ensures
        packed_edge_bytes(bs, base, n).len() == 4 * n,
        0 <= k < n ==> be::u16_at(packed_edge_bytes(bs, base, n), 4 * k) == (wrap(
            bs[k].0 - (if k == 0 { base } else { bs[k - 1].1 }),
        ) % 0x1_0000) as u16 && be::u16_at(packed_edge_bytes(bs, base, n), 4 * k + 2) == (wrap(
            bs[k].1 - bs[k].0,
        ) % 0x1_0000) as u16,
    decreases n,
{
    if n > 0 {
        let m = (n - 1) as nat;
        let pre = packed_edge_bytes(bs, base, m);
        let s = packed_edge_bytes(bs, base, n);
        let before = if n == 1 { base } else { bs[n - 2].1 };
        let v = (wrap(bs[m as int].0 - before) % 0x1_0000) as u16;
        let w = (wrap(bs[m as int].1 - bs[m as int].0) % 0x1_0000) as u16;
        lemma_packed_edge_bytes(bs, base, m, k);
        be::lemma_be16(v);
        be::lemma_be16(w);
        if k == m {
            be::lemma_u16_at_sub(s, be::be16(v), 4 * k, 0);
            be::lemma_u16_at_sub(s, be::be16(w), 4 * k + 2, 0);
        } else if 0 <= k < m {
            be::lemma_u16_at_sub(s, pre, 4 * k, 4 * k);
            be::lemma_u16_at_sub(s, pre, 4 * k + 2, 4 * k + 2);
        }
    }
}

/// The gaps between the blocks are the gaps between ids.
proof fn lemma_block_gaps(ids: Seq<u32>, n: nat)
    requires
        n <= ids.len(),
        storable(ids, IdStorageFormat::CompressedEdges),
    ensures
        forall|k: int|
            0 < k < blocks(ids, n).len() ==> wrap(
                (#[trigger] blocks(ids, n)[k]).0 - blocks(ids, n)[k - 1].1,
            ) < 0x1_0000,
    decreases n,
{
    if n > 0 {
        let m = (n - 1) as nat;
        lemma_block_gaps(ids, m);
        lemma_blocks(ids, m);
        let b = blocks(ids, m);
        let c = blocks(ids, n);
        let id = ids[n - 1];
        if n > 1 {
            assert(next_id(ids[n - 2]) == ids[n - 2] + 1) by {
                reveal(wrap);
            }
            assert(wrap(ids[n - 1] - next_id(ids[n - 2])) < 0x1_0000);
        }
        assert forall|k: int| 0 < k < c.len() implies wrap((#[trigger] c[k]).0 - c[k - 1].1)
            < 0x1_0000 by {
            if k < b.len() {
                assert(wrap(b[k].0 - b[k - 1].1) < 0x1_0000);
                assert(c[k - 1] == b[k - 1]);
                assert(c[k].0 == b[k].0);
            } else {
                assert(c[k - 1] == b.last());
            }
        }
    }
}

/// A packed block is read back from the id before it.
proof fn lemma_packed_step(b: (u32, u32), pos: u32)
    requires
        wrap(b.0 - pos) < 0x1_0000,
        b.0 < b.1,
        b.1 - b.0 < 0x1_0000,
    ensures
        wrap(pos + (wrap(b.0 - pos) % 0x1_0000) as u16) == b.0,
        wrap(b.0 + (wrap(b.1 - b.0) % 0x1_0000) as u16) == b.1,
{
    lemma_wrap((b.1 - b.0) as u32);
    lemma_wrap_add(pos as int, b.0 - pos);
    lemma_wrap_add(b.0 as int, b.1 - b.0);
    lemma_wrap(b.0);
    lemma_wrap(b.1);
}

#[verifier::rlimit(40)]
proof fn lemma_packed_edge_ids(ids: Seq<u32>, tail: Seq<u8>, k: nat)
    requires
        storable(ids, IdStorageFormat::CompressedEdges),
        k <= blocks(ids, ids.len()).len(),
    ensures
        packed_edge_ids(
            stored(ids, IdStorageFormat::CompressedEdges) + tail,
            if k == 0 { ids[0] } else { blocks(ids, ids.len())[k - 1].1 },
            ids.len(),
            flat(blocks(ids, ids.len()), k),
            4 * k,
        ) == Some((ids, stored(ids, IdStorageFormat::CompressedEdges).len())),
    decreases blocks(ids, ids.len()).len() - k,
{
    let bs = blocks(ids, ids.len());
    reveal(stored);
    let all = stored(ids, IdStorageFormat::CompressedEdges);
    let buf = all + tail;
    let base = ids[0];
    lemma_blocks(ids, ids.len());
    lemma_block_gaps(ids, ids.len());
    assert(ids.take(ids.len() as int) =~= ids);
    lemma_packed_edge_bytes(bs, base, bs.len(), k as int);
    lemma_flat_grows(bs, k, bs.len());
    if k < bs.len() {
        be::lemma_u16_at_sub(buf, all, 4 * k as int, 4 * k as int);
        be::lemma_u16_at_sub(buf, all, (4 * k + 2) as int, (4 * k + 2) as int);
        let b = bs[k as int];
        let pos = if k == 0 { base } else { bs[k - 1].1 };
        assert(wrap(b.0 - pos) < 0x1_0000) by {
            if k == 0 {
                lemma_wrap(0);
            }
        }
        assert(b.0 < b.1);
        assert(wrap(b.1 - b.0) < 0x1_0000);
        lemma_wrap((b.1 - b.0) as u32);
        assert(block_ids(b.0, b.1).len() == b.1 - b.0);
        lemma_flat_grows(bs, k + 1, bs.len());
        assert(flat(bs, k + 1) == flat(bs, k) + block_ids(b.0, b.1));
        lemma_packed_step(b, pos);
        let start = wrap(pos + be::u16_at(buf, (4 * k) as int));
        let end = wrap(start + be::u16_at(buf, (4 * k + 2) as int));
        assert(start == b.0);
        assert(end == b.1);
        assert(at_most(flat(bs, k) + block_ids(start, end), ids.len()) == flat(bs, k + 1));
        lemma_packed_edge_ids(ids, tail, k + 1);
    }
}

/// Reading gives back what was stored, whatever follows the stored field.
pub proof fn lemma_storage_round_trip(ids: Seq<u32>, format: IdStorageFormat, tail: Seq<u8>)
    requires
        storable(ids, format),
    ensures
        loaded(stored(ids, format) + tail, ids.len(), ids[0], format) == Ok::<
            (Seq<u32>, nat),
            DelpError,
        >((ids, stored(ids, format).len())),
{
    reveal(stored);
    match format {
        IdStorageFormat::Contiguous => {
            assert forall|i: int| 0 <= i < ids.len() implies ids[i] == #[trigger] id_range(
                ids[0],
                ids.len(),
            )[i] by {
                lemma_contiguous_range(ids, i);
            }
            assert(id_range(ids[0], ids.len()) =~= ids);
        },
        IdStorageFormat::CompressedList => {
            lemma_listed(ids, tail, ids.len());
            lemma_list_bytes(ids, ids.len(), 0);
            assert(ids.take(ids.len() as int) =~= ids);
        },
        IdStorageFormat::UncompressedEdges => {
            lemma_edge_ids(ids, tail, 0);
        },
        IdStorageFormat::CompressedEdges => {
            lemma_packed_edge_ids(ids, tail, 0);
        },
    }
}

/// Every format but the contiguous range holds ascending ids before the last one,
/// where neighbours are less than 2^16 apart and no run has 2^16 ids or more.
pub proof fn lemma_ascending_storable(ids: Seq<u32>)
    requires
        ids.len() > 0,
        ids.last() < u32::MAX,
        forall|i: int, j: int| 0 <= i < j < ids.len() ==> ids[i] < ids[j],
        forall|i: int| 0 < i < ids.len() ==> (#[trigger] ids[i]) - ids[i - 1] < 0x1_0000,
        forall|i: int, j: int|
            0 <= i && j == i + 0xffff && j < ids.len() ==> #[trigger] ids[i] + 0xffff
                < #[trigger] ids[j],
    ensures
        storable(ids, IdStorageFormat::CompressedList),
        storable(ids, IdStorageFormat::UncompressedEdges),
        storable(ids, IdStorageFormat::CompressedEdges),
{
    let bs = blocks(ids, ids.len());
    assert forall|i: int| 0 <= i < ids.len() implies #[trigger] ids[i] < u32::MAX by {
        if i < ids.len() - 1 {
            assert(ids[i] < ids[ids.len() - 1]);
        }
    }
    assert forall|i: int| 0 < i < ids.len() implies wrap((#[trigger] ids[i]) - ids[i - 1])
        < 0x1_0000 && wrap(ids[i] - next_id(ids[i - 1])) < 0x1_0000 by {
        assert(ids[i - 1] < ids[i]);
        lemma_next_id(ids[i - 1]);
        lemma_wrap((ids[i] - ids[i - 1]) as u32);
        lemma_wrap((ids[i] - next_id(ids[i - 1])) as u32);
    }
    lemma_blocks(ids, ids.len());
    assert(ids.take(ids.len() as int) =~= ids);
    assert forall|k: int| 0 <= k < bs.len() implies wrap((#[trigger] bs[k]).1 - bs[k].0)
        < 0x1_0000 by {
        let b = bs[k];
        let off: int = flat(bs, k as nat).len() as int;
        lemma_wrap((b.1 - b.0) as u32);
        lemma_flat_grows(bs, (k + 1) as nat, bs.len());
        let part = flat(bs, (k + 1) as nat);
        assert(part == flat(bs, k as nat) + block_ids(b.0, b.1));
        if b.1 - b.0 >= 0x1_0000 {
            assert(part[off] == b.0);
            assert(part[off + 0xffff] == b.0 + 0xffff);
            assert(ids[off] == part[off]);
            assert(ids[off + 0xffff] == part[off + 0xffff]);
        }
    }
}

/// How many bytes the formats take.
proof fn lemma_stored_len(ids: Seq<u32>)
    requires
        ids.len() > 0,
    ensures
        stored(ids, IdStorageFormat::Contiguous).len() == 0,
        stored(ids, IdStorageFormat::CompressedList).len() == 2 * (ids.len() - 1),
        stored(ids, IdStorageFormat::CompressedEdges).len() == 4 * blocks(ids, ids.len()).len(),
        stored(ids, IdStorageFormat::UncompressedEdges).len() == 8 * blocks(ids, ids.len()).len(),
{
    reveal(stored);
    let bs = blocks(ids, ids.len());
    lemma_list_bytes(ids, ids.len(), 0);
    lemma_packed_edge_bytes(bs, ids[0], bs.len(), 0);
    lemma_edge_bytes(bs, ids[0], bs.len(), 0);
}

/// No format that can hold a list of ids takes fewer bytes than the chosen one.
pub proof fn lemma_chosen_shortest(ids: Seq<u32>)
    ensures
        forall|g: IdStorageFormat| #[trigger]
            storable(ids, g) ==> storable(ids, IdStorageFormat::chosen(ids)) && stored(
                ids,
                IdStorageFormat::chosen(ids),
            ).len() <= stored(ids, g).len(),
{
    assert forall|g: IdStorageFormat| #[trigger] storable(ids, g) implies storable(
        ids,
        IdStorageFormat::chosen(ids),
    ) && stored(ids, IdStorageFormat::chosen(ids)).len() <= stored(ids, g).len() by {
        lemma_stored_len(ids);
        let list = IdStorageFormat::CompressedList;
        let packed = IdStorageFormat::CompressedEdges;
        let edges = IdStorageFormat::UncompressedEdges;
        let best = list.shorter(packed, ids);
        assert(best.shorter(edges, ids) == best || best.shorter(edges, ids) == edges);
        match g {
            IdStorageFormat::Contiguous => {},
            IdStorageFormat::CompressedList => {},
            IdStorageFormat::CompressedEdges => {},
            IdStorageFormat::UncompressedEdges => {},
        }
    }
}

/// The chosen format holds ascending ids whose gaps fit 16 bits, in at most two
/// bytes per id.
pub proof fn lemma_chosen_format(ids: Seq<u32>)
    requires
        ids.len() > 0,
        forall|i: int|
            0 < i < ids.len() ==> ids[i - 1] < #[trigger] ids[i] && ids[i] - ids[i - 1] < 0x1_0000,
    ensures
        storable(ids, IdStorageFormat::chosen(ids)),
        stored(ids, IdStorageFormat::chosen(ids)).len() <= 2 * ids.len(),
{
    assert(storable(ids, IdStorageFormat::CompressedList)) by {
        assert forall|i: int| 0 < i < ids.len() implies wrap((#[trigger] ids[i]) - ids[i - 1])
            < 0x1_0000 by {
            lemma_wrap((ids[i] - ids[i - 1]) as u32);
        }
    }
    lemma_stored_len(ids);
    lemma_chosen_shortest(ids);
}

} // verus!
