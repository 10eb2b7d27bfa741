//! How ids and bits are laid out in bytes.
use vstd::prelude::*;

use crate::error::DelpError;
use crate::gf::algebra;
use crate::wire::be;
use crate::wire::ev::bits;
use crate::wire::ev::id_storage;
use crate::wire::ev::id_storage::IdStorageFormat;
use crate::wire::ev::EvModel;
use crate::wire::laws as layout;

verus! {

// ── Bits ─────────────────────────────────────────────────────────────────

/// What is written as bits is read back: the bits of a number spell the number, the
/// most significant one first.
pub proof fn lemma_bits_read(v: u32, n: nat)
    requires
        n <= 32,
        n < 32 ==> v < vstd::arithmetic::power2::pow2(n),
    ensures
        bits::value_bits(v, n).len() == n,
        bits::value_of(bits::value_bits(v, n)) == v,
        n > 0 ==> (bits::value_bits(v, n).last() <==> v % 2 == 1),
    decreases n,
{
    if n == 0 {
        vstd::arithmetic::power2::lemma2_to64();
    } else {
        let b = bits::value_bits(v, n);
        let half = v / 2;
        let k = (n - 1) as nat;
        assert((v >> 0u32) & 1 == v % 2) by (bit_vector);
        assert(b.last() <==> v % 2 == 1);
        if n < 32 {
            vstd::arithmetic::power2::lemma_pow2_unfold(n);
        }
        if k == 31 {
            vstd::arithmetic::power2::lemma2_to64();
        }
        assert(b.drop_last() =~= bits::value_bits(half, k)) by {
            assert forall|i: int| 0 <= i < k implies #[trigger] b.drop_last()[i]
                == bits::value_bits(half, k)[i] by {
                let j = (k - 1 - i) as u32;
                assert((v >> ((j + 1) as u32)) & 1 == (half >> j) & 1) by (bit_vector)
                    requires
                        j < 31,
                        half == v / 2,
                ;
            }
        }
        lemma_bits_read(half, k);
    }
}

// ── Ids ──────────────────────────────────────────────────────────────────

/// The distance from `a` to `b`, counted forwards around the ids.
pub open spec fn distance(a: u32, b: u32) -> int {
    (b - a) % 0x1_0000_0000
}

/// A run of consecutive ids starts at place `i`.
pub open spec fn starts(ids: Seq<u32>, i: int) -> bool {
    i == 0 || distance(ids[i - 1], ids[i]) != 1
}

/// A run of consecutive ids ends at place `i`.
pub open spec fn ends(ids: Seq<u32>, i: int) -> bool {
    i == ids.len() - 1 || starts(ids, i + 1)
}

/// The number of runs that start before place `n`.
pub open spec fn runs(ids: Seq<u32>, n: nat) -> nat
    decreases n,
{
    if n == 0 {
        0
    } else {
        runs(ids, (n - 1) as nat) + (if starts(ids, n - 1) { 1nat } else { 0 })
    }
}

/// Two ids follow each other where the distance is one.
proof fn lemma_follows(a: u32, b: u32)
    ensures
        b == id_storage::next_id(a) <==> distance(a, b) == 1,
        id_storage::wrap(b - a) == distance(a, b),
{
    id_storage::lemma_wrap(a);
    reveal(id_storage::wrap);
    let d = distance(a, b);
    assert(0 <= d < 0x1_0000_0000);
    assert(d as u32 == d);
    let n = (a + 1) % 0x1_0000_0000;
    assert(0 <= n < 0x1_0000_0000);
    assert(n as u32 == n);
}

/// Ids without a gap need no bytes.
pub proof fn lemma_stored_contiguous(ids: Seq<u32>)
    ensures
        id_storage::stored(ids, IdStorageFormat::Contiguous).len() == 0,
        id_storage::storable(ids, IdStorageFormat::Contiguous) ==> forall|i: int|
            0 < i < ids.len() ==> distance(ids[i - 1], #[trigger] ids[i]) == 1,
{
    reveal(id_storage::stored);
    if id_storage::storable(ids, IdStorageFormat::Contiguous) {
        assert forall|i: int| 0 < i < ids.len() implies distance(ids[i - 1], #[trigger] ids[i])
            == 1 by {
            lemma_follows(ids[i - 1], ids[i]);
        }
    }
}

/// A list has two bytes for each id but the first, which say how far it is from the
/// one before.
pub proof fn lemma_stored_list(ids: Seq<u32>, i: int)
    requires
        id_storage::storable(ids, IdStorageFormat::CompressedList),
        0 < i < ids.len(),
    ensures
        ({
            let b = id_storage::stored(ids, IdStorageFormat::CompressedList);
            &&& b.len() == 2 * (ids.len() - 1)
            &&& b[2 * i - 2] * 256 + b[2 * i - 1] == distance(ids[i - 1], ids[i])
        }),
{
    reveal(id_storage::stored);
    lemma_list_bytes(ids, ids.len(), i);
    lemma_follows(ids[i - 1], ids[i]);
}

proof fn lemma_list_bytes(ids: Seq<u32>, n: nat, i: int)
    requires
        0 < i < n <= ids.len(),
    ensures
        ({
            let b = id_storage::list_bytes(ids, n);
            &&& b.len() == 2 * (n - 1)
            &&& b[2 * i - 2] * 256 + b[2 * i - 1] == id_storage::wrap(ids[i] - ids[i - 1])
                % 0x1_0000
        }),
    decreases n,
{
    let v = (id_storage::wrap(ids[n - 1] - ids[n - 2]) % 0x1_0000) as u16;
    layout::lemma_spelled_short(v, Seq::empty(), 0);
    let b = id_storage::list_bytes(ids, (n - 1) as nat);
    if n == 2 {
        assert(b.len() == 0);
        assert(id_storage::list_bytes(ids, n) =~= be::be16(v));
    } else if i < n - 1 {
        lemma_list_bytes(ids, (n - 1) as nat, i);
    } else {
        lemma_list_bytes(ids, (n - 1) as nat, i - 1);
    }
}

/// The blocks are the runs.
proof fn lemma_blocks(ids: Seq<u32>, n: nat)
    requires
        n <= ids.len(),
    ensures
        id_storage::blocks(ids, n).len() == runs(ids, n),
        n > 0 ==> runs(ids, n) > 0,
        n > 0 ==> id_storage::blocks(ids, n).last().1 == id_storage::next_id(ids[n - 1]),
        forall|i: int|
            0 <= i < n && #[trigger] starts(ids, i) ==> runs(ids, i as nat) < runs(ids, n)
                && id_storage::blocks(ids, n)[runs(ids, i as nat) as int].0 == ids[i],
        forall|i: int|
            0 <= i < n - 1 && #[trigger] starts(ids, i + 1) ==> 0 < runs(ids, (i + 1) as nat)
                <= runs(ids, n) && id_storage::blocks(ids, n)[runs(ids, (i + 1) as nat) - 1].1
                == id_storage::next_id(ids[i]),
    decreases n,
{
    if n > 0 {
        let k = (n - 1) as nat;
        lemma_blocks(ids, k);
        let b = id_storage::blocks(ids, k);
        let id = ids[n - 1];
        if n > 1 {
            lemma_follows(ids[n - 2], id);
        }
        assert forall|i: int|
            0 <= i < n && #[trigger] starts(ids, i) implies runs(ids, i as nat) < runs(ids, n)
            && id_storage::blocks(ids, n)[runs(ids, i as nat) as int].0 == ids[i] by {
            if i < k {
                assert(runs(ids, i as nat) < runs(ids, k));
            }
        }
        assert forall|i: int|
            0 <= i < n - 1 && #[trigger] starts(ids, i + 1) implies 0 < runs(ids, (i + 1) as nat)
            <= runs(ids, n) && id_storage::blocks(ids, n)[runs(ids, (i + 1) as nat) - 1].1
            == id_storage::next_id(ids[i]) by {
            if i == n - 2 {
                assert(runs(ids, (i + 1) as nat) == runs(ids, k));
                assert(b.last().1 == id_storage::next_id(ids[i]));
                assert(id_storage::blocks(ids, n) == b.push((id, id_storage::next_id(id))));
            } else {
                assert(0 <= i < k - 1);
                assert(0 < runs(ids, (i + 1) as nat) <= runs(ids, k));
                assert(starts(ids, i + 1));
                assert(runs(ids, (i + 1) as nat) < runs(ids, k));
            }
        }
    }
}

/// The number of the run that ends at place `i`.
pub open spec fn run_of(ids: Seq<u32>, i: int) -> int {
    runs(ids, (i + 1) as nat) - 1
}

/// Edges have eight bytes for each run: how far its first id is from the first id of
/// all, and how far the id behind its last one is.
pub proof fn lemma_stored_edges(ids: Seq<u32>, i: int)
    requires
        0 <= i < ids.len(),
    ensures
        ({
            let b = id_storage::stored(ids, IdStorageFormat::UncompressedEdges);
            let k = run_of(ids, i);
            &&& b.len() == 8 * runs(ids, ids.len())
            &&& 0 <= k < runs(ids, ids.len())
            &&& starts(ids, i) ==> layout::spelled(b, 8 * k) == distance(ids[0], ids[i])
            &&& ends(ids, i) ==> layout::spelled(b, 8 * k + 4) == (ids[i] + 1 - ids[0])
                % 0x1_0000_0000
        }),
{
    reveal(id_storage::stored);
    let n = ids.len();
    let bs = id_storage::blocks(ids, n);
    let k = run_of(ids, i);
    lemma_blocks(ids, n);
    lemma_run_of(ids, i, n);
    lemma_edge_bytes(bs, ids[0], bs.len(), k);
    lemma_follows(ids[0], ids[i]);
    if ends(ids, i) {
        assert(bs[k].1 == id_storage::next_id(ids[i])) by {
            if i < n - 1 {
                assert(starts(ids, i + 1));
            }
        }
        lemma_behind(ids[0], ids[i]);
    }
}

/// The distance to the id behind `b`.
proof fn lemma_behind(a: u32, b: u32)
    ensures
        id_storage::wrap(id_storage::next_id(b) - a) == (b + 1 - a) % 0x1_0000_0000,
{
    reveal(id_storage::wrap);
    let n = (b + 1) % 0x1_0000_0000;
    assert(0 <= n < 0x1_0000_0000);
    assert(n as u32 == n);
    let d = (b + 1 - a) % 0x1_0000_0000;
    assert(0 <= d < 0x1_0000_0000);
    assert(d as u32 == d);
    assert((n - a) % 0x1_0000_0000 == d);
}

proof fn lemma_run_of(ids: Seq<u32>, i: int, n: nat)
    requires
        0 <= i < n <= ids.len(),
    ensures
        0 <= run_of(ids, i) < runs(ids, n),
        starts(ids, i) ==> run_of(ids, i) == runs(ids, i as nat),
    decreases n,
{
    if i < n - 1 {
        lemma_run_of(ids, i, (n - 1) as nat);
    } else {
        lemma_blocks(ids, n);
    }
}

proof fn lemma_edge_bytes(bs: Seq<(u32, u32)>, base: u32, n: nat, k: int)
    requires
        0 <= k < n <= bs.len(),
    ensures
        ({
            let b = id_storage::edge_bytes(bs, base, n);
            &&& b.len() == 8 * n
            &&& layout::spelled(b, 8 * k) == id_storage::wrap(bs[k].0 - base)
            &&& layout::spelled(b, 8 * k + 4) == id_storage::wrap(bs[k].1 - base)
        }),
    decreases n,
{
    let b = id_storage::edge_bytes(bs, base, (n - 1) as nat);
    let x = id_storage::wrap(bs[n - 1].0 - base);
    let y = id_storage::wrap(bs[n - 1].1 - base);
    layout::lemma_spelled(x, Seq::empty(), 0);
    layout::lemma_spelled(y, Seq::empty(), 0);
    if n == 1 {
        assert(b.len() == 0);
    } else if k < n - 1 {
        lemma_edge_bytes(bs, base, (n - 1) as nat, k);
    } else {
        lemma_edge_bytes(bs, base, (n - 1) as nat, k - 1);
    }
}

/// Packed edges have four bytes for each run: how far its first id is behind the run
/// before, and how many ids it has.
pub proof fn lemma_stored_packed(ids: Seq<u32>, i: int, j: int)
    requires
        id_storage::storable(ids, IdStorageFormat::CompressedEdges),
        0 <= i <= j < ids.len(),
        starts(ids, i),
        ends(ids, j),
        run_of(ids, i) == run_of(ids, j),
    ensures
        ({
            let b = id_storage::stored(ids, IdStorageFormat::CompressedEdges);
            let k = run_of(ids, i);
            &&& b.len() == 4 * runs(ids, ids.len())
            &&& 0 <= k < runs(ids, ids.len())
            &&& b[4 * k] * 256 + b[4 * k + 1] == (if i == 0 {
                0
            } else {
                (ids[i] - ids[i - 1] - 1) % 0x1_0000_0000
            })
            &&& b[4 * k + 2] * 256 + b[4 * k + 3] == (ids[j] + 1 - ids[i]) % 0x1_0000_0000
        }),
{
    let n = ids.len();
    let b = id_storage::stored(ids, IdStorageFormat::CompressedEdges);
    let bs = id_storage::blocks(ids, n);
    let k = run_of(ids, i);
    lemma_run_blocks(ids, i, j);
    let before = if k == 0 { ids[0] } else { bs[k - 1].1 };
    assert(b.len() == 4 * bs.len() && b[4 * k] * 256 + b[4 * k + 1] == id_storage::wrap(
        bs[k].0 - before,
    ) % 0x1_0000 && b[4 * k + 2] * 256 + b[4 * k + 3] == id_storage::wrap(bs[k].1 - bs[k].0)
        % 0x1_0000) by {
        reveal(id_storage::stored);
        lemma_packed_bytes(bs, ids[0], bs.len(), k);
    }
    assert(id_storage::wrap(bs[k].1 - bs[k].0) == (ids[j] + 1 - ids[i]) % 0x1_0000_0000) by {
        lemma_behind(ids[i], ids[j]);
    }
    if i == 0 {
        lemma_follows(ids[0], ids[0]);
    } else {
        lemma_gap_of(ids[i - 1], ids[i]);
    }
}

/// The block of a run.
proof fn lemma_run_blocks(ids: Seq<u32>, i: int, j: int)
    requires
        id_storage::storable(ids, IdStorageFormat::CompressedEdges),
        0 <= i <= j < ids.len(),
        starts(ids, i),
        ends(ids, j),
        run_of(ids, i) == run_of(ids, j),
    ensures
        ({
            let bs = id_storage::blocks(ids, ids.len());
            let k = run_of(ids, i);
            &&& bs.len() == runs(ids, ids.len())
            &&& 0 <= k < bs.len()
            &&& bs[k].0 == ids[i]
            &&& bs[k].1 == id_storage::next_id(ids[j])
            &&& id_storage::wrap(bs[k].1 - bs[k].0) < 0x1_0000
            &&& i == 0 ==> k == 0
            &&& i > 0 ==> k > 0 && bs[k - 1].1 == id_storage::next_id(ids[i - 1])
                && id_storage::wrap(ids[i] - id_storage::next_id(ids[i - 1])) < 0x1_0000
        }),
{
    let n = ids.len();
    let bs = id_storage::blocks(ids, n);
    let k = run_of(ids, i);
    lemma_blocks(ids, n);
    lemma_run_of(ids, i, n);
    assert(bs[k].0 == ids[i]);
    assert(bs[k].1 == id_storage::next_id(ids[j])) by {
        if j < n - 1 {
            assert(starts(ids, j + 1));
        }
    }
    let _block = id_storage::blocks(ids, ids.len())[k];
    if i == 0 {
        assert(runs(ids, 0) == 0);
    } else {
        lemma_run_of(ids, i - 1, i as nat);
        assert(starts(ids, i - 1 + 1));
        assert(bs[k - 1].1 == id_storage::next_id(ids[i - 1]));
        let _id = ids[i];
    }
}

/// The ids between `a` and `b`.
proof fn lemma_gap_of(a: u32, b: u32)
    ensures
        id_storage::wrap(b - id_storage::next_id(a)) == (b - a - 1) % 0x1_0000_0000,
{
    reveal(id_storage::wrap);
    let n = (a + 1) % 0x1_0000_0000;
    assert(0 <= n < 0x1_0000_0000);
    assert(n as u32 == n);
    let d = (b - a - 1) % 0x1_0000_0000;
    assert(0 <= d < 0x1_0000_0000);
    assert(d as u32 == d);
    assert((b - n) % 0x1_0000_0000 == d);
}

proof fn lemma_packed_bytes(bs: Seq<(u32, u32)>, base: u32, n: nat, k: int)
    requires
        0 <= k < n <= bs.len(),
    ensures
        ({
            let b = id_storage::packed_edge_bytes(bs, base, n);
            let before = if k == 0 { base } else { bs[k - 1].1 };
            &&& b.len() == 4 * n
            &&& b[4 * k] * 256 + b[4 * k + 1] == id_storage::wrap(bs[k].0 - before) % 0x1_0000
            &&& b[4 * k + 2] * 256 + b[4 * k + 3] == id_storage::wrap(bs[k].1 - bs[k].0)
                % 0x1_0000
        }),
    decreases n,
{
    let b = id_storage::packed_edge_bytes(bs, base, (n - 1) as nat);
    let before = if n == 1 { base } else { bs[n - 2].1 };
    let x = (id_storage::wrap(bs[n - 1].0 - before) % 0x1_0000) as u16;
    let y = (id_storage::wrap(bs[n - 1].1 - bs[n - 1].0) % 0x1_0000) as u16;
    layout::lemma_spelled_short(x, Seq::empty(), 0);
    layout::lemma_spelled_short(y, Seq::empty(), 0);
    if n == 1 {
        assert(b.len() == 0);
    } else if k < n - 1 {
        lemma_packed_bytes(bs, base, (n - 1) as nat, k);
    } else {
        lemma_packed_bytes(bs, base, (n - 1) as nat, k - 1);
    }
}

/// Where ids can be stored: without a gap where each follows the one before, as a list
/// where no distance needs more than two bytes, and by edges where the last id of all
/// does not occur.
pub proof fn lemma_storable(ids: Seq<u32>)
    requires
        ids.len() > 0,
    ensures
        id_storage::storable(ids, IdStorageFormat::Contiguous) <==> forall|i: int|
            0 < i < ids.len() ==> distance(ids[i - 1], #[trigger] ids[i]) == 1,
        id_storage::storable(ids, IdStorageFormat::CompressedList) <==> forall|i: int|
            0 < i < ids.len() ==> distance(ids[i - 1], #[trigger] ids[i]) < 65536,
        id_storage::storable(ids, IdStorageFormat::UncompressedEdges) <==> !ids.contains(u32::MAX),
        id_storage::storable(ids, IdStorageFormat::CompressedEdges) ==> !ids.contains(u32::MAX),
{
    assert forall|i: int| 0 < i < ids.len() implies (#[trigger] ids[i] == id_storage::next_id(
        ids[i - 1],
    ) <==> distance(ids[i - 1], ids[i]) == 1) && id_storage::wrap(ids[i] - ids[i - 1]) == distance(
        ids[i - 1],
        ids[i],
    ) by {
        lemma_follows(ids[i - 1], ids[i]);
    }
    if !ids.contains(u32::MAX) {
        assert forall|i: int| 0 <= i < ids.len() implies #[trigger] ids[i] < u32::MAX by {
            assert(ids.contains(ids[i]));
        }
    }
}

/// A list is read exactly where there are ids and all of its bytes: each id is as far
/// from the one before as two bytes say.
pub proof fn lemma_list_read(buf: Seq<u8>, n: nat, first: u32, i: int)
    requires
        0 < i < n,
    ensures
        ({
            let r = id_storage::loaded(buf, n, first, IdStorageFormat::CompressedList);
            &&& r is Ok <==> buf.len() >= 2 * (n - 1)
            &&& r matches Ok(p) ==> p.1 == 2 * (n - 1) && p.0.len() == n && p.0[0] == first
                && distance(p.0[i - 1], p.0[i]) == buf[2 * i - 2] * 256 + buf[2 * i - 1]
        }),
{
    lemma_listed(buf, first, n, i);
}

proof fn lemma_listed(buf: Seq<u8>, first: u32, n: nat, i: int)
    requires
        0 <= i < n,
    ensures
        ({
            let ids = id_storage::listed_ids(buf, first, n);
            &&& ids.len() == n
            &&& ids[0] == first
            &&& i > 0 ==> distance(ids[i - 1], ids[i]) == buf[2 * i - 2] * 256 + buf[2 * i - 1]
        }),
    decreases n,
{
    if n > 1 {
        let k = (n - 1) as nat;
        lemma_listed(buf, first, k, if i < k { i } else { k - 1 });
        let d = be::u16_at(buf, 2 * (n - 2));
        layout::lemma_spelled_short(0, buf, 2 * (n - 2));
        let prev = id_storage::listed_ids(buf, first, k).last();
        reveal(id_storage::wrap);
        let next = (prev + d) % 0x1_0000_0000;
        assert(0 <= next < 0x1_0000_0000);
        assert(next as u32 == next);
        assert((next - prev) % 0x1_0000_0000 == d);
    }
}

/// Which format is chosen: none for ids without a gap, and otherwise the list, unless
/// one by edges is shorter or the list is not possible; of the two by edges the packed
/// one, unless the other is shorter or it is not possible.
pub proof fn lemma_chosen(ids: Seq<u32>)
    requires
        ids.len() > 0,
    ensures
        ({
            let list = IdStorageFormat::CompressedList;
            let packed = IdStorageFormat::CompressedEdges;
            let edges = IdStorageFormat::UncompressedEdges;
            let c = IdStorageFormat::chosen(ids);
            &&& id_storage::contiguous(ids) <==> c == IdStorageFormat::Contiguous
            &&& c == list && id_storage::storable(ids, list) ==> (id_storage::storable(ids, packed)
                ==> id_storage::stored(ids, list).len() <= id_storage::stored(ids, packed).len())
                && (id_storage::storable(ids, edges) ==> id_storage::stored(ids, list).len()
                <= id_storage::stored(ids, edges).len())
            &&& c == packed ==> id_storage::storable(ids, packed) && (id_storage::storable(
                ids,
                list,
            ) ==> id_storage::stored(ids, packed).len() < id_storage::stored(ids, list).len())
            &&& c == edges ==> id_storage::storable(ids, edges) && (id_storage::storable(ids, list)
                ==> id_storage::stored(ids, edges).len() < id_storage::stored(ids, list).len())
                && (id_storage::storable(ids, packed) ==> id_storage::stored(ids, edges).len()
                < id_storage::stored(ids, packed).len())
        }),
{
}

/// The coefficient of an id: the one that is given, or the Vandermonde coefficient
/// where none are given.
pub proof fn lemma_coefficient(v: EvModel, i: int)
    ensures
        v.coefs.len() > 0 ==> v.coef(i) == v.coefs[i],
        v.coefs.len() == 0 ==> v.coef(i) == algebra::alpha_pow(
            v.field,
            v.ids[i] as nat * v.coded_id as nat,
        ),
        v.wf() <==> v.coefs.len() == 0 || v.coefs.len() == v.ids.len(),
        v.complete() <==> v.coefs.len() == 0 || v.coefs.len() >= v.ids.len(),
{
}

/// The ids of a run from `start` up to `end`, which is left out.
pub open spec fn run_ids(start: int, end: int) -> Seq<u32> {
    Seq::new(if start < end { (end - start) as nat } else { 0 }, |i: int| (start + i) as u32)
}

/// No more than `n` of the ids.
pub open spec fn first_of(ids: Seq<u32>, n: nat) -> Seq<u32> {
    if ids.len() <= n { ids } else { ids.take(n as int) }
}

/// Edges are read run by run, eight bytes each, until there are enough ids; of the last
/// run only as many as are wanted are taken.  Where the bytes end before, they are
/// refused.
pub proof fn lemma_edges_read(buf: Seq<u8>, n: nat, first: u32)
    ensures
        ({
            let format = IdStorageFormat::UncompressedEdges;
            let r = id_storage::loaded(buf, n, first, format);
            let run = first_of(
                run_ids(
                    (first + layout::spelled(buf, 0)) % 0x1_0000_0000,
                    (first + layout::spelled(buf, 4)) % 0x1_0000_0000,
                ),
                n,
            );
            let rest = id_storage::loaded(buf.skip(8), (n - run.len()) as nat, first, format);
            &&& n == 0 ==> r == Ok::<(Seq<u32>, nat), DelpError>((Seq::empty(), 0))
            &&& n > 0 && buf.len() < 8 ==> r is Err
            &&& n > 0 && buf.len() >= 8 ==> (r is Ok <==> rest is Ok)
            &&& n > 0 && buf.len() >= 8 && r is Ok ==> r->Ok_0.0 == run + rest->Ok_0.0
                && r->Ok_0.1 == 8 + rest->Ok_0.1
        }),
{
    if n > 0 && buf.len() >= 8 {
        lemma_edge_run(buf, first, n);
        let run = id_storage::block_ids(
            id_storage::wrap(first + be::u32_at(buf, 0)),
            id_storage::wrap(first + be::u32_at(buf, 4)),
        );
        lemma_edges_on(buf, first, n, id_storage::at_most(run, n), 8);
        assert(Seq::<u32>::empty() + run =~= run);
    }
}

/// The run that the first eight bytes say.
proof fn lemma_edge_run(buf: Seq<u8>, first: u32, n: nat)
    ensures
        id_storage::at_most(
            id_storage::block_ids(
                id_storage::wrap(first + be::u32_at(buf, 0)),
                id_storage::wrap(first + be::u32_at(buf, 4)),
            ),
            n,
        ) == first_of(
            run_ids(
                (first + layout::spelled(buf, 0)) % 0x1_0000_0000,
                (first + layout::spelled(buf, 4)) % 0x1_0000_0000,
            ),
            n,
        ),
{
    layout::lemma_spelled(0, buf, 0);
    layout::lemma_spelled(0, buf, 4);
    lemma_block(first + layout::spelled(buf, 0), first + layout::spelled(buf, 4));
}

/// A block is a run.
proof fn lemma_block(a: int, b: int)
    ensures
        id_storage::block_ids(id_storage::wrap(a), id_storage::wrap(b)) == run_ids(
            a % 0x1_0000_0000,
            b % 0x1_0000_0000,
        ),
{
    reveal(id_storage::wrap);
    assert(0 <= a % 0x1_0000_0000 < 0x1_0000_0000);
    assert(0 <= b % 0x1_0000_0000 < 0x1_0000_0000);
    assert(id_storage::block_ids(id_storage::wrap(a), id_storage::wrap(b)) =~= run_ids(
        a % 0x1_0000_0000,
        b % 0x1_0000_0000,
    ));
}

/// What has been read is kept, and the rest is read as from the start.
proof fn lemma_edges_on(buf: Seq<u8>, first: u32, n: nat, acc: Seq<u32>, off: nat)
    requires
        acc.len() <= n,
        off <= buf.len(),
    ensures
        id_storage::edge_ids(buf, first, n, acc, off) == (match id_storage::edge_ids(
            buf.skip(off as int),
            first,
            (n - acc.len()) as nat,
            Seq::empty(),
            0,
        ) {
            Some(p) => Some((acc + p.0, off + p.1)),
            None => None,
        }),
    decreases buf.len() - off,
{
    let tail = buf.skip(off as int);
    let m = (n - acc.len()) as nat;
    let none = Seq::<u32>::empty();
    if acc.len() >= n {
        assert(acc + none =~= acc);
    } else if buf.len() >= off + 8 {
        be::lemma_u32_at_sub(buf, tail, off as int, 0);
        be::lemma_u32_at_sub(buf, tail, off as int + 4, 4);
        let run = id_storage::block_ids(
            id_storage::wrap(first + be::u32_at(buf, off as int)),
            id_storage::wrap(first + be::u32_at(buf, (off + 4) as int)),
        );
        let acc2 = id_storage::at_most(acc + run, n);
        let acc3 = id_storage::at_most(none + run, m);
        assert(acc2 =~= acc + acc3);
        lemma_edges_on(buf, first, n, acc2, off + 8);
        lemma_edges_on(tail, first, m, acc3, 8);
        assert(tail.skip(8) =~= buf.skip(off as int + 8));
        assert((n - acc2.len()) as nat == (m - acc3.len()) as nat);
        let r = id_storage::edge_ids(
            buf.skip(off as int + 8),
            first,
            (n - acc2.len()) as nat,
            none,
            0,
        );
        if let Some(p) = r {
            assert(acc2 + p.0 =~= acc + (acc3 + p.0));
        }
    }
}

/// Packed edges are read run by run, four bytes each: how far behind the run before it
/// the next one starts, and how many ids it has.
pub proof fn lemma_packed_read(buf: Seq<u8>, n: nat, first: u32)
    ensures
        ({
            let format = IdStorageFormat::CompressedEdges;
            let r = id_storage::loaded(buf, n, first, format);
            let start = (first + buf[0] * 256 + buf[1]) % 0x1_0000_0000;
            let end = (start + buf[2] * 256 + buf[3]) % 0x1_0000_0000;
            let run = first_of(run_ids(start, end), n);
            let rest = id_storage::loaded(
                buf.skip(4),
                (n - run.len()) as nat,
                end as u32,
                format,
            );
            &&& n == 0 ==> r == Ok::<(Seq<u32>, nat), DelpError>((Seq::empty(), 0))
            &&& n > 0 && buf.len() < 4 ==> r is Err
            &&& n > 0 && buf.len() >= 4 ==> (r is Ok <==> rest is Ok)
            &&& n > 0 && buf.len() >= 4 && r is Ok ==> r->Ok_0.0 == run + rest->Ok_0.0
                && r->Ok_0.1 == 4 + rest->Ok_0.1
        }),
{
    if n > 0 && buf.len() >= 4 {
        layout::lemma_spelled_short(0, buf, 0);
        layout::lemma_spelled_short(0, buf, 2);
        let start = id_storage::wrap(first + be::u16_at(buf, 0));
        let end = id_storage::wrap(start + be::u16_at(buf, 2));
        let run = id_storage::block_ids(start, end);
        lemma_wrapped(first + be::u16_at(buf, 0));
        lemma_wrapped(start + be::u16_at(buf, 2));
        lemma_block(first + be::u16_at(buf, 0), start + be::u16_at(buf, 2));
        lemma_packed_on(buf, end, n, id_storage::at_most(run, n), 4);
        assert(Seq::<u32>::empty() + run =~= run);
    }
}

proof fn lemma_wrapped(v: int)
    ensures
        id_storage::wrap(v) == v % 0x1_0000_0000,
{
    reveal(id_storage::wrap);
    assert(0 <= v % 0x1_0000_0000 < 0x1_0000_0000);
}

/// What has been read is kept, and the rest is read as from the start.
proof fn lemma_packed_on(buf: Seq<u8>, pos: u32, n: nat, acc: Seq<u32>, off: nat)
    requires
        acc.len() <= n,
        off <= buf.len(),
    ensures
        id_storage::packed_edge_ids(buf, pos, n, acc, off) == (match id_storage::packed_edge_ids(
            buf.skip(off as int),
            pos,
            (n - acc.len()) as nat,
            Seq::empty(),
            0,
        ) {
            Some(p) => Some((acc + p.0, off + p.1)),
            None => None,
        }),
    decreases buf.len() - off,
{
    let tail = buf.skip(off as int);
    let m = (n - acc.len()) as nat;
    let none = Seq::<u32>::empty();
    if acc.len() >= n {
        assert(acc + none =~= acc);
    } else if buf.len() >= off + 4 {
        be::lemma_u16_at_sub(buf, tail, off as int, 0);
        be::lemma_u16_at_sub(buf, tail, off as int + 2, 2);
        let start = id_storage::wrap(pos + be::u16_at(buf, off as int));
        let end = id_storage::wrap(start + be::u16_at(buf, (off + 2) as int));
        let run = id_storage::block_ids(start, end);
        let acc2 = id_storage::at_most(acc + run, n);
        let acc3 = id_storage::at_most(none + run, m);
        assert(acc2 =~= acc + acc3);
        lemma_packed_on(buf, end, n, acc2, off + 4);
        lemma_packed_on(tail, end, m, acc3, 4);
        assert(tail.skip(4) =~= buf.skip(off as int + 4));
        assert((n - acc2.len()) as nat == (m - acc3.len()) as nat);
        let r = id_storage::packed_edge_ids(
            buf.skip(off as int + 4),
            end,
            (n - acc2.len()) as nat,
            none,
            0,
        );
        if let Some(p) = r {
            assert(acc2 + p.0 =~= acc + (acc3 + p.0));
        }
    }
}

} // verus!
