//! The buffer from which symbols are delivered in order.
use std::collections::BTreeMap;
use vstd::prelude::*;

use bytes::Bytes;

use crate::buffers;
use crate::codec::decoder::matrix;
use crate::ordered;
use crate::ordered::sorted_keys;
use crate::policy::SourceSymbolId;

verus! {

broadcast use {
    vstd::std_specs::btree::group_btree_axioms,
    vstd::laws_cmp::group_laws_cmp,
};

/// What a delivery buffer holds.
#[verifier::ext_equal]
pub struct BufferModel {
    /// The symbols that wait for delivery.
    pub symbols: Map<u32, Seq<u8>>,
    /// The id that is delivered next.
    pub next: u32,
}

/// The end of the run of symbols that starts at `next`.
pub open spec fn run_end(m: Map<u32, Seq<u8>>, next: u32) -> int
    decreases u32::MAX - next,
{
    if !m.contains_key(next) {
        next as int
    } else if next == u32::MAX {
        next + 1
    } else {
        run_end(m, (next + 1) as u32)
    }
}

/// `k` is the largest key.
pub open spec fn is_highest(m: Map<u32, Seq<u8>>, k: u32) -> bool {
    &&& m.contains_key(k)
    &&& forall|j: u32| #[trigger] m.contains_key(j) ==> j <= k
}

impl BufferModel {
    /// Nothing waits that should have been delivered already.
    pub open spec fn wf(self) -> bool {
        &&& self.symbols.dom().finite()
        &&& forall|id: u32| #[trigger] self.symbols.contains_key(id) ==> id >= self.next
    }

    /// A further symbol is kept, unless it has been delivered or waits already.
    pub open spec fn inserted(self, id: u32, data: Seq<u8>) -> Self {
        if id >= self.next && !self.symbols.contains_key(id) {
            BufferModel { symbols: self.symbols.insert(id, data), ..self }
        } else {
            self
        }
    }

    /// Further symbols are kept, unless they have been delivered or wait already.
    pub open spec fn inserted_all(self, new: Map<u32, Seq<u8>>) -> Self {
        BufferModel {
            symbols: Map::new(
                |id: u32| self.symbols.contains_key(id) || (new.contains_key(id) && id >= self.next),
                |id: u32|
                    if self.symbols.contains_key(id) {
                        self.symbols[id]
                    } else {
                        new[id]
                    },
            ),
            ..self
        }
    }

    /// The end of the run of symbols that can be delivered.
    pub open spec fn end(self) -> int {
        run_end(self.symbols, self.next)
    }

    /// The symbols that can be delivered, in order.
    pub open spec fn deliverable(self) -> Seq<(u32, Seq<u8>)> {
        Seq::new(
            (self.end() - self.next) as nat,
            |i: int| ((self.next + i) as u32, self.symbols[(self.next + i) as u32]),
        )
    }

    /// The buffer after delivery.
    pub open spec fn drained(self) -> Self {
        BufferModel {
            symbols: Map::new(
                |id: u32| self.symbols.contains_key(id) && id >= self.end(),
                |id: u32| self.symbols[id],
            ),
            next: if self.end() > u32::MAX {
                0
            } else {
                self.end() as u32
            },
        }
    }

    /// The buffer without the symbols below `floor`.
    pub open spec fn pruned(self, floor: u32) -> Self {
        BufferModel {
            symbols: Map::new(
                |id: u32| self.symbols.contains_key(id) && id >= floor,
                |id: u32| self.symbols[id],
            ),
            next: if self.next < floor {
                floor
            } else {
                self.next
            },
        }
    }

    /// The ids that are missing below the highest one that waits.
    pub open spec fn missing(self) -> Set<u32> {
        Set::new(
            |id: u32|
                self.next <= id && !self.symbols.contains_key(id) && exists|k: u32| #[trigger]
                    self.symbols.contains_key(k) && id < k,
        )
    }
}

/// The run ends at the first id that does not wait.
pub proof fn lemma_run_end(m: Map<u32, Seq<u8>>, next: u32)
    ensures
        next <= run_end(m, next) <= u32::MAX + 1,
        forall|id: u32| next <= id < run_end(m, next) ==> #[trigger] m.contains_key(id),
        run_end(m, next) <= u32::MAX ==> !m.contains_key(run_end(m, next) as u32),
    decreases u32::MAX - next,
{
    if m.contains_key(next) && next < u32::MAX {
        lemma_run_end(m, (next + 1) as u32);
        assert forall|id: u32| next <= id < run_end(m, next) implies #[trigger] m.contains_key(
            id,
        ) by {
            if id > next {
                assert((next + 1) as u32 <= id);
            }
        }
    }
}

/// Delivery leaves nothing that could be delivered, and keeps the rest.
pub proof fn lemma_drained(b: BufferModel)
    requires
        b.wf(),
    ensures
        b.drained().wf(),
        b.drained().deliverable().len() == 0,
{
    lemma_run_end(b.symbols, b.next);
    let d = b.drained();
    assert(d.symbols.dom().subset_of(b.symbols.dom()));
    vstd::set_lib::lemma_len_subset(d.symbols.dom(), b.symbols.dom());
}

/// The ids of an interval.
spec fn interval(lo: u32, hi: int) -> Set<u32> {
    Set::new(|id: u32| lo <= id < hi)
}

proof fn lemma_interval(lo: u32, hi: int)
    requires
        lo <= hi <= u32::MAX + 1,
    ensures
        interval(lo, hi).finite(),
        interval(lo, hi).len() == hi - lo,
    decreases hi,
{
    if lo == hi {
        assert(interval(lo, hi) =~= Set::empty());
    } else {
        lemma_interval(lo, hi - 1);
        assert(interval(lo, hi) =~= interval(lo, hi - 1).insert((hi - 1) as u32));
    }
}

/// How many ids are missing below the highest one.
proof fn lemma_missing(b: BufferModel, high: u32)
    requires
        b.wf(),
        is_highest(b.symbols, high),
    ensures
        b.missing().finite(),
        b.missing().len() == high - b.next + 1 - b.symbols.len(),
{
    let all = interval(b.next, high + 1);
    lemma_interval(b.next, high + 1);
    assert(b.symbols.dom().subset_of(all));
    assert(b.missing() =~= all.difference(b.symbols.dom())) by {
        assert forall|id: u32| b.missing().contains(id) <==> all.difference(
            b.symbols.dom(),
        ).contains(id) by {
            if all.difference(b.symbols.dom()).contains(id) {
                assert(b.symbols.contains_key(high) && id < high);
            }
        }
    }
    assert(all.intersect(b.symbols.dom()) =~= b.symbols.dom());
    vstd::set_lib::lemma_set_difference_len(all, b.symbols.dom());
}

/// Nothing is missing where nothing waits.
proof fn lemma_nothing_missing(b: BufferModel)
    requires
        b.symbols.dom() =~= Set::empty(),
    ensures
        b.missing().len() == 0,
{
    assert(b.missing() =~= Set::empty());
}

/// The delivery buffer of a decoder.
///
/// Holds received and recovered symbols until they can be delivered in ascending
/// order.
#[derive(Debug)]
pub struct SymbolBuffer {
    symbols: BTreeMap<SourceSymbolId, Bytes>,
    next_delivery_id: SourceSymbolId,
}

impl View for SymbolBuffer {
    type V = BufferModel;

    closed spec fn view(&self) -> BufferModel {
        BufferModel { symbols: matrix::values_of(self.symbols@), next: self.next_delivery_id }
    }
}

impl Default for SymbolBuffer {
    fn default() -> (r: Self)
        ensures
            r@ == (BufferModel { symbols: Map::empty(), next: 0 }),
    {
        Self::new(0)
    }
}

impl SymbolBuffer {
    /// An empty buffer that delivers `start_id` first.
    pub fn new(start_id: SourceSymbolId) -> (r: Self)
        ensures
            r@ == (BufferModel { symbols: Map::empty(), next: start_id }),
            r@.wf(),
    {
        let r = Self { symbols: BTreeMap::new(), next_delivery_id: start_id };
        assert(r@.symbols =~= Map::empty());
        r
    }

    /// Stores a symbol, unless it has been delivered or is stored already.
    pub fn insert(&mut self, id: SourceSymbolId, data: Bytes)
        requires
            old(self)@.wf(),
        ensures
            final(self)@.wf(),
            final(self)@ == old(self)@.inserted(id, buffers::bytes_view(data)),
    {
        if id >= self.next_delivery_id {
            if !self.symbols.contains_key(&id) {
                let ghost before = self.symbols@;
                self.symbols.insert(id, data);
                assert(matrix::values_of(self.symbols@) =~= matrix::values_of(before).insert(
                    id,
                    buffers::bytes_view(data),
                ));
            }
        }
    }

    /// Whether the symbol `id` is stored.
    pub fn contains(&self, id: SourceSymbolId) -> (r: bool)
        ensures
            r == self@.symbols.contains_key(id),
    {
        self.symbols.contains_key(&id)
    }

    /// The symbol `id`, if it is stored.
    pub fn get(&self, id: SourceSymbolId) -> (r: Option<&Bytes>)
        ensures
            match r {
                Some(b) => self@.symbols.contains_key(id) && buffers::bytes_view(*b)
                    == self@.symbols[id],
                None => !self@.symbols.contains_key(id),
            },
    {
        self.symbols.get(&id)
    }

    /// The highest id that is stored.
    pub fn highest_id(&self) -> (r: Option<SourceSymbolId>)
        ensures
            match r {
                Some(id) => is_highest(self@.symbols, id),
                None => self@.symbols == Map::<u32, Seq<u8>>::empty(),
            },
    {
        let ks = sorted_keys(&self.symbols);
        if ks.len() == 0 {
            proof {
                assert forall|k: u32| !self@.symbols.contains_key(k) by {
                    assert(!ks@.contains(k));
                }
                assert(self@.symbols =~= Map::empty());
            }
            return None;
        }
        let last: usize = ks.len() - 1;
        let high: u32 = ks[last];
        proof {
            assert(ks@.contains(high));
            assert forall|j: u32| #[trigger] self@.symbols.contains_key(j) implies j <= high by {
                assert(ks@.contains(j));
                let i = ks@.index_of(j);
                if i < last {
                    assert(ks@[i] < ks@[last as int]);
                }
            }
        }
        Some(high)
    }

    /// Takes out all symbols that can be delivered, in order.
    pub fn drain_deliverable(&mut self) -> (out: Vec<(SourceSymbolId, Bytes)>)
        requires
            old(self)@.wf(),
        ensures
            final(self)@.wf(),
            final(self)@ == old(self)@.drained(),
            delivered(out@) == old(self)@.deliverable(),
    {
        let ghost b = self@;
        let ghost start = self.symbols@;
        let ghost end = b.end();
        proof {
            lemma_run_end(b.symbols, b.next);
            lemma_drained(b);
            assert(b.symbols.dom() =~= start.dom());
        }
        let mut out: Vec<(SourceSymbolId, Bytes)> = Vec::new();
        let ghost mut at: int = b.next as int;
        loop
            invariant
                b.wf(),
                b.symbols == matrix::values_of(start),
                end == b.end(),
                b.next <= at <= end <= u32::MAX + 1,
                forall|id: u32| b.next <= id < end ==> #[trigger] b.symbols.contains_key(id),
                end <= u32::MAX ==> !b.symbols.contains_key(end as u32),
                at == b.next + out@.len(),
                self.next_delivery_id == (if at > u32::MAX { 0 } else { at as u32 }),
                self.symbols@ == Map::new(
                    |id: u32| start.contains_key(id) && id >= at,
                    |id: u32| start[id],
                ),
                self.symbols@.dom().finite(),
                forall|i: int|
                    0 <= i < out@.len() ==> (#[trigger] out@[i]).0 == b.next + i
                        && buffers::bytes_view(out@[i].1) == b.symbols[(b.next + i) as u32],
            ensures
                at == end,
            decreases self.symbols@.len(),
        {
            let id: u32 = self.next_delivery_id;
            let ghost before = self.symbols@;
            match self.symbols.remove(&id) {
                Some(data) => {
                    proof {
                        assert(before.contains_key(id));
                        assert(start.contains_key(id) && id >= at);
                        if at > u32::MAX {
                            assert(false);
                        }
                        assert(id == at);
                        assert(b.symbols.contains_key(id));
                        if at == end {
                            assert(false);
                        }
                        at = at + 1;
                        assert(self.symbols@ =~= Map::new(
                            |id: u32| start.contains_key(id) && id >= at,
                            |id: u32| start[id],
                        ));
                    }
                    out.push((id, data));
                    self.next_delivery_id = id.wrapping_add(1);
                },
                None => {
                    proof {
                        if at < end {
                            assert(b.symbols.contains_key(at as u32));
                            assert(before.contains_key(id));
                        }
                    }
                    break ;
                },
            }
        }
        proof {
            assert(self@.symbols =~= b.drained().symbols);
            assert(delivered(out@) =~= b.deliverable());
        }
        out
    }

    /// Removes all symbols below `floor`, and delivers none below it any more.
    pub fn prune_below(&mut self, floor: SourceSymbolId)
        requires
            old(self)@.wf(),
        ensures
            final(self)@.wf(),
            final(self)@ == old(self)@.pruned(floor),
    {
        let ghost start = self.symbols@;
        let ghost b = self@;
        let ks = sorted_keys(&self.symbols);
        proof {
            assert(b.symbols.dom() =~= start.dom());
            assert(self.symbols@ =~= start);
        }
        let mut i: usize = 0;
        while i < ks.len() && ks[i] < floor
            invariant
                i <= ks@.len(),
                ordered::lists_keys(ks@, start),
                forall|j: int| 0 <= j < i ==> #[trigger] ks@[j] < floor,
                forall|id: u32|
                    #[trigger] self.symbols@.contains_key(id) <==> start.contains_key(id) && (
                    forall|j: int| 0 <= j < i ==> #[trigger] ks@[j] != id),
                forall|id: u32| #[trigger]
                    self.symbols@.contains_key(id) ==> self.symbols@[id] == start[id],
                self.next_delivery_id == b.next,
            decreases ks@.len() - i,
        {
            let id: u32 = ks[i];
            let ghost before = self.symbols@;
            self.symbols.remove(&id);
            assert(self.symbols@ =~= before.remove(id));
            i += 1;
            assert forall|x: u32| #[trigger] self.symbols@.contains_key(x) <==> start.contains_key(
                x,
            ) && (forall|j: int| 0 <= j < i ==> #[trigger] ks@[j] != x) by {
                if self.symbols@.contains_key(x) {
                    assert(before.contains_key(x));
                }
                if start.contains_key(x) && (forall|j: int| 0 <= j < i ==> #[trigger] ks@[j] != x) {
                    assert(ks@[i - 1] != x);
                    assert(before.contains_key(x));
                }
            }
        }
        if self.next_delivery_id < floor {
            self.next_delivery_id = floor;
        }
        proof {
            assert forall|id: u32| #[trigger] self.symbols@.contains_key(id) <==> start.contains_key(
                id,
            ) && id >= floor by {
                if start.contains_key(id) {
                    assert(ks@.contains(id));
                    let j = ks@.index_of(id);
                    if id >= floor {
                        assert forall|k: int| 0 <= k < i implies #[trigger] ks@[k] != id by {}
                    } else if j >= i {
                        assert(ks@[i as int] <= ks@[j]);
                    } else {
                        assert(ks@[j] == id);
                    }
                }
            }
            assert(self@.symbols =~= b.pruned(floor).symbols);
            assert(self@.symbols.dom().subset_of(b.symbols.dom()));
            vstd::set_lib::lemma_len_subset(self@.symbols.dom(), b.symbols.dom());
        }
    }

    /// The ids from `from` on that are stored, in ascending order.
    pub fn ids_from(&self, from: SourceSymbolId) -> (r: Vec<SourceSymbolId>)
        ensures
            ordered::ascending(r@),
            forall|id: u32| #[trigger]
                r@.contains(id) <==> self@.symbols.contains_key(id) && id >= from,
    {
        let ks = sorted_keys(&self.symbols);
        let mut out: Vec<u32> = Vec::new();
        let mut i: usize = 0;
        while i < ks.len()
            invariant
                i <= ks@.len(),
                ordered::ascending(ks@),
                ordered::ascending(out@),
                forall|j: int| 0 <= j < out@.len() ==> #[trigger] out@[j] >= from,
                forall|j: int| 0 <= j < out@.len() ==> ks@.take(i as int).contains(
                    #[trigger] out@[j],
                ),
                forall|j: int| 0 <= j < i && ks@[j] >= from ==> out@.contains(#[trigger] ks@[j]),
            decreases ks@.len() - i,
        {
            let k: u32 = ks[i];
            let ghost before = out@;
            let ghost seen = ks@.take(i as int);
            if k >= from {
                out.push(k);
            }
            i += 1;
            proof {
                let now = ks@.take(i as int);
                assert(now =~= seen.push(k));
                assert forall|j: int| 0 <= j < before.len() implies #[trigger] before[j] < k
                    && now.contains(before[j]) by {
                    assert(seen.contains(before[j]));
                    let x = seen.index_of(before[j]);
                    assert(now[x] == before[j]);
                    assert(ks@[x] < ks@[i - 1]);
                }
                assert(now[i - 1] == k);
                assert forall|j: int| 0 <= j < out@.len() implies now.contains(
                    #[trigger] out@[j],
                ) by {
                    if j < before.len() {
                        assert(before[j] == out@[j]);
                    }
                }
                assert forall|a: int, c: int| 0 <= a < c < out@.len() implies out@[a]
                    < out@[c] by {
                    assert(before[a] == out@[a]);
                    if c < before.len() {
                        assert(before[c] == out@[c]);
                    }
                }
                assert forall|j: int| 0 <= j < i && ks@[j] >= from implies out@.contains(
                    #[trigger] ks@[j],
                ) by {
                    if j < i - 1 {
                        assert(before.contains(ks@[j]));
                        let x = before.index_of(ks@[j]);
                        assert(out@[x] == ks@[j]);
                    } else {
                        assert(out@[out@.len() - 1] == k);
                    }
                }
            }
        }
        proof {
            assert(ks@.take(ks@.len() as int) =~= ks@);
            assert forall|id: u32| #[trigger] out@.contains(id) <==> self@.symbols.contains_key(id)
                && id >= from by {
                if out@.contains(id) {
                    let j = out@.index_of(id);
                    assert(ks@.contains(out@[j]));
                }
                if self@.symbols.contains_key(id) && id >= from {
                    assert(ks@.contains(id));
                    let j = ks@.index_of(id);
                    assert(out@.contains(ks@[j]));
                }
            }
        }
        out
    }

    /// The number of symbols that are stored.
    pub fn len(&self) -> (r: usize)
        ensures
            r == self@.symbols.len(),
    {
        assert(self@.symbols.dom() =~= self.symbols@.dom());
        self.symbols.len()
    }

    /// Whether no symbol is stored.
    pub fn is_empty(&self) -> (r: bool)
        ensures
            r == (self@.symbols.len() == 0),
    {
        self.len() == 0
    }

    /// The id that is delivered next.
    pub fn next_delivery_id(&self) -> (r: SourceSymbolId)
        ensures
            r == self@.next,
    {
        self.next_delivery_id
    }

    /// The number of ids that are missing below the highest one.
    pub(crate) fn count_missing(&self) -> (r: u32)
        requires
            self@.wf(),
        ensures
            r == self@.missing().len(),
    {
        match self.highest_id() {
            None => {
                proof {
                    lemma_nothing_missing(self@);
                }
                0
            },
            Some(high) => {
                proof {
                    lemma_missing(self@, high);
                    lemma_at_least_one(self@.symbols, high);
                }
                let span: u64 = (high - self.next_delivery_id) as u64 + 1;
                (span - self.len() as u64) as u32
            },
        }
    }
}

proof fn lemma_at_least_one(m: Map<u32, Seq<u8>>, k: u32)
    requires
        m.dom().finite(),
        m.contains_key(k),
    ensures
        m.len() >= 1,
{
    assert(m.dom().len() > 0) by {
        if m.dom().len() == 0 {
            assert(m.dom() =~= Set::empty());
        }
    }
}

/// What a list of delivered symbols says.
pub open spec fn delivered(v: Seq<(u32, Bytes)>) -> Seq<(u32, Seq<u8>)> {
    v.map_values(|p: (u32, Bytes)| (p.0, buffers::bytes_view(p.1)))
}

} // verus!
