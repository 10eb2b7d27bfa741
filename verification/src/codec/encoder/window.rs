//! The sliding window of source symbols.
use std::collections::{HashSet, VecDeque};
use vstd::prelude::*;

use bytes::Bytes;

use crate::buffers;
use crate::policy::SourceSymbolId;
use crate::wire::ev::id_storage;

verus! {

broadcast use vstd::std_specs::hash::group_hash_axioms;

/// One source symbol in the window.
#[derive(Debug)]
pub struct WindowSymbol {
    /// The id of the symbol.
    pub id: SourceSymbolId,
    /// The symbol.
    pub data: Bytes,
}

/// What a window symbol says: its id and its bytes.
pub type SymbolModel = (u32, Seq<u8>);

impl View for WindowSymbol {
    type V = SymbolModel;

    open spec fn view(&self) -> SymbolModel {
        (self.id, buffers::bytes_view(self.data))
    }
}

impl Clone for WindowSymbol {
    fn clone(&self) -> (r: Self)
        ensures
            r@ == self@,
    {
        WindowSymbol { id: self.id, data: buffers::bytes_clone(&self.data) }
    }
}

/// The ids of a sequence of symbols.
pub open spec fn ids_of(s: Seq<SymbolModel>) -> Seq<u32> {
    s.map_values(|p: SymbolModel| p.0)
}

/// `i` is the first position of the symbol `id`.
pub open spec fn first_at(s: Seq<SymbolModel>, id: u32, i: int) -> bool {
    &&& 0 <= i < s.len()
    &&& s[i].0 == id
    &&& forall|j: int| 0 <= j < i ==> (#[trigger] s[j]).0 != id
}

/// Elastic sliding window of source symbols.
#[derive(Debug)]
pub struct EncodingWindow {
    symbols: VecDeque<WindowSymbol>,
    capacity: usize,
    /// The id of the next symbol that is pushed.
    pub next_id: SourceSymbolId,
    /// Whether the ids in the window follow each other without a gap.
    pub is_contiguous: bool,
}

impl EncodingWindow {
    /// The symbols in the window, the oldest one first.
    pub closed spec fn view(&self) -> Seq<SymbolModel> {
        Seq::new(self.symbols@.len(), |i: int| self.symbols@[i]@)
    }

    /// The largest number of symbols.
    pub closed spec fn limit(&self) -> nat {
        self.capacity as nat
    }

    /// The id of the next symbol that is pushed.
    pub closed spec fn upcoming(&self) -> u32 {
        self.next_id
    }

    /// The window is marked as free of gaps.
    pub closed spec fn marked_contiguous(&self) -> bool {
        self.is_contiguous
    }

    /// The mark is set where there is no gap, and only there.
    pub open spec fn wf(&self) -> bool {
        self.marked_contiguous() == id_storage::contiguous(ids_of(self@))
    }

    /// An empty window.
    pub fn new(capacity: usize) -> (r: Self)
        ensures
            r.wf(),
            r@ == Seq::<SymbolModel>::empty(),
            r.limit() == capacity,
            r.upcoming() == 0,
            r.marked_contiguous(),
    {
        let r = Self { symbols: VecDeque::new(), capacity, next_id: 0, is_contiguous: true };
        assert(r@ =~= Seq::<SymbolModel>::empty());
        r
    }

    /// The id of the next symbol that is pushed.
    pub fn next_id(&self) -> (r: SourceSymbolId)
        ensures
            r == self.upcoming(),
    {
        self.next_id
    }

    /// Whether the ids in the window follow each other without a gap.
    pub fn is_contiguous(&self) -> (r: bool)
        requires
            self.wf(),
        ensures
            r == self.marked_contiguous(),
            r == id_storage::contiguous(ids_of(self@)),
    {
        self.is_contiguous
    }

    /// The number of symbols.
    pub fn len(&self) -> (r: usize)
        ensures
            r == self@.len(),
    {
        self.symbols.len()
    }

    /// Whether there is no symbol.
    pub fn is_empty(&self) -> (r: bool)
        ensures
            r == (self@.len() == 0),
    {
        self.symbols.len() == 0
    }

    /// Whether there is no room for another symbol.
    pub fn is_full(&self) -> (r: bool)
        ensures
            r == (self@.len() >= self.limit()),
    {
        self.symbols.len() >= self.capacity
    }

    /// The id of the oldest symbol.
    pub fn first_id(&self) -> (r: Option<SourceSymbolId>)
        ensures
            r == (if self@.len() > 0 {
                Some(self@[0].0)
            } else {
                None
            }),
    {
        if self.symbols.len() > 0 {
            Some(self.symbols[0].id)
        } else {
            None
        }
    }

    /// The id of the newest symbol.
    pub fn last_id(&self) -> (r: Option<SourceSymbolId>)
        ensures
            r == (if self@.len() > 0 {
                Some(self@.last().0)
            } else {
                None
            }),
    {
        let n: usize = self.symbols.len();
        if n > 0 {
            Some(self.symbols[n - 1].id)
        } else {
            None
        }
    }

    /// The symbols in the window, the oldest one first.
    pub fn symbols(&self) -> (r: &VecDeque<WindowSymbol>)
        ensures
            Seq::new(r@.len(), |i: int| r@[i]@) == self@,
    {
        &self.symbols
    }

    /// The ids in the window, the oldest one first.
    pub fn id_slice(&self) -> (r: Vec<SourceSymbolId>)
        ensures
            r@ == ids_of(self@),
    {
        let mut out: Vec<u32> = Vec::new();
        let mut i: usize = 0;
        while i < self.symbols.len()
            invariant
                i <= self@.len(),
                out@ == ids_of(self@).take(i as int),
            decreases self@.len() - i,
        {
            out.push(self.symbols[i].id);
            i += 1;
            assert(out@ =~= ids_of(self@).take(i as int));
        }
        assert(out@ =~= ids_of(self@));
        out
    }

    /// Pushes a symbol and returns its id.  The window must not be full.
    pub fn push(&mut self, data: Bytes) -> (id: SourceSymbolId)
        requires
            old(self).wf(),
            old(self)@.len() < old(self).limit(),
        ensures
            final(self).wf(),
            id == old(self).upcoming(),
            final(self)@ == old(self)@.push((id, buffers::bytes_view(data))),
            final(self).upcoming() == id_storage::next_id(id),
            final(self).limit() == old(self).limit(),
    {
        let id: u32 = self.next_id;
        let ghost before = self@;
        if let Some(last) = self.last_id() {
            if id != id_storage::id_after(last, 1) {
                self.is_contiguous = false;
            }
        }
        self.symbols.push_back(WindowSymbol { id, data });
        self.next_id = id_storage::id_after(id, 1);
        proof {
            assert(self@ =~= before.push((id, buffers::bytes_view(data))));
            let ids = ids_of(self@);
            let olds = ids_of(before);
            if self.is_contiguous {
                assert forall|i: int| 0 < i < ids.len() implies #[trigger] ids[i]
                    == id_storage::next_id(ids[i - 1]) by {
                    if i < olds.len() {
                        assert(ids[i] == olds[i] && ids[i - 1] == olds[i - 1]);
                    } else {
                        assert(ids[i - 1] == before.last().0);
                    }
                }
            } else if id_storage::contiguous(ids) {
                assert forall|i: int| 0 < i < olds.len() implies #[trigger] olds[i]
                    == id_storage::next_id(olds[i - 1]) by {
                    assert(ids[i] == olds[i] && ids[i - 1] == olds[i - 1]);
                }
                assert(ids[ids.len() - 1] == id && ids[ids.len() - 2] == before.last().0);
            }
        }
        id
    }

    /// Removes the oldest symbol, if there is one.
    pub fn evict_oldest(&mut self)
        requires
            old(self).wf(),
        ensures
            final(self).wf(),
            final(self)@ == (if old(self)@.len() > 0 {
                old(self)@.drop_first()
            } else {
                old(self)@
            }),
            final(self).upcoming() == old(self).upcoming(),
            final(self).limit() == old(self).limit(),
    {
        let ghost before = self@;
        let _oldest = self.symbols.pop_front();
        proof {
            if before.len() > 0 {
                assert(self@ =~= before.drop_first());
                if self.is_contiguous {
                    let ids = ids_of(self@);
                    let olds = ids_of(before);
                    assert forall|i: int| 0 < i < ids.len() implies #[trigger] ids[i]
                        == id_storage::next_id(ids[i - 1]) by {
                        assert(ids[i] == olds[i + 1] && ids[i - 1] == olds[i]);
                    }
                }
            } else {
                assert(self@ =~= before);
            }
        }
        if !self.is_contiguous {
            self.is_contiguous = check_contiguous(&self.symbols);
            assert(Seq::new(self.symbols@.len(), |k: int| self.symbols@[k]@) =~= self@);
        }
    }

    /// Removes the symbols with the given ids, wherever they are.
    pub fn remove_ids(&mut self, ids: &[SourceSymbolId])
        requires
            old(self).wf(),
        ensures
            final(self).wf(),
            final(self)@ == old(self)@.filter(|p: SymbolModel| !ids@.contains(p.0)),
            final(self).upcoming() == old(self).upcoming(),
            final(self).limit() == old(self).limit(),
    {
        let ghost keep = |p: SymbolModel| !ids@.contains(p.0);
        let ghost before = self@;
        let id_set = to_set(ids);
        let n: usize = self.symbols.len();
        let mut kept: VecDeque<WindowSymbol> = VecDeque::new();
        let mut i: usize = 0;
        while i < n
            invariant
                i <= n,
                n == before.len(),
                self@ == before,
                keep == (|p: SymbolModel| !ids@.contains(p.0)),
                forall|id: u32| #[trigger] id_set@.contains(id) <==> ids@.contains(id),
                kept@.len() <= i,
                Seq::new(kept@.len(), |k: int| kept@[k]@) == before.take(i as int).filter(keep),
            decreases n - i,
        {
            let ghost prev = kept@;
            let sym = self.symbols[i].clone();
            proof {
                assert(sym@ == before[i as int]);
                lemma_filter_step(before, i as int, keep);
            }
            if !id_set.contains(&sym.id) {
                kept.push_back(sym);
                assert(Seq::new(kept@.len(), |k: int| kept@[k]@) =~= Seq::new(
                    prev.len(),
                    |k: int| prev[k]@,
                ).push(sym@));
            }
            i += 1;
        }
        assert(before.take(n as int) =~= before);
        self.symbols = kept;
        assert(self@ =~= before.filter(keep));
        self.is_contiguous = check_contiguous(&self.symbols);
        assert(Seq::new(self.symbols@.len(), |k: int| self.symbols@[k]@) =~= self@);
    }

    /// The symbol with the given id, if it is still in the window.
    pub fn get(&self, id: SourceSymbolId) -> (r: Option<&Bytes>)
        requires
            self.wf(),
        ensures
            match r {
                Some(b) => exists|i: int| #[trigger]
                    first_at(self@, id, i) && buffers::bytes_view(*b) == self@[i].1,
                None => !ids_of(self@).contains(id),
            },
    {
        let n: usize = self.symbols.len();
        if n == 0 {
            assert(!ids_of(self@).contains(id));
            return None;
        }
        if self.is_contiguous {
            let front: u32 = self.symbols[0].id;
            let offset: u32 = id_storage::id_distance(id, front);
            proof {
                assert forall|j: int| 0 <= j < n implies (#[trigger] self@[j]).0
                    == id_storage::wrap(front + j) by {
                    id_storage::lemma_contiguous_range(ids_of(self@), j);
                    assert(ids_of(self@)[j] == self@[j].0);
                }
                assert forall|j: int| 0 <= j <= u32::MAX && #[trigger] id_storage::wrap(front + j)
                    == id implies j == offset by {
                    reveal(id_storage::wrap);
                }
                assert(id_storage::wrap(front + offset) == id) by {
                    reveal(id_storage::wrap);
                }
            }
            if (offset as usize) < n {
                proof {
                    assert forall|j: int| 0 <= j < offset implies (#[trigger] self@[j]).0 != id by {
                        assert(self@[j].0 == id_storage::wrap(front + j));
                    }
                    assert(self@[offset as int].0 == id);
                    assert(first_at(self@, id, offset as int));
                }
                Some(&self.symbols[offset as usize].data)
            } else {
                proof {
                    assert forall|j: int| 0 <= j < n implies ids_of(self@)[j] != id by {
                        assert(self@[j].0 == id_storage::wrap(front + j));
                    }
                }
                None
            }
        } else {
            let mut i: usize = 0;
            while i < n
                invariant
                    i <= n,
                    n == self@.len(),
                    forall|j: int| 0 <= j < i ==> (#[trigger] self@[j]).0 != id,
                decreases n - i,
            {
                if self.symbols[i].id == id {
                    assert(self@[i as int].0 == id);
                    assert(first_at(self@, id, i as int));
                    return Some(&self.symbols[i].data);
                }
                i += 1;
            }
            proof {
                assert forall|j: int| 0 <= j < n implies ids_of(self@)[j] != id by {
                    assert(self@[j].0 != id);
                }
            }
            None
        }
    }
}

/// The ids of a list as a set.
pub(crate) fn to_set(ids: &[u32]) -> (r: HashSet<u32>)
    ensures
        forall|id: u32| #[trigger] r@.contains(id) <==> ids@.contains(id),
{
    let mut out: HashSet<u32> = HashSet::new();
    let mut i: usize = 0;
    while i < ids.len()
        invariant
            i <= ids@.len(),
            forall|id: u32| #[trigger]
                out@.contains(id) <==> exists|j: int| 0 <= j < i && #[trigger] ids@[j] == id,
        decreases ids@.len() - i,
    {
        let ghost before = out@;
        out.insert(ids[i]);
        proof {
            assert forall|id: u32| #[trigger] out@.contains(id) <==> exists|j: int|
                0 <= j < i + 1 && #[trigger] ids@[j] == id by {
                if before.contains(id) {
                    let j = choose|j: int| 0 <= j < i && #[trigger] ids@[j] == id;
                    assert(ids@[j] == id);
                }
                if exists|j: int| 0 <= j < i + 1 && #[trigger] ids@[j] == id {
                    let j = choose|j: int| 0 <= j < i + 1 && #[trigger] ids@[j] == id;
                    if j < i {
                        assert(before.contains(id));
                    }
                }
            }
        }
        i += 1;
    }
    proof {
        assert forall|id: u32| #[trigger] out@.contains(id) <==> ids@.contains(id) by {
            if ids@.contains(id) {
                let j = ids@.index_of(id);
                assert(ids@[j] == id);
            }
        }
    }
    out
}

/// Whether the ids of the symbols follow each other without a gap.
fn check_contiguous(symbols: &VecDeque<WindowSymbol>) -> (r: bool)
    ensures
        r == id_storage::contiguous(ids_of(Seq::new(symbols@.len(), |i: int| symbols@[i]@))),
{
    let ghost ids = ids_of(Seq::new(symbols@.len(), |i: int| symbols@[i]@));
    let mut i: usize = 1;
    while i < symbols.len()
        invariant
            1 <= i,
            ids == ids_of(Seq::new(symbols@.len(), |i: int| symbols@[i]@)),
            forall|k: int|
                0 < k < i && k < ids.len() ==> #[trigger] ids[k] == id_storage::next_id(
                    ids[k - 1],
                ),
        decreases symbols@.len() - i,
    {
        if symbols[i].id != id_storage::id_after(symbols[i - 1].id, 1) {
            assert(ids[i as int] != id_storage::next_id(ids[i - 1]));
            return false;
        }
        i += 1;
    }
    true
}

proof fn lemma_filter_step(s: Seq<SymbolModel>, i: int, keep: spec_fn(SymbolModel) -> bool)
    requires
        0 <= i < s.len(),
    ensures
        s.take(i + 1).filter(keep) == (if keep(s[i]) {
            s.take(i).filter(keep).push(s[i])
        } else {
            s.take(i).filter(keep)
        }),
{
    reveal(Seq::filter);
    assert(s.take(i + 1).drop_last() =~= s.take(i));
    assert(s.take(i + 1).last() == s[i]);
}

} // verus!
