//! Which source symbols each receiver has acknowledged.
use std::collections::{BTreeSet, HashMap};
use vstd::prelude::*;

use crate::ordered::set_members;
use crate::wire::feedback::{FeedbackModel, FeedbackPacket};

verus! {

broadcast use {
    vstd::std_specs::btree::group_btree_axioms,
    vstd::std_specs::hash::group_hash_axioms,
    vstd::laws_cmp::group_laws_cmp,
};

/// What one receiver has acknowledged: all ids below `cumulative`, and those in
/// `sack`.
#[verifier::ext_equal]
pub struct AckModel {
    pub cumulative: u32,
    pub sack: Set<u32>,
}

impl AckModel {
    /// Nothing acknowledged yet.
    pub open spec fn initial() -> Self {
        AckModel { cumulative: 0, sack: Set::empty() }
    }

    /// The receiver has acknowledged `id`.
    pub open spec fn has(self, id: u32) -> bool {
        id < self.cumulative || self.sack.contains(id)
    }

    /// The cumulative acknowledgement moves past every id that follows it without
    /// a gap.
    pub open spec fn advanced(self) -> Self
        decreases u32::MAX - self.cumulative,
    {
        if self.cumulative < u32::MAX && self.sack.contains(self.cumulative) {
            AckModel {
                cumulative: (self.cumulative + 1) as u32,
                sack: self.sack.remove(self.cumulative),
            }.advanced()
        } else {
            self
        }
    }

    /// The acknowledgements after a feedback packet.
    pub open spec fn updated(self, pkt: FeedbackModel) -> Self {
        let base = if pkt.first_src_id > self.cumulative {
            AckModel {
                cumulative: pkt.first_src_id,
                sack: self.sack.filter(|id: u32| id >= pkt.first_src_id),
            }
        } else {
            self
        };
        AckModel {
            cumulative: base.cumulative,
            sack: base.sack.union(Set::new(|id: u32| pkt.acks(id))),
        }.advanced()
    }
}

#[derive(Debug)]
struct ReceiverEntry {
    /// All ids below this one are acknowledged.
    cumulative_ack: u32,
    /// Further ids that are acknowledged one by one.
    sack: BTreeSet<u32>,
}

impl ReceiverEntry {
    spec fn view(&self) -> AckModel {
        AckModel { cumulative: self.cumulative_ack, sack: self.sack@ }
    }
}

/// Tracks which source ids each receiver has acknowledged.
#[derive(Debug)]
pub struct ReceiverAckState {
    receivers: HashMap<u64, ReceiverEntry>,
}

/// The acknowledgements of every receiver that has sent any.
pub type Acks = Map<u64, AckModel>;

/// `id` has been acknowledged by the receiver `rid`.
pub open spec fn acked_by(acks: Acks, rid: u64, id: u32) -> bool {
    acks.contains_key(rid) && acks[rid].has(id)
}

/// The acknowledgements after a feedback packet from the receiver `rid`.
pub open spec fn acks_updated(acks: Acks, rid: u64, pkt: FeedbackModel) -> Acks {
    let entry = if acks.contains_key(rid) { acks[rid] } else { AckModel::initial() };
    acks.insert(rid, entry.updated(pkt))
}

impl View for ReceiverAckState {
    type V = Acks;

    closed spec fn view(&self) -> Acks {
        self.receivers@.map_values(|e: ReceiverEntry| e@)
    }
}

impl Default for ReceiverAckState {
    fn default() -> (r: Self)
        ensures
            r@ == Map::<u64, AckModel>::empty(),
    {
        let r = ReceiverAckState { receivers: HashMap::new() };
        assert(r@ =~= Map::<u64, AckModel>::empty());
        r
    }
}

impl ReceiverAckState {
    /// Takes in a feedback packet from a receiver.
    pub fn update(&mut self, receiver_id: u64, pkt: &FeedbackPacket)
        ensures
            final(self)@ == acks_updated(old(self)@, receiver_id, pkt@),
    {
        let ghost before = self.receivers@;
        let found = self.receivers.remove(&receiver_id);
        let mut entry = match found {
            Some(e) => e,
            None => ReceiverEntry { cumulative_ack: 0, sack: BTreeSet::new() },
        };
        let ghost e0 = if before.contains_key(receiver_id) {
            before[receiver_id]@
        } else {
            AckModel::initial()
        };
        assert(entry@ =~= e0);

        if pkt.first_src_id > entry.cumulative_ack {
            entry.cumulative_ack = pkt.first_src_id;
            entry.sack = retain_from(&entry.sack, pkt.first_src_id);
        }
        let ids = pkt.acked_ids();
        let ghost base = entry@;
        let mut i: usize = 0;
        while i < ids.len()
            invariant
                i <= ids@.len(),
                entry@.cumulative == base.cumulative,
                forall|id: u32| #[trigger]
                    entry@.sack.contains(id) <==> base.sack.contains(id) || ids@.take(
                        i as int,
                    ).contains(id),
            decreases ids@.len() - i,
        {
            let ghost prev = entry@;
            entry.sack.insert(ids[i]);
            proof {
                assert(ids@.take(i + 1) =~= ids@.take(i as int).push(ids@[i as int]));
                assert forall|id: u32| #[trigger] entry@.sack.contains(id) <==> base.sack.contains(id)
                    || ids@.take(i + 1).contains(id) by {
                    let t = ids@.take(i as int);
                    let u = t.push(ids@[i as int]);
                    assert(u[i as int] == ids@[i as int]);
                    assert(prev.sack.contains(id) <==> base.sack.contains(id) || t.contains(id));
                    assert(entry@.sack == prev.sack.insert(ids@[i as int]));
                    if t.contains(id) {
                        let k = t.index_of(id);
                        assert(u[k] == id);
                    }
                    if u.contains(id) {
                        let k = u.index_of(id);
                        if k < i {
                            assert(t[k] == id);
                        }
                    }
                }
            }
            i += 1;
        }
        proof {
            assert(ids@.take(ids@.len() as int) =~= ids@);
            assert(entry@.sack =~= base.sack.union(Set::new(|id: u32| pkt@.acks(id))));
        }
        let ghost start = entry@;
        while entry.cumulative_ack < u32::MAX && entry.sack.contains(&entry.cumulative_ack)
            invariant
                entry@.advanced() == start.advanced(),
            decreases u32::MAX - entry.cumulative_ack,
        {
            let c: u32 = entry.cumulative_ack;
            let ghost prev = entry@;
            entry.sack.remove(&c);
            entry.cumulative_ack = c + 1;
            assert(entry@ =~= (AckModel {
                cumulative: (prev.cumulative + 1) as u32,
                sack: prev.sack.remove(prev.cumulative),
            }));
        }
        proof {
            assert(base =~= if pkt@.first_src_id > e0.cumulative {
                AckModel {
                    cumulative: pkt@.first_src_id,
                    sack: e0.sack.filter(|id: u32| id >= pkt@.first_src_id),
                }
            } else {
                e0
            });
            assert(entry@ == e0.updated(pkt@));
        }
        let ghost last = entry;
        self.receivers.insert(receiver_id, entry);
        proof {
            assert(self.receivers@ =~= before.insert(receiver_id, last));
            assert(self@ =~= acks_updated(old(self)@, receiver_id, pkt@));
        }
    }

    /// Whether `id` has been acknowledged by the receiver.
    pub fn is_acked(&self, receiver_id: u64, id: u32) -> (r: bool)
        ensures
            r == acked_by(self@, receiver_id, id),
    {
        match self.receivers.get(&receiver_id) {
            Some(e) => id < e.cumulative_ack || e.sack.contains(&id),
            None => false,
        }
    }

    /// All receivers that have sent feedback, in no particular order.
    pub fn receiver_ids(&self) -> (r: Vec<u64>)
        ensures
            r@.no_duplicates(),
            forall|rid: u64| #[trigger] r@.contains(rid) <==> self@.contains_key(rid),
            r@.len() == self@.len(),
    {
        let mut out: Vec<u64> = Vec::new();
        for rid in it: self.receivers.keys()
            invariant
                out@.len() == it.index(),
                forall|i: int| 0 <= i < out@.len() ==> out@[i] == *it.seq()[i],
        {
            out.push(*rid);
        }
        proof {
            let s = vstd::std_specs::iter::IteratorSpec::remaining(
                &vstd::std_specs::hash::spec_keys_iter(&self.receivers),
            );
            assert(out@ =~= s.unref());
            assert(s.unref().to_set() == self.receivers@.dom());
            assert(self@.dom() =~= self.receivers@.dom());
            assert forall|rid: u64| #[trigger] out@.contains(rid) <==> self@.contains_key(rid) by {
                assert(out@.to_set().contains(rid) <==> self@.dom().contains(rid));
            }
            assert forall|i: int, j: int| 0 <= i < out@.len() && 0 <= j < out@.len() && i
                != j implies out@[i] != out@[j] by {
                assert(s[i] != s[j]);
            }
        }
        out
    }

    /// The number of receivers that have sent feedback.
    pub fn num_receivers(&self) -> (r: usize)
        ensures
            r == self@.len(),
    {
        assert(self@.dom() =~= self.receivers@.dom());
        self.receivers.len()
    }
}

/// The members of a set that are not below `floor`.
fn retain_from(s: &BTreeSet<u32>, floor: u32) -> (r: BTreeSet<u32>)
    ensures
        r@ == s@.filter(|id: u32| id >= floor),
{
    let members = set_members(s);
    let mut out: BTreeSet<u32> = BTreeSet::new();
    let mut i: usize = 0;
    while i < members.len()
        invariant
            i <= members@.len(),
            forall|id: u32| #[trigger] members@.contains(id) <==> s@.contains(id),
            forall|id: u32| #[trigger] out@.contains(id) ==> s@.contains(id) && id >= floor,
            forall|j: int|
                0 <= j < i && #[trigger] members@[j] >= floor ==> out@.contains(members@[j]),
        decreases members@.len() - i,
    {
        let id: u32 = members[i];
        assert(members@.contains(id));
        if id >= floor {
            out.insert(id);
        }
        i += 1;
    }
    proof {
        assert forall|id: u32| out@.contains(id) <==> s@.filter(|id: u32| id >= floor).contains(
            id,
        ) by {
            if s@.contains(id) && id >= floor {
                assert(members@.contains(id));
                let j = members@.index_of(id);
                assert(members@[j] >= floor);
            }
        }
        assert(out@ =~= s@.filter(|id: u32| id >= floor));
    }
    out
}

// ── Laws ─────────────────────────────────────────────────────────────────

/// Moving the cumulative acknowledgement changes nothing about what is
/// acknowledged, and leaves it before a gap.
pub proof fn lemma_advanced(m: AckModel, id: u32)
    ensures
        m.advanced().has(id) <==> m.has(id),
        m.advanced().cumulative >= m.cumulative,
        m.advanced().cumulative == u32::MAX || !m.advanced().sack.contains(m.advanced().cumulative),
    decreases u32::MAX - m.cumulative,
{
    if m.cumulative < u32::MAX && m.sack.contains(m.cumulative) {
        lemma_advanced(
            AckModel {
                cumulative: (m.cumulative + 1) as u32,
                sack: m.sack.remove(m.cumulative),
            },
            id,
        );
    }
}

/// After a feedback packet a receiver has acknowledged what it had acknowledged
/// before, what is below the packet's first id, and what the packet's SACK vector
/// acknowledges: nothing is ever taken back, and nothing is invented.
pub proof fn lemma_update_adds_acks(acks: Acks, rid: u64, pkt: FeedbackModel, id: u32)
    ensures
        acked_by(acks_updated(acks, rid, pkt), rid, id) <==> acked_by(acks, rid, id) || id
            < pkt.first_src_id || pkt.acks(id),
{
    let e = if acks.contains_key(rid) { acks[rid] } else { AckModel::initial() };
    let base = if pkt.first_src_id > e.cumulative {
        AckModel {
            cumulative: pkt.first_src_id,
            sack: e.sack.filter(|id: u32| id >= pkt.first_src_id),
        }
    } else {
        e
    };
    let full = AckModel {
        cumulative: base.cumulative,
        sack: base.sack.union(Set::new(|id: u32| pkt.acks(id))),
    };
    lemma_advanced(full, id);
}

/// A feedback packet from one receiver says nothing about another one.
pub proof fn lemma_update_keeps_others(acks: Acks, rid: u64, pkt: FeedbackModel, other: u64, id: u32)
    requires
        other != rid,
    ensures
        acked_by(acks_updated(acks, rid, pkt), other, id) <==> acked_by(acks, other, id),
{
}

} // verus!
