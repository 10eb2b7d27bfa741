//! The strategies that come with the library.
use vstd::prelude::*;

use crate::loss::LossRate;
use crate::policy::acks;
use crate::policy::acks::{Acks, ReceiverAckState};
use crate::policy::{
    CongestionControl, DecoderState, EncoderSnapshot, EncoderState, FecRateController,
    FeedbackPolicy, SourceSymbolId, WindowPolicy,
};

verus! {

// ── Window policies ──────────────────────────────────────────────────────

/// The receivers that have acknowledged `id`.
pub open spec fn ackers(acks: Acks, id: u32) -> Set<u64> {
    acks.dom().filter(|rid: u64| acks[rid].has(id))
}

/// How many of the receivers in `rids` have acknowledged `id`.
fn count_acks(ack_state: &ReceiverAckState, rids: &Vec<u64>, id: u32) -> (n: usize)
    requires
        rids@.no_duplicates(),
        forall|rid: u64| #[trigger] rids@.contains(rid) <==> ack_state@.contains_key(rid),
    ensures
        n == ackers(ack_state@, id).len(),
        n <= rids@.len(),
        ackers(ack_state@, id).finite(),
{
    let mut n: usize = 0;
    let mut i: usize = 0;
    let ghost mut seen: Set<u64> = Set::empty();
    while i < rids.len()
        invariant
            i <= rids@.len(),
            n <= i,
            rids@.no_duplicates(),
            forall|rid: u64| #[trigger] rids@.contains(rid) <==> ack_state@.contains_key(rid),
            seen.finite(),
            n == seen.len(),
            forall|rid: u64| #[trigger]
                seen.contains(rid) <==> acks::acked_by(ack_state@, rid, id) && exists|j: int|
                    0 <= j < i && #[trigger] rids@[j] == rid,
        decreases rids@.len() - i,
    {
        let rid: u64 = rids[i];
        let ghost before = seen;
        assert(rids@.contains(rid));
        assert(!seen.contains(rid)) by {
            if seen.contains(rid) {
                let j = choose|j: int| 0 <= j < i && #[trigger] rids@[j] == rid;
                assert(rids@[j] != rids@[i as int]);
            }
        }
        if ack_state.is_acked(rid, id) {
            n += 1;
            proof {
                seen = seen.insert(rid);
            }
        }
        proof {
            assert forall|x: u64| #[trigger] seen.contains(x) <==> acks::acked_by(ack_state@, x, id)
                && exists|j: int| 0 <= j < i + 1 && #[trigger] rids@[j] == x by {
                if x == rid {
                    assert(rids@[i as int] == x);
                } else {
                    assert(seen.contains(x) <==> before.contains(x));
                    if exists|j: int| 0 <= j < i + 1 && #[trigger] rids@[j] == x {
                        let j = choose|j: int| 0 <= j < i + 1 && #[trigger] rids@[j] == x;
                        assert(j < i);
                    }
                }
            }
        }
        i += 1;
    }
    proof {
        assert forall|x: u64| seen.contains(x) <==> ackers(ack_state@, id).contains(x) by {
            if ack_state@.contains_key(x) {
                assert(rids@.contains(x));
                let j = rids@.index_of(x);
                assert(rids@[j] == x);
            }
        }
        assert(seen =~= ackers(ack_state@, id));
    }
    n
}

/// Removes a symbol as soon as any receiver has acknowledged it.
///
/// Best for one receiver.  With several, a slow one may never recover a symbol.
#[derive(Debug, Default, Clone, Copy)]
pub struct AnyAckPolicy;

impl WindowPolicy for AnyAckPolicy {
    open spec fn may_remove(&self, acks: Acks, ids: Seq<u32>, out: Seq<u32>, after: Self) -> bool {
        out == ids.filter(|id: u32| exists|rid: u64| #[trigger] acks::acked_by(acks, rid, id))
    }

    fn symbols_to_remove(
        &mut self,
        ack_state: &ReceiverAckState,
        window_ids: &[SourceSymbolId],
    ) -> (r: Vec<SourceSymbolId>) {
        let rids = ack_state.receiver_ids();
        let ghost keep = |id: u32| exists|rid: u64| #[trigger] acks::acked_by(ack_state@, rid, id);
        let mut out: Vec<u32> = Vec::new();
        let mut i: usize = 0;
        while i < window_ids.len()
            invariant
                i <= window_ids@.len(),
                rids@.no_duplicates(),
                forall|rid: u64| #[trigger] rids@.contains(rid) <==> ack_state@.contains_key(rid),
                keep == (|id: u32| exists|rid: u64| #[trigger]
                    acks::acked_by(ack_state@, rid, id)),
                out@ == window_ids@.take(i as int).filter(keep),
            decreases window_ids@.len() - i,
        {
            let id: u32 = window_ids[i];
            let n: usize = count_acks(ack_state, &rids, id);
            proof {
                lemma_filter_step(window_ids@, i as int, keep);
                let s = ackers(ack_state@, id);
                if n > 0 {
                    let w = s.choose();
                    assert(s.contains(w));
                    assert(acks::acked_by(ack_state@, w, id));
                    assert(keep(id));
                } else {
                    assert(s =~= Set::empty());
                    assert forall|rid: u64| !#[trigger] acks::acked_by(ack_state@, rid, id) by {
                        assert(!s.contains(rid));
                    }
                    assert(!keep(id));
                }
            }
            if n > 0 {
                out.push(id);
            }
            i += 1;
        }
        assert(window_ids@.take(window_ids@.len() as int) =~= window_ids@);
        out
    }
}

proof fn lemma_filter_step(s: Seq<u32>, i: int, keep: spec_fn(u32) -> bool)
    requires
        0 <= i < s.len(),
    ensures
        s.take(i + 1).filter(keep) == (if keep(s[i]) {
            s.take(i).filter(keep).push(s[i])
        } else {
            s.take(i).filter(keep)
        }),
{
    reveal(Seq::filter);
    assert(s.take(i + 1).drop_last() =~= s.take(i));
    assert(s.take(i + 1).last() == s[i]);
}

/// Removes a symbol when every known receiver has acknowledged it.
///
/// Safe for several receivers: each gets a chance to recover every symbol.
#[derive(Debug, Default, Clone, Copy)]
pub struct AllAckPolicy;

impl WindowPolicy for AllAckPolicy {
    open spec fn may_remove(&self, acks: Acks, ids: Seq<u32>, out: Seq<u32>, after: Self) -> bool {
        out == ids.filter(
            |id: u32|
                acks.len() > 0 && forall|rid: u64| #[trigger]
                    acks.contains_key(rid) ==> acks[rid].has(id),
        )
    }

    fn symbols_to_remove(
        &mut self,
        ack_state: &ReceiverAckState,
        window_ids: &[SourceSymbolId],
    ) -> (r: Vec<SourceSymbolId>) {
        let rids = ack_state.receiver_ids();
        let ghost keep = |id: u32|
            ack_state@.len() > 0 && forall|rid: u64| #[trigger]
                ack_state@.contains_key(rid) ==> ack_state@[rid].has(id);
        let mut out: Vec<u32> = Vec::new();
        let mut i: usize = 0;
        while i < window_ids.len()
            invariant
                i <= window_ids@.len(),
                rids@.no_duplicates(),
                rids@.len() == ack_state@.len(),
                forall|rid: u64| #[trigger] rids@.contains(rid) <==> ack_state@.contains_key(rid),
                keep == (|id: u32|
                    ack_state@.len() > 0 && forall|rid: u64| #[trigger]
                        ack_state@.contains_key(rid) ==> ack_state@[rid].has(id)),
                out@ == window_ids@.take(i as int).filter(keep),
            decreases window_ids@.len() - i,
        {
            let id: u32 = window_ids[i];
            let n: usize = count_acks(ack_state, &rids, id);
            proof {
                lemma_filter_step(window_ids@, i as int, keep);
                let s = ackers(ack_state@, id);
                lemma_dom_finite(ack_state@, rids@);
                if n == rids@.len() {
                    vstd::set_lib::lemma_subset_equality(s, ack_state@.dom());
                    assert forall|rid: u64| #[trigger]
                        ack_state@.contains_key(rid) implies ack_state@[rid].has(id) by {
                        assert(s.contains(rid));
                    }
                } else if forall|rid: u64| #[trigger]
                    ack_state@.contains_key(rid) ==> ack_state@[rid].has(id) {
                    assert(s =~= ack_state@.dom());
                    assert(false);
                }
            }
            if rids.len() > 0 && n == rids.len() {
                out.push(id);
            }
            i += 1;
        }
        assert(window_ids@.take(window_ids@.len() as int) =~= window_ids@);
        out
    }
}

proof fn lemma_dom_finite(acks: Acks, rids: Seq<u64>)
    requires
        forall|rid: u64| #[trigger] rids.contains(rid) <==> acks.contains_key(rid),
    ensures
        acks.dom().finite(),
{
    assert(rids.to_set() =~= acks.dom());
    vstd::seq_lib::seq_to_set_is_finite(rids);
}

/// Removes a symbol when at least `quorum` receivers have acknowledged it.
#[derive(Debug, Clone, Copy)]
pub struct QuorumAckPolicy {
    /// The number of receivers that have to agree.
    pub quorum: usize,
}

impl QuorumAckPolicy {
    /// A policy with the given quorum.
    pub fn new(quorum: usize) -> (r: Self)
        ensures
            r.quorum == quorum,
    {
        Self { quorum }
    }
}

impl WindowPolicy for QuorumAckPolicy {
    open spec fn may_remove(&self, acks: Acks, ids: Seq<u32>, out: Seq<u32>, after: Self) -> bool {
        &&& out == ids.filter(|id: u32| ackers(acks, id).len() >= self.quorum)
        &&& after == *self
    }

    fn symbols_to_remove(
        &mut self,
        ack_state: &ReceiverAckState,
        window_ids: &[SourceSymbolId],
    ) -> (r: Vec<SourceSymbolId>) {
        let rids = ack_state.receiver_ids();
        let quorum: usize = self.quorum;
        let ghost keep = |id: u32| ackers(ack_state@, id).len() >= quorum;
        let mut out: Vec<u32> = Vec::new();
        let mut i: usize = 0;
        while i < window_ids.len()
            invariant
                i <= window_ids@.len(),
                rids@.no_duplicates(),
                forall|rid: u64| #[trigger] rids@.contains(rid) <==> ack_state@.contains_key(rid),
                keep == (|id: u32| ackers(ack_state@, id).len() >= quorum),
                out@ == window_ids@.take(i as int).filter(keep),
            decreases window_ids@.len() - i,
        {
            let id: u32 = window_ids[i];
            let n: usize = count_acks(ack_state, &rids, id);
            proof {
                lemma_filter_step(window_ids@, i as int, keep);
            }
            if n >= quorum {
                out.push(id);
            }
            i += 1;
        }
        assert(window_ids@.take(window_ids@.len() as int) =~= window_ids@);
        assert(keep =~= (|id: u32| ackers(ack_state@, id).len() >= self.quorum));
        out
    }
}

// ── Congestion control ───────────────────────────────────────────────────

/// No congestion control: sending is always allowed, and no CCI is emitted.
#[derive(Debug, Default, Clone, Copy)]
pub struct NoCongestionControl;

impl CongestionControl for NoCongestionControl {
    open spec fn may_emit(&self, cci: Seq<u8>) -> bool {
        cci.len() == 0
    }

    open spec fn may_process(&self, cci: Seq<u8>, after: Self) -> bool {
        after == *self
    }

    open spec fn may_adapt(
        &self,
        state: EncoderSnapshot,
        loss_rate: LossRate,
        nb_missing: u32,
        nb_unused_coded: u32,
        after: Self,
    ) -> bool {
        after == *self
    }

    open spec fn may_permit(&self, r: bool) -> bool {
        r
    }

    open spec fn may_note(&self, size: nat, after: Self) -> bool {
        after == *self
    }

    fn generate_cci(&self) -> (r: &[u8]) {
        &[]
    }

    fn process_cci(&mut self, _cci: &[u8]) {
    }

    fn on_feedback(
        &mut self,
        _state: EncoderState<'_>,
        _loss_rate: LossRate,
        _nb_missing: u32,
        _nb_unused_coded: u32,
    ) {
    }

    fn can_send(&self) -> (r: bool) {
        true
    }

    fn on_send(&mut self, _size: usize) {
    }
}

// ── FEC rates ────────────────────────────────────────────────────────────

/// Emits exactly `numer` coded packets for every `denom` source packets.
#[derive(Debug, Clone, Copy, PartialEq, Eq, Structural)]
pub struct ConstantFecRate {
    numer: usize,
    denom: usize,
    acc: usize,
}

impl ConstantFecRate {
    #[verifier::type_invariant]
    spec fn accumulates(self) -> bool {
        self.acc < self.denom
    }

    /// The numerator of the rate.
    pub closed spec fn rate_numer(self) -> nat {
        self.numer as nat
    }

    /// The denominator of the rate.
    pub closed spec fn rate_denom(self) -> nat {
        self.denom as nat
    }

    /// What has accumulated towards the next coded packet, in units of one
    /// `denom`-th.
    pub closed spec fn accumulated(self) -> nat {
        self.acc as nat
    }

    /// A rate of `numer` coded packets per `denom` source packets.
    pub fn new(numer: usize, denom: usize) -> (r: Self)
        requires
            denom > 0,
        ensures
            r.rate_numer() == numer,
            r.rate_denom() == denom,
            r.accumulated() == 0,
    {
        Self { numer, denom, acc: 0 }
    }

    /// One coded packet per source packet.
    pub fn one_to_one() -> (r: Self)
        ensures
            r.rate_numer() == 1,
            r.rate_denom() == 1,
            r.accumulated() == 0,
    {
        Self::new(1, 1)
    }

    /// No coded packets.
    pub fn disabled() -> (r: Self)
        ensures
            r.rate_numer() == 0,
            r.rate_denom() == 1,
            r.accumulated() == 0,
    {
        Self::new(0, 1)
    }
}

impl FecRateController for ConstantFecRate {
    open spec fn may_request(&self, state: EncoderSnapshot, n: nat, after: Self) -> bool {
        &&& n == (self.accumulated() + self.rate_numer()) / self.rate_denom()
        &&& after.accumulated() == (self.accumulated() + self.rate_numer()) % self.rate_denom()
        &&& after.rate_numer() == self.rate_numer()
        &&& after.rate_denom() == self.rate_denom()
    }

    open spec fn may_adapt(
        &self,
        state: EncoderSnapshot,
        loss_rate: LossRate,
        nb_missing: u32,
        nb_unused: u32,
        after: Self,
    ) -> bool {
        after == *self
    }

    fn coded_packets_to_generate(&mut self, _state: EncoderState<'_>) -> (n: usize) {
        proof {
            use_type_invariant(&*self);
        }
        let numer: usize = self.numer;
        let denom: usize = self.denom;
        let acc: usize = self.acc;
        let total: u128 = acc as u128 + numer as u128;
        let q: u128 = total / denom as u128;
        let rest: u128 = total % denom as u128;
        proof {
            vstd::arithmetic::div_mod::lemma_fundamental_div_mod(total as int, denom as int);
            if denom == 1 {
                assert(q == total) by (nonlinear_arith)
                    requires
                        total == denom * q + rest,
                        denom == 1,
                        rest == 0,
                ;
            } else {
                assert(2 * q <= total) by (nonlinear_arith)
                    requires
                        total == denom * q + rest,
                        denom >= 2,
                ;
            }
        }
        self.acc = rest as usize;
        q as usize
    }

    fn on_feedback(
        &mut self,
        _state: EncoderState<'_>,
        _loss_rate: LossRate,
        _nb_missing: u32,
        _nb_unused: u32,
    ) {
    }
}

/// The number of coded packets that a constant rate has emitted after `n` source
/// packets, and what has accumulated by then.
pub open spec fn constant_rate_after(numer: nat, denom: nat, n: nat) -> (nat, nat)
    decreases n,
{
    if n == 0 {
        (0, 0)
    } else {
        let (sent, acc) = constant_rate_after(numer, denom, (n - 1) as nat);
        (sent + (acc + numer) / denom, (acc + numer) % denom)
    }
}

/// A constant rate is kept exactly: after `n` source packets the number of coded
/// packets is `n * numer / denom`, rounded down.
pub proof fn lemma_constant_rate(numer: nat, denom: nat, n: nat)
    requires
        denom > 0,
    ensures
        constant_rate_after(numer, denom, n).0 == n * numer / denom,
        constant_rate_after(numer, denom, n).1 == n * numer % denom,
    decreases n,
{
    let (sent, acc) = constant_rate_after(numer, denom, n);
    lemma_constant_rate_sum(numer, denom, n);
    vstd::arithmetic::div_mod::lemma_fundamental_div_mod_converse(
        (n * numer) as int,
        denom as int,
        sent as int,
        acc as int,
    );
}

proof fn lemma_constant_rate_sum(numer: nat, denom: nat, n: nat)
    requires
        denom > 0,
    ensures
        constant_rate_after(numer, denom, n).0 * denom + constant_rate_after(numer, denom, n).1
            == n * numer,
        constant_rate_after(numer, denom, n).1 < denom,
    decreases n,
{
    if n > 0 {
        let m = (n - 1) as nat;
        lemma_constant_rate_sum(numer, denom, m);
        let (sent, acc) = constant_rate_after(numer, denom, m);
        let q = (acc + numer) / denom;
        let r = (acc + numer) % denom;
        vstd::arithmetic::div_mod::lemma_fundamental_div_mod((acc + numer) as int, denom as int);
        assert((sent + q) * denom + r == n * numer) by (nonlinear_arith)
            requires
                sent * denom + acc == m * numer,
                acc + numer == denom * q + r,
                n == m + 1,
        ;
    } else {
        assert(0 * denom == 0 && 0 * numer == 0) by (nonlinear_arith);
    }
}

// ── Feedback policies ────────────────────────────────────────────────────

/// Asks for one feedback packet every `period` received packets.
#[derive(Debug, Clone, Copy, PartialEq, Eq, Structural)]
pub struct ConstantFeedbackPolicy {
    period: u32,
    counter: u32,
}

impl ConstantFeedbackPolicy {
    #[verifier::type_invariant]
    spec fn counts(self) -> bool {
        self.counter < self.period
    }

    /// The number of packets between two feedback packets.
    pub closed spec fn every(self) -> nat {
        self.period as nat
    }

    /// The number of packets since the last feedback packet.
    pub closed spec fn since(self) -> nat {
        self.counter as nat
    }

    /// A policy with the given period.
    pub fn new(period: u32) -> (r: Self)
        requires
            period > 0,
        ensures
            r.every() == period,
            r.since() == 0,
    {
        Self { period, counter: 0 }
    }
}

impl FeedbackPolicy for ConstantFeedbackPolicy {
    open spec fn may_decide(&self, state: DecoderState, r: bool, after: Self) -> bool {
        &&& r == (self.since() + 1 >= self.every())
        &&& after.since() == (if r { 0 } else { self.since() + 1 })
        &&& after.every() == self.every()
    }

    fn should_send_feedback(&mut self, _state: DecoderState) -> (r: bool) {
        proof {
            use_type_invariant(&*self);
        }
        let next: u32 = self.counter + 1;
        if next >= self.period {
            self.counter = 0;
            true
        } else {
            self.counter = next;
            false
        }
    }
}

/// Asks for feedback after every received packet.
#[derive(Debug, Default, Clone, Copy)]
pub struct ImmediateFeedbackPolicy;

impl FeedbackPolicy for ImmediateFeedbackPolicy {
    open spec fn may_decide(&self, state: DecoderState, r: bool, after: Self) -> bool {
        r && after == *self
    }

    fn should_send_feedback(&mut self, _state: DecoderState) -> (r: bool) {
        true
    }
}

} // verus!
