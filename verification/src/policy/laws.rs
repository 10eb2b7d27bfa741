//! What the strategies that come with the library are for.
//!
//! The laws speak of what is observed from outside: who has acknowledged what, how
//! many packets were asked for over a run of calls, and when feedback was due.
use vstd::prelude::*;

use crate::loss::LossRate;
use crate::policy::acks;
use crate::policy::acks::Acks;
use crate::policy::defaults::{
    AllAckPolicy, AnyAckPolicy, ConstantFecRate, ConstantFeedbackPolicy, ImmediateFeedbackPolicy,
    NoCongestionControl, QuorumAckPolicy,
};
use crate::policy::{
    CongestionControl, DecoderState, EncoderSnapshot, FecRateController, FeedbackPolicy,
    WindowPolicy,
};
use crate::wire::feedback;
use crate::wire::feedback::FeedbackModel;

verus! {

// ── Lists ────────────────────────────────────────────────────────────────

/// `part` lists members of `all` in the order of `all`: `at[i]` is the place of the
/// `i`-th one.
pub open spec fn picked<T>(part: Seq<T>, all: Seq<T>, at: Seq<int>) -> bool {
    &&& at.len() == part.len()
    &&& forall|i: int|
        0 <= i < at.len() ==> 0 <= #[trigger] at[i] < all.len() && part[i] == all[at[i]]
    &&& forall|i: int, j: int| 0 <= i < j < at.len() ==> at[i] < at[j]
}

/// `part` lists some members of `all`, in the same order.
pub open spec fn in_order<T>(part: Seq<T>, all: Seq<T>) -> bool {
    exists|at: Seq<int>| picked(part, all, at)
}

/// A filter keeps the order, and lets through exactly what meets its condition.
pub proof fn lemma_filter<T>(s: Seq<T>, keep: spec_fn(T) -> bool)
    ensures
        in_order(s.filter(keep), s),
        forall|x: T| #[trigger] s.filter(keep).contains(x) <==> s.contains(x) && keep(x),
        s.filter(keep).len() <= s.len(),
    decreases s.len(),
{
    reveal(Seq::filter);
    if s.len() == 0 {
        assert(picked(s.filter(keep), s, Seq::empty()));
    } else {
        let v = s.drop_last();
        let last = s[s.len() - 1];
        let fv = v.filter(keep);
        let fs = s.filter(keep);
        lemma_filter(v, keep);
        let at = choose|at: Seq<int>| picked(fv, v, at);
        assert(picked(fv, v, at));
        if keep(last) {
            let more = at.push(s.len() - 1);
            assert(fs == fv.push(last));
            assert forall|i: int| 0 <= i < more.len() implies 0 <= #[trigger] more[i] < s.len()
                && fs[i] == s[more[i]] by {
                if i < at.len() {
                    assert(more[i] == at[i]);
                    assert(fs[i] == fv[i]);
                }
            }
            assert forall|i: int, j: int| 0 <= i < j < more.len() implies more[i] < more[j] by {
                assert(more[i] == at[i]);
            }
            assert(picked(fs, s, more));
        } else {
            assert forall|i: int| 0 <= i < at.len() implies 0 <= #[trigger] at[i] < s.len()
                && fs[i] == s[at[i]] by {}
            assert(picked(fs, s, at));
        }
        assert(s =~= v.push(last));
        assert forall|x: T| #[trigger] fs.contains(x) <==> s.contains(x) && keep(x) by {
            assert(fv.contains(x) <==> v.contains(x) && keep(x));
            assert(s.contains(x) <==> v.contains(x) || x == last) by {
                if v.contains(x) {
                    assert(s[v.index_of(x)] == x);
                }
                if s.contains(x) && x != last {
                    assert(v[s.index_of(x)] == x);
                }
                assert(s[s.len() - 1] == last);
            }
            if keep(last) {
                assert(fs.contains(x) <==> fv.contains(x) || x == last) by {
                    if fv.contains(x) {
                        assert(fs[fv.index_of(x)] == x);
                    }
                    if fs.contains(x) && x != last {
                        assert(fv[fs.index_of(x)] == x);
                    }
                    assert(fs[fv.len() as int] == last);
                }
            }
        }
    }
}

// ── Window policies ──────────────────────────────────────────────────────

/// One acknowledgement by one receiver suffices: a symbol of the window may leave
/// exactly where some receiver has acknowledged it, however many receivers there are.
pub proof fn lemma_any_ack(
    p: AnyAckPolicy,
    acks: Acks,
    ids: Seq<u32>,
    out: Seq<u32>,
    after: AnyAckPolicy,
    id: u32,
)
    requires
        p.may_remove(acks, ids, out, after),
    ensures
        out.contains(id) <==> ids.contains(id) && exists|rid: u64| #[trigger]
            acks::acked_by(acks, rid, id),
        in_order(out, ids),
{
    lemma_filter(ids, |x: u32| exists|rid: u64| #[trigger] acks::acked_by(acks, rid, x));
}

/// Every receiver has to agree: a symbol of the window may leave exactly where there
/// is a receiver and none that has not acknowledged it.
pub proof fn lemma_all_ack(
    p: AllAckPolicy,
    acks: Acks,
    ids: Seq<u32>,
    out: Seq<u32>,
    after: AllAckPolicy,
    id: u32,
)
    requires
        acks.dom().finite(),
        p.may_remove(acks, ids, out, after),
    ensures
        out.contains(id) <==> ids.contains(id) && (exists|rid: u64| #[trigger]
            acks.contains_key(rid)) && forall|rid: u64| #[trigger]
            acks.contains_key(rid) ==> acks::acked_by(acks, rid, id),
        in_order(out, ids),
{
    let keep = |x: u32|
        acks.len() > 0 && forall|rid: u64| #[trigger] acks.contains_key(rid) ==> acks[rid].has(x);
    lemma_filter(ids, keep);
    assert(out.contains(id) <==> ids.contains(id) && keep(id));
    if acks.len() > 0 {
        let rid = acks.dom().choose();
        assert(acks.dom().contains(rid));
        assert(acks.contains_key(rid));
    } else {
        assert(acks.dom() =~= Set::empty());
        assert forall|rid: u64| !#[trigger] acks.contains_key(rid) by {
            assert(!acks.dom().contains(rid));
        }
    }
    if forall|rid: u64| #[trigger] acks.contains_key(rid) ==> acks::acked_by(acks, rid, id) {
        assert forall|rid: u64| #[trigger] acks.contains_key(rid) implies acks[rid].has(id) by {
            assert(acks::acked_by(acks, rid, id));
        }
    }
}

/// `n` different receivers have acknowledged `id`.
pub open spec fn witnessed(acks: Acks, id: u32, who: Seq<u64>, n: nat) -> bool {
    &&& who.len() == n
    &&& who.no_duplicates()
    &&& forall|i: int| 0 <= i < who.len() ==> acks::acked_by(acks, #[trigger] who[i], id)
}

/// The quorum decides: a symbol of the window may leave exactly where as many
/// different receivers as the quorum says have acknowledged it.
pub proof fn lemma_quorum_ack(
    p: QuorumAckPolicy,
    acks: Acks,
    ids: Seq<u32>,
    out: Seq<u32>,
    after: QuorumAckPolicy,
    id: u32,
)
    requires
        acks.dom().finite(),
        p.may_remove(acks, ids, out, after),
    ensures
        out.contains(id) <==> ids.contains(id) && exists|who: Seq<u64>| #[trigger]
            witnessed(acks, id, who, p.quorum as nat),
        in_order(out, ids),
        after.quorum == p.quorum,
{
    let q = p.quorum as nat;
    let set = acks.dom().filter(|rid: u64| acks[rid].has(id));
    let keep = |x: u32| crate::policy::defaults::ackers(acks, x).len() >= p.quorum;
    lemma_filter(ids, keep);
    assert(set == crate::policy::defaults::ackers(acks, id));
    assert(out.contains(id) <==> ids.contains(id) && set.len() >= q);
    assert(set.subset_of(acks.dom()));
    vstd::set_lib::lemma_len_subset(set, acks.dom());
    if set.len() >= q {
        let who = set.to_seq().take(q as int);
        lemma_listed(set);
        assert forall|i: int| 0 <= i < who.len() implies acks::acked_by(
            acks,
            #[trigger] who[i],
            id,
        ) by {
            assert(set.to_seq()[i] == who[i]);
            assert(set.to_seq().contains(who[i]));
            assert(set.contains(who[i]));
        }
        assert(witnessed(acks, id, who, q));
    }
    if exists|who: Seq<u64>| #[trigger] witnessed(acks, id, who, q) {
        let who = choose|who: Seq<u64>| #[trigger] witnessed(acks, id, who, q);
        assert(who.to_set().subset_of(set)) by {
            assert forall|rid: u64| #[trigger] who.to_set().contains(rid) implies set.contains(
                rid,
            ) by {
                let i = who.index_of(rid);
                assert(acks::acked_by(acks, who[i], id));
            }
        }
        who.unique_seq_to_set();
        vstd::set_lib::lemma_len_subset(who.to_set(), set);
    }
}

/// The members of a set, listed.
proof fn lemma_listed(s: Set<u64>)
    requires
        s.finite(),
    ensures
        s.to_seq().len() == s.len(),
        s.to_seq().no_duplicates(),
        forall|x: u64| #[trigger] s.to_seq().contains(x) <==> s.contains(x),
    decreases s.len(),
{
    if s.len() > 0 {
        let x = s.choose();
        let r = s.remove(x);
        lemma_listed(r);
        assert(s.to_seq() == Seq::<u64>::empty().push(x) + r.to_seq());
        let t = s.to_seq();
        assert forall|y: u64| #[trigger] t.contains(y) <==> s.contains(y) by {
            assert(r.to_seq().contains(y) <==> r.contains(y));
            if r.to_seq().contains(y) {
                let i = r.to_seq().index_of(y);
                assert(t[i + 1] == y);
            }
            assert(t[0] == x);
            if t.contains(y) && y != x {
                let i = t.index_of(y);
                assert(r.to_seq()[i - 1] == y);
            }
        }
        assert forall|i: int, j: int| 0 <= i < t.len() && 0 <= j < t.len() && i != j implies t[i]
            != t[j] by {
            if i > 0 && j > 0 {
                assert(t[i] == r.to_seq()[i - 1] && t[j] == r.to_seq()[j - 1]);
            } else if i > 0 {
                assert(t[i] == r.to_seq()[i - 1]);
                assert(r.to_seq().contains(t[i]));
            } else {
                assert(t[j] == r.to_seq()[j - 1]);
                assert(r.to_seq().contains(t[j]));
            }
        }
    } else {
        assert(s =~= Set::empty());
        assert(s.to_seq() =~= Seq::empty());
    }
}

// ── Rates ────────────────────────────────────────────────────────────────

/// The sum of the numbers.
pub open spec fn total(ns: Seq<nat>) -> nat
    decreases ns.len(),
{
    if ns.len() == 0 {
        0
    } else {
        total(ns.drop_last()) + ns.last()
    }
}

/// On some feedback the rate controller `before` becomes `after`.
pub open spec fn hears<R: FecRateController>(before: R, after: R) -> bool {
    exists|state: EncoderSnapshot, loss: LossRate, missing: u32, unused: u32|
        before.may_adapt(state, loss, missing, unused, after)
}

/// A rate controller's history: before request `i` it is `cs[i]`, it then asks for
/// `ns[i]` packets and becomes `ds[i]`, and until the next request it at most hears of
/// feedback.
pub open spec fn requests<R: FecRateController>(
    cs: Seq<R>,
    ds: Seq<R>,
    states: Seq<EncoderSnapshot>,
    ns: Seq<nat>,
) -> bool {
    &&& cs.len() == ns.len() + 1
    &&& ds.len() == ns.len()
    &&& states.len() == ns.len()
    &&& forall|i: int|
        0 <= i < ns.len() ==> cs[i].may_request(states[i], #[trigger] ns[i], ds[i]) && (cs[i + 1]
            == ds[i] || hears(ds[i], cs[i + 1]))
}

/// A constant rate keeps to its rate: over any number of source symbols it asks for
/// the rate times that number of coded packets, rounded down.
pub proof fn lemma_constant_rate_run(
    cs: Seq<ConstantFecRate>,
    ds: Seq<ConstantFecRate>,
    states: Seq<EncoderSnapshot>,
    ns: Seq<nat>,
    numer: nat,
    denom: nat,
)
    requires
        denom > 0,
        requests(cs, ds, states, ns),
        cs[0].rate_numer() == numer,
        cs[0].rate_denom() == denom,
        cs[0].accumulated() == 0,
    ensures
        total(ns) == (ns.len() * numer) / denom,
{
    lemma_rate_run(cs, ds, states, ns, numer, denom);
}

/// What is asked for and what is left over account for every symbol.
proof fn lemma_rate_run(
    cs: Seq<ConstantFecRate>,
    ds: Seq<ConstantFecRate>,
    states: Seq<EncoderSnapshot>,
    ns: Seq<nat>,
    numer: nat,
    denom: nat,
)
    requires
        denom > 0,
        requests(cs, ds, states, ns),
        cs[0].rate_numer() == numer,
        cs[0].rate_denom() == denom,
        cs[0].accumulated() == 0,
    ensures
        cs.last().rate_numer() == numer,
        cs.last().rate_denom() == denom,
        cs.last().accumulated() < denom,
        ns.len() * numer == total(ns) * denom + cs.last().accumulated(),
        total(ns) == (ns.len() * numer) / denom,
    decreases ns.len(),
{
    let k = ns.len();
    if k == 0 {
        assert(0 * numer == 0) by (nonlinear_arith);
        assert(0 * denom == 0) by (nonlinear_arith);
        vstd::arithmetic::div_mod::lemma_basic_div(0, denom as int);
    } else {
        let ns1 = ns.drop_last();
        let cs1 = cs.drop_last();
        let ds1 = ds.drop_last();
        let st1 = states.drop_last();
        assert forall|i: int| 0 <= i < ns1.len() implies cs1[i].may_request(
            st1[i],
            #[trigger] ns1[i],
            ds1[i],
        ) && (cs1[i + 1] == ds1[i] || hears(ds1[i], cs1[i + 1])) by {
            assert(ns1[i] == ns[i]);
        }
        lemma_rate_run(cs1, ds1, st1, ns1, numer, denom);
        let c = cs[k - 1];
        let n = ns[k - 1];
        let a = c.accumulated();
        assert(c == cs1.last());
        assert(c.may_request(states[k - 1], n, ds[k - 1]));
        assert(cs.last() == cs[k - 1 + 1]);
        assert(cs.last() == ds[k - 1]);
        let b = cs.last().accumulated();
        vstd::arithmetic::div_mod::lemma_fundamental_div_mod((a + numer) as int, denom as int);
        vstd::arithmetic::div_mod::lemma_mod_bound((a + numer) as int, denom as int);
        let t1 = total(ns1);
        assert(total(ns) == t1 + n);
        assert(k * numer == (t1 + n) * denom + b) by (nonlinear_arith)
            requires
                (k - 1) * numer == t1 * denom + a,
                a + numer == denom * n + b,
        ;
        vstd::arithmetic::div_mod::lemma_fundamental_div_mod_converse(
            (k * numer) as int,
            denom as int,
            (t1 + n) as int,
            b as int,
        );
    }
}

// ── Feedback ─────────────────────────────────────────────────────────────

/// A feedback policy's history: asked about packet `i` it is `ps[i]`, answers `rs[i]`
/// and becomes `ps[i + 1]`.
pub open spec fn decisions<F: FeedbackPolicy>(
    ps: Seq<F>,
    states: Seq<DecoderState>,
    rs: Seq<bool>,
) -> bool {
    &&& ps.len() == rs.len() + 1
    &&& states.len() == rs.len()
    &&& forall|i: int|
        0 <= i < rs.len() ==> ps[i].may_decide(states[i], #[trigger] rs[i], ps[i + 1])
}

/// Feedback with a period is due after every `period`-th packet and after no other.
pub proof fn lemma_feedback_period(
    ps: Seq<ConstantFeedbackPolicy>,
    states: Seq<DecoderState>,
    rs: Seq<bool>,
    period: nat,
    i: int,
)
    requires
        period > 0,
        decisions(ps, states, rs),
        ps[0].every() == period,
        ps[0].since() == 0,
        0 <= i < rs.len(),
    ensures
        rs[i] <==> (i + 1) % (period as int) == 0,
{
    lemma_since(ps, states, rs, period, i);
    lemma_next_mod(i, period as int);
    assert(ps[i].may_decide(states[i], rs[i], ps[i + 1]));
}

/// The policy has counted the packets since the last multiple of its period.
proof fn lemma_since(
    ps: Seq<ConstantFeedbackPolicy>,
    states: Seq<DecoderState>,
    rs: Seq<bool>,
    period: nat,
    i: int,
)
    requires
        period > 0,
        decisions(ps, states, rs),
        ps[0].every() == period,
        ps[0].since() == 0,
        0 <= i < ps.len(),
    ensures
        ps[i].every() == period,
        ps[i].since() == i % (period as int),
    decreases i,
{
    if i == 0 {
        vstd::arithmetic::div_mod::lemma_small_mod(0, period);
    } else {
        lemma_since(ps, states, rs, period, i - 1);
        assert(ps[i - 1].may_decide(states[i - 1], rs[i - 1], ps[i - 1 + 1]));
        lemma_next_mod(i - 1, period as int);
    }
}

/// The remainder of the next number.
proof fn lemma_next_mod(i: int, period: int)
    requires
        0 <= i,
        0 < period,
    ensures
        0 <= i % period < period,
        (i + 1) % period == (if i % period + 1 == period {
            0
        } else {
            i % period + 1
        }),
{
    let q = i / period;
    let r = i % period;
    vstd::arithmetic::div_mod::lemma_fundamental_div_mod(i, period);
    vstd::arithmetic::div_mod::lemma_mod_bound(i, period);
    if r + 1 == period {
        assert((q + 1) * period == i + 1) by (nonlinear_arith)
            requires
                i == period * q + r,
                r + 1 == period,
        ;
        vstd::arithmetic::div_mod::lemma_fundamental_div_mod_converse(i + 1, period, q + 1, 0);
    } else {
        assert(q * period + (r + 1) == i + 1) by (nonlinear_arith)
            requires
                i == period * q + r,
        ;
        vstd::arithmetic::div_mod::lemma_fundamental_div_mod_converse(i + 1, period, q, r + 1);
    }
}

/// Immediate feedback is due after every packet.
pub proof fn lemma_feedback_immediate(
    ps: Seq<ImmediateFeedbackPolicy>,
    states: Seq<DecoderState>,
    rs: Seq<bool>,
    i: int,
)
    requires
        decisions(ps, states, rs),
        0 <= i < rs.len(),
    ensures
        rs[i],
{
}

// ── Congestion control ───────────────────────────────────────────────────

/// Without congestion control nothing is announced and sending is always allowed.
pub proof fn lemma_uncontrolled(c: NoCongestionControl, cci: Seq<u8>, allowed: bool)
    ensures
        c.may_emit(cci) ==> cci == Seq::<u8>::empty(),
        c.may_permit(allowed) ==> allowed,
{
}

// ── Acknowledgements ─────────────────────────────────────────────────────

/// Feedback makes its sender known, and no other receiver.
pub proof fn lemma_receivers(acks: Acks, rid: u64, pkt: FeedbackModel, x: u64)
    ensures
        acks::acks_updated(acks, rid, pkt).contains_key(x) <==> acks.contains_key(x) || x == rid,
        acks.dom().finite() ==> acks::acks_updated(acks, rid, pkt).len() == acks.len() + (
        if acks.contains_key(rid) { 0nat } else { 1 }),
{
    assert(acks::acks_updated(acks, rid, pkt).dom() =~= acks.dom().insert(rid));
}

/// Feedback acknowledges everything before the next delivery and what its SACK vector
/// says, and takes back nothing that its sender has acknowledged before.
pub proof fn lemma_acknowledged(acks: Acks, rid: u64, pkt: FeedbackModel, who: u64, id: u32)
    ensures
        acks::acked_by(acks::acks_updated(acks, rid, pkt), who, id) <==> acks::acked_by(
            acks,
            who,
            id,
        ) || (who == rid && (id < pkt.first_src_id || feedback::sack_bit(
            pkt.sack,
            id - pkt.first_src_id,
        ))),
        !acks::acked_by(Map::empty(), who, id),
{
    if who == rid {
        acks::lemma_update_adds_acks(acks, rid, pkt, id);
    } else {
        acks::lemma_update_keeps_others(acks, rid, pkt, who, id);
    }
}

} // verus!
