//! What an encoder's operations do, in terms of the window, the acknowledgements and
//! the packets that come out.
use vstd::prelude::*;

use crate::codec::encoder::model;
use crate::codec::encoder::model::{EncoderModel, OutputModel};
use crate::codec::encoder::window;
use crate::codec::encoder::window::SymbolModel;
use crate::codec::encoder::{outputs, Encoder, EncoderOutput};
use crate::codec::laws as session;
use crate::config::{BackpressureMode, Field, MatrixStrategy};
use crate::error::{DelpError, Result};
use crate::policy::acks;
use crate::policy::defaults::{AllAckPolicy, AnyAckPolicy, ConstantFecRate, QuorumAckPolicy};
use crate::policy::laws::{hears, in_order, picked, total, witnessed};
use crate::policy::{CongestionControl, EncoderSnapshot, FecRateController, WindowPolicy};
use crate::wire::coded;
use crate::wire::ev;
use crate::wire::feedback::FeedbackModel;
use crate::wire::source;

verus! {

/// The window holds a symbol with the id.
pub open spec fn in_window(m: EncoderModel, id: u32) -> bool {
    exists|i: int| 0 <= i < m.window.len() && (#[trigger] m.window[i]).0 == id
}

/// The ids of the window, one by one.
pub proof fn lemma_ids(m: EncoderModel)
    ensures
        m.ids().len() == m.window.len(),
        forall|i: int| 0 <= i < m.window.len() ==> #[trigger] m.ids()[i] == m.window[i].0,
        forall|id: u32| #[trigger] m.ids().contains(id) <==> in_window(m, id),
{
    assert forall|id: u32| #[trigger] m.ids().contains(id) <==> in_window(m, id) by {
        if m.ids().contains(id) {
            let i = m.ids().index_of(id);
            assert(m.window[i].0 == id);
        }
        if in_window(m, id) {
            let i = choose|i: int| 0 <= i < m.window.len() && (#[trigger] m.window[i]).0 == id;
            assert(m.ids()[i] == id);
        }
    }
}

// ── Submitting symbols ───────────────────────────────────────────────────

/// A submitted symbol enters the window as the newest one, under the next id.  A full
/// window loses its oldest symbol and no other, or refuses the new one.
///
/// A symbol is refused exactly where its size is wrong, the ids are used up, or the
/// window is full and the encoder was told to reject; it then changes nothing.
pub proof fn lemma_submission<W, C, F>(
    pre: Encoder<W, C, F>,
    data: Seq<u8>,
    r: Result<Vec<EncoderOutput>>,
    post: Encoder<W, C, F>,
) where W: WindowPolicy, C: CongestionControl, F: FecRateController
    requires
        pre.wf(),
        Encoder::submitted(pre, data, r, post),
    ensures
        r is Ok <==> data.len() == pre@.params.symbol_size && pre@.next_id < u32::MAX && (
        pre@.window.len() < pre@.params.window_capacity || pre@.params.backpressure
            == BackpressureMode::EvictOldest),
        r matches Err(e) ==> match e {
            DelpError::SymbolSizeMismatch { expected, actual } => expected
                == pre@.params.symbol_size && actual == data.len() as usize && data.len()
                != expected,
            DelpError::SourceIdExhausted => data.len() == pre@.params.symbol_size && pre@.next_id
                == u32::MAX,
            DelpError::WindowFull { capacity } => data.len() == pre@.params.symbol_size
                && pre@.next_id < u32::MAX && capacity == pre@.params.window_capacity
                && pre@.window.len() == capacity && pre@.params.backpressure
                == BackpressureMode::Reject,
            _ => false,
        },
        r is Err ==> post@ == pre@,
        r is Ok ==> ({
            let full = pre@.window.len() == pre@.params.window_capacity;
            let lost: int = if full { 1 } else { 0 };
            &&& post@.window.len() == pre@.window.len() + 1 - lost
            &&& post@.window.len() <= pre@.params.window_capacity
            &&& forall|i: int|
                lost <= i < pre@.window.len() ==> #[trigger] pre@.window[i] == post@.window[i
                    - lost]
            &&& post@.window.last() == (pre@.next_id, data)
            &&& post@.next_id == pre@.next_id + 1
            &&& post@.params == pre@.params
            &&& post@.acks == pre@.acks
            &&& post@.loss == pre@.loss
        }),
{
    pre.lemma_wf();
    if let Ok(out) = r {
        let m = pre@.after_push(data);
        model::lemma_after_push_wf(pre@, data);
        session::lemma_after_coded_n(m, (out@.len() - 1) as nat);
        lemma_loss_kept(m, (out@.len() - 1) as nat);
    }
}

/// Coded packets leave the reported loss rate alone and are counted.
proof fn lemma_loss_kept(m: EncoderModel, n: nat)
    ensures
        m.after_coded_n(n).loss == m.loss,
        m.after_coded_n(n).used == (m.used + n) % 0x1_0000_0000_0000_0000,
    decreases n,
{
    if n > 0 {
        lemma_loss_kept(m, (n - 1) as nat);
    }
}

/// The packet is a source packet that gives back the symbol `data` under the id `id`.
pub open spec fn carries(out: OutputModel, id: u32, data: Seq<u8>) -> bool {
    &&& out is Source
    &&& source::source_from(out.bytes()) matches Ok(p) && p.id == id && p.payload == data
}

/// The packet is a coded packet that lists the ids `cover` and combines symbols of
/// `size` bytes.
pub open spec fn combines(out: OutputModel, cover: Seq<u32>, size: nat) -> bool {
    &&& out is Coded
    &&& coded::coded_from(out.bytes()) matches Ok(p) && p.ev.ids == cover && p.payload.len()
        == size
}

/// A submission sends the new symbol in a source packet of its own, and after it
/// coded packets over everything that is then in the window.  The coded packets are
/// as many as the rate controller asks for, and each of them is counted.
pub proof fn lemma_submission_packets<W, C, F>(
    pre: Encoder<W, C, F>,
    data: Seq<u8>,
    out: Vec<EncoderOutput>,
    post: Encoder<W, C, F>,
    i: int,
) where W: WindowPolicy, C: CongestionControl, F: FecRateController
    requires
        pre.wf(),
        Encoder::submitted(pre, data, Ok(out), post),
        1 <= i < out@.len(),
    ensures
        ({
            let m = pre@.after_push(data).after_coded_n((i - 1) as nat);
            out@[i]@ is Coded && (ev::fits_wire(m.vector(post@.ids())) ==> combines(
                out@[i]@,
                post@.ids(),
                pre@.params.symbol_size as nat,
            ))
        }),
{
    pre.lemma_wf();
    let m0 = pre@.after_push(data);
    let m = m0.after_coded_n((i - 1) as nat);
    model::lemma_after_push_wf(pre@, data);
    session::lemma_after_coded_n(m0, (out@.len() - 1) as nat);
    session::lemma_after_coded_n(m0, (i - 1) as nat);
    let ccs = choose|ccs: Seq<C>| #[trigger]
        model::submit_output(m0, outputs(out@), ccs) && ccs[0] == pre.control() && ccs.last()
            == post.control();
    assert(outputs(out@)[i] == out@[i]@);
    assert(model::coded_output(m, m0.ids(), ccs[i], out@[i]@, ccs[i + 1]));
    lemma_output_read(m, post@.ids(), ccs[i], out@[i]@, ccs[i + 1]);
}

/// The first packet of a submission carries the symbol, and the others are counted.
pub proof fn lemma_submission_source<W, C, F>(
    pre: Encoder<W, C, F>,
    data: Seq<u8>,
    out: Vec<EncoderOutput>,
    post: Encoder<W, C, F>,
) where W: WindowPolicy, C: CongestionControl, F: FecRateController
    requires
        pre.wf(),
        Encoder::submitted(pre, data, Ok(out), post),
    ensures
        out@.len() >= 1,
        carries(out@[0]@, pre@.next_id, data),
        post@.used == (pre@.used + out@.len() - 1) % 0x1_0000_0000_0000_0000,
{
    let m0 = pre@.after_push(data);
    let ccs = choose|ccs: Seq<C>| #[trigger]
        model::submit_output(m0, outputs(out@), ccs) && ccs[0] == pre.control() && ccs.last()
            == post.control();
    assert(outputs(out@)[0] == out@[0]@);
    let cci = choose|cci: Seq<u8>|
        {
            &&& #[trigger] model::sends(ccs[0], cci, m0.source_packet(cci), ccs[1])
            &&& out@[0]@ == OutputModel::Source(m0.source_packet(cci))
        };
    session::lemma_source_packet_read(m0, cci);
    lemma_loss_kept(m0, (out@.len() - 1) as nat);
}

/// A coded packet over `cover` says so.
proof fn lemma_output_read<C: CongestionControl>(
    m: EncoderModel,
    cover: Seq<u32>,
    cc: C,
    out: OutputModel,
    after: C,
)
    requires
        model::coded_output(m, cover, cc, out, after),
    ensures
        out is Coded,
        ev::fits_wire(m.vector(cover)) ==> combines(out, cover, m.params.symbol_size as nat),
{
    let cci = choose|cci: Seq<u8>|
        {
            &&& #[trigger] model::sends(cc, cci, m.coded_packet(cover, cci), after)
            &&& out == OutputModel::Coded(m.coded_packet(cover, cci))
        };
    if ev::fits_wire(m.vector(cover)) {
        session::lemma_coded_packet_read(m, cover, cci);
    }
}

// ── Generating coded packets ─────────────────────────────────────────────

/// A packet was generated over `cover`: there is one exactly where `cover` is not
/// empty, it lists these ids, and the window stays as it is.
pub proof fn lemma_generated<W, C, F>(
    pre: Encoder<W, C, F>,
    cover: Seq<u32>,
    r: Result<Option<EncoderOutput>>,
    post: Encoder<W, C, F>,
) where W: WindowPolicy, C: CongestionControl, F: FecRateController
    requires
        Encoder::generated(pre, cover, r, post),
    ensures
        r is Ok,
        r->Ok_0 is Some <==> cover.len() > 0,
        r matches Ok(Some(out)) ==> out@ is Coded && (ev::fits_wire(pre@.vector(cover))
            ==> combines(out@, cover, pre@.params.symbol_size as nat)),
        post@.used == (pre@.used + (if r->Ok_0 is Some { 1int } else { 0 }))
            % 0x1_0000_0000_0000_0000,
        post@.window == pre@.window,
        post@.next_id == pre@.next_id,
        post@.acks == pre@.acks,
        post@.loss == pre@.loss,
        post@.params == pre@.params,
{
    if let Ok(Some(out)) = r {
        lemma_output_read(pre@, cover, pre.control(), out@, post.control());
    }
}

/// What is covered for a receiver: exactly the ids of the window that this receiver
/// has not acknowledged, the oldest one first.
pub proof fn lemma_receiver_cover(m: EncoderModel, rid: u64, id: u32)
    ensures
        m.unacked(rid).contains(id) <==> in_window(m, id) && !acks::acked_by(m.acks, rid, id),
        in_order(m.unacked(rid), m.ids()),
{
    lemma_ids(m);
    crate::policy::laws::lemma_filter(m.ids(), |x: u32| !acks::acked_by(m.acks, rid, x));
}

/// The packet for a receiver: there is none exactly where the receiver has
/// acknowledged the whole window, and otherwise it lists exactly the ids of the window
/// that this receiver has not acknowledged.
pub proof fn lemma_receiver_packet<W, C, F>(
    pre: Encoder<W, C, F>,
    rid: u64,
    r: Result<Option<EncoderOutput>>,
    post: Encoder<W, C, F>,
) where W: WindowPolicy, C: CongestionControl, F: FecRateController
    requires
        Encoder::generated(pre, pre@.unacked(rid), r, post),
    ensures
        r is Ok,
        r->Ok_0 is None <==> forall|id: u32| #[trigger]
            in_window(pre@, id) ==> acks::acked_by(pre@.acks, rid, id),
        r matches Ok(Some(out)) ==> out@ is Coded && (ev::fits_wire(
            pre@.vector(pre@.unacked(rid)),
        ) ==> (coded::coded_from(out@.bytes()) matches Ok(p) && (forall|id: u32| #[trigger]
            p.ev.ids.contains(id) <==> in_window(pre@, id) && !acks::acked_by(pre@.acks, rid, id))
            && in_order(p.ev.ids, pre@.ids()))),
{
    let cover = pre@.unacked(rid);
    lemma_generated(pre, cover, r, post);
    assert forall|id: u32| #[trigger]
        cover.contains(id) <==> in_window(pre@, id) && !acks::acked_by(pre@.acks, rid, id) by {
        lemma_receiver_cover(pre@, rid, id);
    }
    lemma_receiver_cover(pre@, rid, 0);
    if cover.len() > 0 {
        assert(cover.contains(cover[0]));
        assert(in_window(pre@, cover[0]));
    } else {
        assert forall|id: u32| #[trigger] in_window(pre@, id) implies acks::acked_by(
            pre@.acks,
            rid,
            id,
        ) by {
            assert(!cover.contains(id));
        }
    }
}

/// What others acknowledge changes nothing for a receiver: two encoders with the same
/// window, of which this receiver has acknowledged the same, cover the same for it.
pub proof fn lemma_receivers_apart(m: EncoderModel, n: EncoderModel, rid: u64)
    requires
        m.window == n.window,
        forall|id: u32| #[trigger]
            acks::acked_by(m.acks, rid, id) <==> acks::acked_by(n.acks, rid, id),
    ensures
        m.unacked(rid) == n.unacked(rid),
{
    assert((|x: u32| !acks::acked_by(m.acks, rid, x)) =~= (|x: u32|
        !acks::acked_by(n.acks, rid, x)));
}

/// Feedback from another receiver leaves what is covered for this one as it was.
pub proof fn lemma_feedback_of_others(
    m: EncoderModel,
    other: u64,
    pkt: FeedbackModel,
    rid: u64,
)
    requires
        other != rid,
    ensures
        (EncoderModel { acks: acks::acks_updated(m.acks, other, pkt), ..m }).unacked(rid)
            == m.unacked(rid),
{
    let n = EncoderModel { acks: acks::acks_updated(m.acks, other, pkt), ..m };
    assert forall|id: u32| #[trigger]
        acks::acked_by(m.acks, rid, id) <==> acks::acked_by(n.acks, rid, id) by {
        acks::lemma_update_keeps_others(m.acks, other, pkt, rid, id);
    }
    lemma_receivers_apart(m, n, rid);
}

/// What the packet over the newest symbols covers: as many as were asked for or the
/// window holds, and each of them in its place from the end of the window.
pub proof fn lemma_recent_cover(m: EncoderModel, n: nat)
    ensures
        m.recent(n).len() == (if n < m.window.len() { n } else { m.window.len() }),
        forall|i: int|
            0 <= i < m.recent(n).len() ==> #[trigger] m.recent(n)[i] == m.window[m.window.len()
                - m.recent(n).len() + i].0,
{
    lemma_ids(m);
}

/// What a targeted packet covers: exactly the wanted ids of the window, the oldest one
/// first, in whatever order and however often they were asked for.
pub proof fn lemma_targeted_cover(m: EncoderModel, wanted: Seq<u32>, id: u32)
    ensures
        m.present(wanted).contains(id) <==> in_window(m, id) && wanted.contains(id),
        in_order(m.present(wanted), m.ids()),
{
    lemma_ids(m);
    crate::policy::laws::lemma_filter(m.ids(), |x: u32| wanted.contains(x));
}

/// How coded packets are numbered: a Cauchy encoder counts through 128 ids from zero,
/// or 7 over the small field; a Vandermonde encoder through 254 from one, or 14.
pub proof fn lemma_numbers(m: EncoderModel)
    ensures
        ({
            let p = m.params;
            let cauchy = p.matrix_strategy == MatrixStrategy::Cauchy;
            let cycle: int = match (p.field, cauchy) {
                (Field::Gf2_8, true) => 128,
                (Field::Gf2_8, false) => 254,
                (Field::Gf2_4, true) => 7,
                (Field::Gf2_4, false) => 14,
            };
            let first: int = if cauchy { 0 } else { 1 };
            &&& model::cycle_of(p) == cycle
            &&& model::first_coded_id(p) == first
            &&& m.wf() ==> first <= m.next_coded_id < first + cycle
            &&& m.wf() && m.next_coded_id + 1 < first + cycle ==> m.after_coded().next_coded_id
                == m.next_coded_id + 1 && m.after_coded().generation == m.generation
            &&& m.wf() && m.next_coded_id + 1 == first + cycle ==> m.after_coded().next_coded_id
                == first && m.after_coded().generation == (if cauchy {
                (m.generation + 1) % 256
            } else {
                0
            })
        }),
{
}

// ── Feedback ─────────────────────────────────────────────────────────────

/// A symbol stays in the window where its id was not removed, and only there, with its
/// data, in the order of before.  The feedback is taken down and handed to the rate
/// controller and the congestion control, and nothing else changes.
pub proof fn lemma_adapted<W, C, F>(
    pre: Encoder<W, C, F>,
    rid: u64,
    pkt: FeedbackModel,
    removed: Seq<u32>,
    post: Encoder<W, C, F>,
) where W: WindowPolicy, C: CongestionControl, F: FecRateController
    requires
        Encoder::adapted(pre, rid, pkt, removed, post),
    ensures
        in_order(post@.window, pre@.window),
        forall|i: int|
            0 <= i < pre@.window.len() ==> (post@.window.contains(#[trigger] pre@.window[i])
                <==> !removed.contains(pre@.window[i].0)),
        forall|r: u64, id: u32| #[trigger]
            acks::acked_by(post@.acks, r, id) <==> acks::acked_by(pre@.acks, r, id) || (r == rid
                && (id < pkt.first_src_id || pkt.acks(id))),
        post@.loss.lost == pkt.plr_raw,
        post@.loss.expected == 256,
        post@.params == pre@.params,
        post@.next_id == pre@.next_id,
        post@.next_coded_id == pre@.next_coded_id,
        post@.generation == pre@.generation,
        post@.used == pre@.used,
        pre.rate().may_adapt(
            seen(post@),
            post@.loss,
            pkt.nb_missing_src,
            pkt.nb_not_used_coded,
            post.rate(),
        ),
        pre.control().may_adapt(
            seen(post@),
            post@.loss,
            pkt.nb_missing_src,
            pkt.nb_not_used_coded,
            post.control(),
        ),
{
    lemma_seen(post@);
    let keep = |p: SymbolModel| !removed.contains(p.0);
    crate::policy::laws::lemma_filter(pre@.window, keep);
    assert(post@.window == pre@.window.filter(keep));
    assert forall|i: int| 0 <= i < pre@.window.len() implies (post@.window.contains(
        #[trigger] pre@.window[i],
    ) <==> !removed.contains(pre@.window[i].0)) by {
        assert(pre@.window.contains(pre@.window[i]));
    }
    assert forall|r: u64, id: u32| #[trigger]
        acks::acked_by(post@.acks, r, id) <==> acks::acked_by(pre@.acks, r, id) || (r == rid && (id
            < pkt.first_src_id || pkt.acks(id))) by {
        if r == rid {
            acks::lemma_update_adds_acks(pre@.acks, rid, pkt, id);
        } else {
            acks::lemma_update_keeps_others(pre@.acks, rid, pkt, r, id);
        }
    }
}

/// With the default policy one acknowledgement by one receiver suffices: after
/// feedback no symbol in the window is acknowledged by anyone, and every symbol that
/// left was acknowledged by someone.
pub proof fn lemma_any_ack_window<C, F>(
    pre: Encoder<AnyAckPolicy, C, F>,
    rid: u64,
    pkt: FeedbackModel,
    removed: Seq<u32>,
    post: Encoder<AnyAckPolicy, C, F>,
) where C: CongestionControl, F: FecRateController
    requires
        Encoder::adapted(pre, rid, pkt, removed, post),
    ensures
        forall|i: int, r: u64|
            0 <= i < post@.window.len() ==> !#[trigger] acks::acked_by(
                post@.acks,
                r,
                post@.window[i].0,
            ),
        forall|i: int|
            0 <= i < pre@.window.len() && !post@.window.contains(#[trigger] pre@.window[i])
                ==> exists|r: u64| #[trigger]
                acks::acked_by(post@.acks, r, pre@.window[i].0),
{
    lemma_adapted(pre, rid, pkt, removed, post);
    lemma_ids(pre@);
    assert forall|i: int, r: u64| 0 <= i < post@.window.len() implies !#[trigger] acks::acked_by(
        post@.acks,
        r,
        post@.window[i].0,
    ) by {
        let j = lemma_kept_from(pre@.window, post@.window, i);
        let id = pre@.window[j].0;
        crate::policy::laws::lemma_any_ack(
            pre.policy(),
            post@.acks,
            pre@.ids(),
            removed,
            post.policy(),
            id,
        );
        assert(in_window(pre@, id));
        assert(pre@.ids().contains(id));
        assert(post@.window.contains(pre@.window[j]));
        assert(!removed.contains(id));
        if acks::acked_by(post@.acks, r, id) {
            assert(removed.contains(id));
        }
    }
    assert forall|i: int|
        0 <= i < pre@.window.len() && !post@.window.contains(
            #[trigger] pre@.window[i],
        ) implies exists|r: u64| #[trigger]
        acks::acked_by(post@.acks, r, pre@.window[i].0) by {
        crate::policy::laws::lemma_any_ack(
            pre.policy(),
            post@.acks,
            pre@.ids(),
            removed,
            post.policy(),
            pre@.window[i].0,
        );
    }
}

/// A member of what stayed stood somewhere before.
proof fn lemma_kept_from<T>(before: Seq<T>, after: Seq<T>, i: int) -> (j: int)
    requires
        in_order(after, before),
        0 <= i < after.len(),
    ensures
        0 <= j < before.len(),
        before[j] == after[i],
{
    let at = choose|at: Seq<int>| picked(after, before, at);
    assert(0 <= at[i] < before.len() && after[i] == before[at[i]]);
    at[i]
}

/// With the policy that waits for all, a symbol leaves the window exactly where every
/// receiver that has been heard of has acknowledged it.
pub proof fn lemma_all_ack_window<C, F>(
    pre: Encoder<AllAckPolicy, C, F>,
    rid: u64,
    pkt: FeedbackModel,
    removed: Seq<u32>,
    post: Encoder<AllAckPolicy, C, F>,
    i: int,
) where C: CongestionControl, F: FecRateController
    requires
        pre@.acks.dom().finite(),
        Encoder::adapted(pre, rid, pkt, removed, post),
        0 <= i < pre@.window.len(),
    ensures
        post@.window.contains(pre@.window[i]) <==> exists|r: u64| #[trigger]
            post@.acks.contains_key(r) && !acks::acked_by(post@.acks, r, pre@.window[i].0),
{
    let id = pre@.window[i].0;
    lemma_adapted(pre, rid, pkt, removed, post);
    lemma_ids(pre@);
    crate::policy::laws::lemma_all_ack(
        pre.policy(),
        post@.acks,
        pre@.ids(),
        removed,
        post.policy(),
        id,
    );
    assert(in_window(pre@, id));
    assert(pre@.ids().contains(id));
    assert(post@.acks.contains_key(rid));
}

/// With a quorum, a symbol leaves the window exactly where that many different
/// receivers have acknowledged it.
pub proof fn lemma_quorum_ack_window<C, F>(
    pre: Encoder<QuorumAckPolicy, C, F>,
    rid: u64,
    pkt: FeedbackModel,
    removed: Seq<u32>,
    post: Encoder<QuorumAckPolicy, C, F>,
    i: int,
) where C: CongestionControl, F: FecRateController
    requires
        pre@.acks.dom().finite(),
        Encoder::adapted(pre, rid, pkt, removed, post),
        0 <= i < pre@.window.len(),
    ensures
        post@.window.contains(pre@.window[i]) <==> !exists|who: Seq<u64>| #[trigger]
            witnessed(post@.acks, pre@.window[i].0, who, pre.policy().quorum as nat),
        post.policy().quorum == pre.policy().quorum,
{
    let id = pre@.window[i].0;
    lemma_adapted(pre, rid, pkt, removed, post);
    lemma_ids(pre@);
    crate::policy::laws::lemma_quorum_ack(
        pre.policy(),
        post@.acks,
        pre@.ids(),
        removed,
        post.policy(),
        id,
    );
    assert(in_window(pre@, id));
    assert(pre@.ids().contains(id));
}

/// Nobody has acknowledged anything to a new encoder, and its window is empty.
pub proof fn lemma_fresh(params: crate::config::EncoderParams, rid: u64, id: u32)
    ensures
        !in_window(EncoderModel::initial(params), id),
        !acks::acked_by(EncoderModel::initial(params).acks, rid, id),
        EncoderModel::initial(params).next_id == 0,
        EncoderModel::initial(params).used == 0,
        EncoderModel::initial(params).generation == 0,
        EncoderModel::initial(params).params == params,
        EncoderModel::initial(params).loss.lost == 0,
{
}

// ── Runs ─────────────────────────────────────────────────────────────────

/// An encoder's history: before submission `i` it is `es[i]`, the symbol is accepted,
/// the packets `outs[i]` come out and it becomes `mids[i]`; until the next submission
/// its rate controller at most hears of feedback.
pub open spec fn submissions<W, C, F>(
    es: Seq<Encoder<W, C, F>>,
    datas: Seq<Seq<u8>>,
    outs: Seq<Vec<EncoderOutput>>,
    mids: Seq<Encoder<W, C, F>>,
) -> bool where W: WindowPolicy, C: CongestionControl, F: FecRateController {
    &&& es.len() == outs.len() + 1
    &&& datas.len() == outs.len()
    &&& mids.len() == outs.len()
    &&& forall|i: int|
        0 <= i < outs.len() ==> Encoder::submitted(
            es[i],
            datas[i],
            Ok(#[trigger] outs[i]),
            mids[i],
        ) && (es[i + 1].rate() == mids[i].rate() || hears(mids[i].rate(), es[i + 1].rate()))
}

/// How many coded packets came out of each submission.
pub open spec fn coded_counts(outs: Seq<Vec<EncoderOutput>>) -> Seq<nat> {
    Seq::new(outs.len(), |i: int| (outs[i]@.len() - 1) as nat)
}

/// An encoder with a constant rate sends, over any number of submissions, the rate
/// times that number of coded packets, rounded down.
pub proof fn lemma_constant_rate_session<W, C>(
    es: Seq<Encoder<W, C, ConstantFecRate>>,
    datas: Seq<Seq<u8>>,
    outs: Seq<Vec<EncoderOutput>>,
    mids: Seq<Encoder<W, C, ConstantFecRate>>,
    numer: nat,
    denom: nat,
) where W: WindowPolicy, C: CongestionControl
    requires
        denom > 0,
        submissions(es, datas, outs, mids),
        es[0].rate().rate_numer() == numer,
        es[0].rate().rate_denom() == denom,
        es[0].rate().accumulated() == 0,
    ensures
        total(coded_counts(outs)) == (outs.len() * numer) / denom,
{
    let ns = coded_counts(outs);
    let cs = Seq::new(es.len(), |i: int| es[i].rate());
    let ds = Seq::new(mids.len(), |i: int| mids[i].rate());
    let states = Seq::new(
        outs.len(),
        |i: int| es[i]@.after_push(datas[i]).snapshot(),
    );
    assert forall|i: int| 0 <= i < ns.len() implies cs[i].may_request(
        states[i],
        #[trigger] ns[i],
        ds[i],
    ) && (cs[i + 1] == ds[i] || hears(ds[i], cs[i + 1])) by {
        let _out = outs[i];
    }
    crate::policy::laws::lemma_constant_rate_run(cs, ds, states, ns, numer, denom);
}

// ── Strategies ───────────────────────────────────────────────────────────

/// What the strategies are shown of an encoder.
pub open spec fn seen(m: EncoderModel) -> EncoderSnapshot {
    EncoderSnapshot {
        window_size: m.window.len(),
        window_capacity: m.params.window_capacity as nat,
        next_source_id: m.next_id,
        next_coded_id: m.next_coded_id,
        loss_rate: m.loss,
        window_ids: Seq::new(m.window.len(), |i: int| m.window[i].0),
    }
}

/// The strategies are shown the encoder as it is.
pub proof fn lemma_seen(m: EncoderModel)
    ensures
        m.snapshot() == seen(m),
{
    lemma_ids(m);
    assert(m.ids() =~= Seq::new(m.window.len(), |i: int| m.window[i].0));
}

/// How one packet passes the congestion control: the control gives its CCI bytes, is
/// told the length of the packet, and the packet carries the bytes.
pub open spec fn passes<C: CongestionControl>(
    cc: C,
    cci: Seq<u8>,
    out: OutputModel,
    after: C,
) -> bool {
    &&& cc.may_emit(cci)
    &&& cc.may_note(out.bytes().len(), after)
    &&& out.bytes().len() >= 4 + cci.len()
    &&& out.bytes().subrange(4, 4 + cci.len() as int) == cci
}

/// The CCI bytes with which a packet passed.
spec fn cci_of<C: CongestionControl>(cc: C, out: OutputModel, after: C) -> Seq<u8> {
    choose|cci: Seq<u8>| passes(cc, cci, out, after)
}

/// Every packet of a submission passes the congestion control once, one after the
/// other.  The rate controller is asked once, when the symbol is in the window and no
/// coded packet has gone out yet.
pub proof fn lemma_submission_strategies<W, C, F>(
    pre: Encoder<W, C, F>,
    data: Seq<u8>,
    out: Vec<EncoderOutput>,
    post: Encoder<W, C, F>,
) -> (r: (Seq<C>, Seq<Seq<u8>>)) where W: WindowPolicy, C: CongestionControl, F: FecRateController
    requires
        pre.wf(),
        Encoder::submitted(pre, data, Ok(out), post),
    ensures
        r.0.len() == out@.len() + 1,
        r.0[0] == pre.control(),
        r.0.last() == post.control(),
        forall|i: int|
            0 <= i < out@.len() ==> passes(r.0[i], r.1[i], (#[trigger] out@[i])@, r.0[i + 1]),
        pre.rate().may_request(
            (EncoderSnapshot { next_coded_id: pre@.next_coded_id, ..seen(post@) }),
            (out@.len() - 1) as nat,
            post.rate(),
        ),
        post.policy() == pre.policy(),
{
    pre.lemma_wf();
    let m0 = pre@.after_push(data);
    model::lemma_after_push_wf(pre@, data);
    session::lemma_after_coded_n(m0, (out@.len() - 1) as nat);
    lemma_loss_kept(m0, (out@.len() - 1) as nat);
    lemma_seen(m0);
    assert(m0.snapshot() == (EncoderSnapshot {
        next_coded_id: pre@.next_coded_id,
        ..seen(post@)
    }));
    let ccs = choose|ccs: Seq<C>| #[trigger]
        model::submit_output(m0, outputs(out@), ccs) && ccs[0] == pre.control() && ccs.last()
            == post.control();
    let ccis = Seq::new(
        out@.len(),
        |i: int| cci_of(ccs[i], out@[i]@, ccs[i + 1]),
    );
    assert forall|i: int| 0 <= i < out@.len() implies passes(
        ccs[i],
        ccis[i],
        (#[trigger] out@[i])@,
        ccs[i + 1],
    ) by {
        assert(outputs(out@)[i] == out@[i]@);
        let cci = if i == 0 {
            lemma_source_passes(m0, ccs[0], out@[0]@, ccs[1])
        } else {
            let m = m0.after_coded_n((i - 1) as nat);
            assert(model::coded_output(m, m0.ids(), ccs[i], outputs(out@)[i], ccs[i + 1]));
            lemma_coded_passes(m, m0.ids(), ccs[i], out@[i]@, ccs[i + 1])
        };
        assert(passes(ccs[i], cci, out@[i]@, ccs[i + 1]));
    }
    (ccs, ccis)
}

proof fn lemma_source_passes<C: CongestionControl>(
    m: EncoderModel,
    cc: C,
    out: OutputModel,
    after: C,
) -> (cci: Seq<u8>)
    requires
        model::source_output(m, cc, out, after),
    ensures
        passes(cc, cci, out, after),
{
    let cci = choose|cci: Seq<u8>|
        {
            &&& #[trigger] model::sends(cc, cci, m.source_packet(cci), after)
            &&& out == OutputModel::Source(m.source_packet(cci))
        };
    crate::wire::laws::lemma_source_layout(m.window.last().0, m.window.last().1, cci, None);
    cci
}

proof fn lemma_coded_passes<C: CongestionControl>(
    m: EncoderModel,
    cover: Seq<u32>,
    cc: C,
    out: OutputModel,
    after: C,
) -> (cci: Seq<u8>)
    requires
        model::coded_output(m, cover, cc, out, after),
    ensures
        passes(cc, cci, out, after),
{
    let cci = choose|cci: Seq<u8>|
        {
            &&& #[trigger] model::sends(cc, cci, m.coded_packet(cover, cci), after)
            &&& out == OutputModel::Coded(m.coded_packet(cover, cci))
        };
    crate::wire::laws::lemma_coded_layout(
        m.next_coded_id,
        m.vector(cover),
        m.payload(cover),
        cci,
        None,
        m.lag(cover),
    );
    cci
}

/// A generated packet passes the congestion control once; where there is none, the
/// control hears nothing.  The rate controller and the window policy are not asked.
pub proof fn lemma_generated_strategies<W, C, F>(
    pre: Encoder<W, C, F>,
    cover: Seq<u32>,
    r: Result<Option<EncoderOutput>>,
    post: Encoder<W, C, F>,
) where W: WindowPolicy, C: CongestionControl, F: FecRateController
    requires
        Encoder::generated(pre, cover, r, post),
    ensures
        r matches Ok(Some(out)) ==> exists|cci: Seq<u8>| #[trigger]
            passes(pre.control(), cci, out@, post.control()),
        r == Ok::<Option<EncoderOutput>, DelpError>(None) ==> post.control() == pre.control(),
        post.rate() == pre.rate(),
        post.policy() == pre.policy(),
{
    if let Ok(Some(out)) = r {
        let cci = lemma_coded_passes(pre@, cover, pre.control(), out@, post.control());
        assert(passes(pre.control(), cci, out@, post.control()));
    }
}

/// Packets are listed place by place, and a symbol is found where its id stands first.
pub proof fn lemma_views(v: Seq<EncoderOutput>, w: Seq<SymbolModel>, id: u32, i: int, j: int)
    ensures
        outputs(v).len() == v.len(),
        0 <= i < v.len() ==> outputs(v)[i] == (match v[i] {
            EncoderOutput::Source(b) => OutputModel::Source(b@),
            EncoderOutput::Coded(b) => OutputModel::Coded(b@),
        }),
        window::first_at(w, id, i) ==> 0 <= i < w.len() && w[i].0 == id && (0 <= j < i ==> w[j].0
            != id),
{
}

// ── Packets ──────────────────────────────────────────────────────────────

/// A coded packet tells where the window starts, where that is fewer than 255 ids
/// before the first id that it covers.
pub proof fn lemma_packet_tells_start(m: EncoderModel, cover: Seq<u32>, cci: Seq<u8>)
    requires
        m.window.len() > 0,
        cover.len() > 0,
        source::valid_cci(cci),
        ev::fits_wire(m.vector(cover)),
    ensures
        coded::coded_from(m.coded_packet(cover, cci)) is Ok,
        ({
            let p = coded::coded_from(m.coded_packet(cover, cci))->Ok_0;
            let first = m.window[0].0;
            &&& first <= cover[0] && cover[0] - first < 255 ==> p.start() == Some(first)
            &&& first > cover[0] || cover[0] - first >= 255 ==> p.start() is None
            &&& p.ev.field == m.params.field
            &&& p.ev.coefs.len() == (if m.params.matrix_strategy == MatrixStrategy::Cauchy {
                cover.len()
            } else {
                0
            })
            &&& p.ev.generation == (if m.params.matrix_strategy == MatrixStrategy::Cauchy {
                m.generation
            } else {
                0
            })
        }),
{
    session::lemma_coded_packet_read(m, cover, cci);
    crate::wire::laws::lemma_start(cover, m.window[0].0);
}

/// How long the packets are: a source packet adds eight bytes to the symbol and the CCI
/// bytes, and a coded packet as many and its encoding vector.
pub proof fn lemma_packet_lengths(m: EncoderModel, cover: Seq<u32>, cci: Seq<u8>)
    requires
        source::valid_cci(cci),
    ensures
        m.source_packet(cci).len() == 8 + cci.len() + m.window.last().1.len(),
        m.coded_packet(cover, cci).len() == 8 + cci.len() + ev::ev_bytes(m.vector(cover)).len()
            + m.params.symbol_size,
{
    crate::wire::laws::lemma_source_layout(m.window.last().0, m.window.last().1, cci, None);
    crate::wire::laws::lemma_coded_layout(
        m.next_coded_id,
        m.vector(cover),
        m.payload(cover),
        cci,
        None,
        m.lag(cover),
    );
}

} // verus!
