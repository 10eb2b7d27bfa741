//! What a decoder counts, measures and tells.
use bytes::Bytes;
use vstd::prelude::*;

use crate::buffers;
use crate::codec::decoder::buffer;
use crate::codec::decoder::buffer::BufferModel;
use crate::codec::decoder::linear;
use crate::codec::decoder::matrix;
use crate::codec::decoder::model;
use crate::codec::decoder::model::{DecoderModel, EventModel, LossModel};
use crate::codec::decoder::system;
use crate::codec::decoder::system::Rows;
use crate::codec::decoder::{events_of, Decoder, DecoderEvent};
use crate::config::{DecoderParams, Field};
use crate::error::{DelpError, Result};
use crate::gf::algebra;
use crate::ordered;
use crate::policy::defaults::ConstantFeedbackPolicy;
use crate::policy::FeedbackPolicy;
use crate::wire::coded::CodedModel;
use crate::wire::ev::EvModel;
use crate::wire::feedback;
use crate::wire::source::SourceModel;

verus! {

// ── Histories ────────────────────────────────────────────────────────────

/// A packet that reaches a decoder.
pub enum Arrival {
    Source(SourceModel),
    Coded(CodedModel),
}

/// A decoder's history: packet `i` reaches `ds[i]`, which accepts it, tells the
/// events `es[i]` and becomes `ds[i + 1]`.
pub open spec fn arrivals<P: FeedbackPolicy>(
    ds: Seq<Decoder<P>>,
    pkts: Seq<Arrival>,
    es: Seq<Vec<DecoderEvent>>,
) -> bool {
    &&& ds.len() == pkts.len() + 1
    &&& es.len() == pkts.len()
    &&& forall|i: int|
        0 <= i < pkts.len() ==> match #[trigger] pkts[i] {
            Arrival::Source(p) => Decoder::source_handled(ds[i], p, Ok(es[i]), ds[i + 1]),
            Arrival::Coded(p) => Decoder::coded_handled(ds[i], p, Ok(es[i]), ds[i + 1]),
        }
}

/// How many of the packets are source packets.
pub open spec fn sources(pkts: Seq<Arrival>) -> nat
    decreases pkts.len(),
{
    if pkts.len() == 0 {
        0
    } else {
        sources(pkts.drop_last()) + (if pkts.last() is Source { 1nat } else { 0 })
    }
}

/// The id of the last source packet, or zero.
pub open spec fn last_source(pkts: Seq<Arrival>) -> u32
    decreases pkts.len(),
{
    if pkts.len() == 0 {
        0
    } else {
        match pkts.last() {
            Arrival::Source(p) => p.id,
            Arrival::Coded(_) => last_source(pkts.drop_last()),
        }
    }
}

/// The source packets arrive one after the other, from the first one, and none is
/// missing.  Any number of coded packets may stand between them.
pub open spec fn lossless(pkts: Seq<Arrival>) -> bool {
    forall|i: int|
        0 <= i < pkts.len() ==> match #[trigger] pkts[i] {
            Arrival::Source(p) => p.id == sources(pkts.take(i)),
            Arrival::Coded(_) => true,
        }
}

/// The ids of the source packets ascend by at most 1000.
pub open spec fn ascending(pkts: Seq<Arrival>) -> bool {
    forall|i: int|
        0 <= i < pkts.len() ==> match #[trigger] pkts[i] {
            Arrival::Source(p) => last_source(pkts.take(i)) <= p.id <= last_source(pkts.take(i))
                + 1000,
            Arrival::Coded(_) => true,
        }
}

// ── Loss ─────────────────────────────────────────────────────────────────

/// A coded packet counts as one that was expected and came, whatever came before: it
/// never changes how many are missing.
pub proof fn lemma_coded_not_lost<P: FeedbackPolicy>(
    pre: Decoder<P>,
    pkt: CodedModel,
    events: Vec<DecoderEvent>,
    post: Decoder<P>,
)
    requires
        Decoder::coded_handled(pre, pkt, Ok(events), post),
        pre@.loss.received < u64::MAX,
        pre@.loss.expected < u64::MAX,
    ensures
        post@.loss.expected - post@.loss.received == pre@.loss.expected - pre@.loss.received,
        post@.loss.received == pre@.loss.received + 1,
        pre@.packets < u64::MAX ==> post@.packets == pre@.packets + 1,
        post@.loss.last_seen == pre@.loss.last_seen,
        post@.loss.rate().lost == pre@.loss.rate().lost,
{
}

/// A source packet counts as one that came, and as many were expected as lie between
/// its id and the last one, at most 1000.
pub proof fn lemma_source_expected<P: FeedbackPolicy>(
    pre: Decoder<P>,
    pkt: SourceModel,
    events: Vec<DecoderEvent>,
    post: Decoder<P>,
)
    requires
        Decoder::source_handled(pre, pkt, Ok(events), post),
        pkt.id >= pre@.loss.last_seen,
        pre@.loss.received < u64::MAX,
        pre@.loss.expected < u64::MAX - 1000,
    ensures
        post@.loss.received == pre@.loss.received + 1,
        pre@.packets < u64::MAX ==> post@.packets == pre@.packets + 1,
        pkt.id - pre@.loss.last_seen <= 1000 ==> post@.loss.expected == pre@.loss.expected + pkt.id
            - pre@.loss.last_seen,
        pkt.id - pre@.loss.last_seen > 1000 ==> post@.loss.expected == pre@.loss.expected + 1000,
        post@.loss.last_seen == pkt.id,
{
    vstd::arithmetic::div_mod::lemma_small_mod(
        (pkt.id - pre@.loss.last_seen) as nat,
        0x1_0000_0000,
    );
}

/// A source packet from before the last one wraps around the ids, and counts as far
/// away.
pub proof fn lemma_source_from_before<P: FeedbackPolicy>(
    pre: Decoder<P>,
    pkt: SourceModel,
    events: Vec<DecoderEvent>,
    post: Decoder<P>,
)
    requires
        Decoder::source_handled(pre, pkt, Ok(events), post),
        pkt.id < pre@.loss.last_seen,
        pre@.loss.received < u64::MAX,
        pre@.loss.expected < u64::MAX - 1000,
    ensures
        post@.loss.received == pre@.loss.received + 1,
        pre@.packets < u64::MAX ==> post@.packets == pre@.packets + 1,
        ({
            let away: int = 0x1_0000_0000 + pkt.id - pre@.loss.last_seen;
            post@.loss.expected == pre@.loss.expected + (if away < 1000 { away } else { 1000 })
        }),
        post@.loss.last_seen == pkt.id,
{
    let away: int = 0x1_0000_0000 + pkt.id - pre@.loss.last_seen;
    vstd::arithmetic::div_mod::lemma_fundamental_div_mod_converse(
        pkt.id - pre@.loss.last_seen,
        0x1_0000_0000,
        -1,
        away,
    );
}

/// The rate says how many are missing of how many were expected.
pub proof fn lemma_rate(l: LossModel)
    ensures
        l.rate().expected == l.expected,
        l.expected >= l.received ==> l.rate().lost == l.expected - l.received,
        l.expected <= l.received ==> l.rate().lost == 0,
{
}

/// What a new decoder has counted after some packets whose source ids ascend: every
/// packet as received, and as expected every coded packet and every id up to the last.
pub proof fn lemma_counts<P: FeedbackPolicy>(
    ds: Seq<Decoder<P>>,
    pkts: Seq<Arrival>,
    es: Seq<Vec<DecoderEvent>>,
)
    requires
        arrivals(ds, pkts, es),
        ds[0]@ == DecoderModel::initial(ds[0]@.params),
        ascending(pkts),
        pkts.len() < 0x1_0000_0000,
    ensures
        ds.last()@.packets == pkts.len(),
        ds.last()@.loss.received == pkts.len(),
        ds.last()@.loss.expected == last_source(pkts) + pkts.len() - sources(pkts),
        ds.last()@.loss.last_seen == last_source(pkts),
    decreases pkts.len(),
{
    lemma_sources(pkts);
    let n = pkts.len() as int;
    if n > 0 {
        let p1 = pkts.drop_last();
        let d1 = ds.drop_last();
        let e1 = es.drop_last();
        assert forall|i: int| 0 <= i < p1.len() implies match #[trigger] p1[i] {
            Arrival::Source(p) => Decoder::source_handled(d1[i], p, Ok(e1[i]), d1[i + 1]),
            Arrival::Coded(p) => Decoder::coded_handled(d1[i], p, Ok(e1[i]), d1[i + 1]),
        } by {
            assert(p1[i] == pkts[i]);
        }
        assert forall|i: int| 0 <= i < p1.len() implies match #[trigger] p1[i] {
            Arrival::Source(p) => last_source(p1.take(i)) <= p.id <= last_source(p1.take(i)) + 1000,
            Arrival::Coded(_) => true,
        } by {
            assert(p1[i] == pkts[i]);
            assert(p1.take(i) =~= pkts.take(i));
        }
        lemma_counts(d1, p1, e1);
        lemma_sources(p1);
        assert(d1.last() == ds[n - 1]);
        assert(ds.last() == ds[n - 1 + 1]);
        assert(pkts.take(n - 1) =~= p1);
        match pkts[n - 1] {
            Arrival::Source(p) => {
                lemma_source_expected(ds[n - 1], p, es[n - 1], ds[n - 1 + 1]);
            },
            Arrival::Coded(p) => {
                lemma_coded_not_lost(ds[n - 1], p, es[n - 1], ds[n - 1 + 1]);
            },
        }
    }
}

proof fn lemma_sources(pkts: Seq<Arrival>)
    ensures
        sources(pkts) <= pkts.len(),
    decreases pkts.len(),
{
    if pkts.len() > 0 {
        lemma_sources(pkts.drop_last());
    }
}

/// Where nothing is lost, no loss is reported: source packets in sequence from the
/// first one, with any number of coded packets between them.
pub proof fn lemma_lossless<P: FeedbackPolicy>(
    ds: Seq<Decoder<P>>,
    pkts: Seq<Arrival>,
    es: Seq<Vec<DecoderEvent>>,
)
    requires
        arrivals(ds, pkts, es),
        ds[0]@ == DecoderModel::initial(ds[0]@.params),
        lossless(pkts),
        pkts.len() < 0x1_0000_0000,
    ensures
        ds.last()@.loss.rate().lost == 0,
        ds.last()@.packets == pkts.len(),
{
    assert forall|i: int| 0 <= i < pkts.len() implies match #[trigger] pkts[i] {
        Arrival::Source(p) => last_source(pkts.take(i)) <= p.id <= last_source(pkts.take(i)) + 1000,
        Arrival::Coded(_) => true,
    } by {
        lemma_in_sequence(pkts, i);
    }
    lemma_counts(ds, pkts, es);
    lemma_in_sequence(pkts, pkts.len() as int);
    assert(pkts.take(pkts.len() as int) =~= pkts);
}

/// In sequence, the last id is one below the number of source packets.
proof fn lemma_in_sequence(pkts: Seq<Arrival>, i: int)
    requires
        lossless(pkts),
        0 <= i <= pkts.len(),
    ensures
        sources(pkts.take(i)) == 0 ==> last_source(pkts.take(i)) == 0,
        sources(pkts.take(i)) > 0 ==> last_source(pkts.take(i)) == sources(pkts.take(i)) - 1,
    decreases i,
{
    if i > 0 {
        lemma_in_sequence(pkts, i - 1);
        assert(pkts.take(i).drop_last() =~= pkts.take(i - 1));
        assert(pkts.take(i).last() == pkts[i - 1]);
    }
}

// ── Events ───────────────────────────────────────────────────────────────

/// The number of symbols that can be delivered in a row.
pub open spec fn run(b: BufferModel, n: nat) -> bool {
    &&& b.next + n <= u32::MAX
    &&& forall|id: u32| b.next <= id < b.next + n ==> #[trigger] b.symbols.contains_key(id)
    &&& !b.symbols.contains_key((b.next + n) as u32)
}

/// What a decoder tells once a packet has been taken in, and what it is afterwards.
///
/// The symbols from the next delivery up to the first one that is missing are
/// delivered, in order, each once and as it waited.  Then feedback follows if the
/// policy says so.  Then, if the encoder's window starts behind that, one gap up to the
/// start of the window.  Delivery goes on where the events end, and what waits from
/// there on still waits.
pub proof fn lemma_told<P: FeedbackPolicy>(
    t: DecoderModel,
    policy: P,
    events: Seq<EventModel>,
    post: DecoderModel,
    after: P,
    n: nat,
)
    requires
        model::tells(t, policy, events, post, after),
        run(t.buffer, n),
    ensures
        forall|i: int|
            0 <= i < n ==> #[trigger] events[i] == (EventModel::SourceReady {
                id: (t.buffer.next + i) as u32,
                data: t.buffer.symbols[(t.buffer.next + i) as u32],
            }),
        ({
            let stop = t.buffer.next + n;
            let gap = t.win_min > stop;
            let due = events.len() > n && events[n as int] is SendFeedback;
            &&& events.len() == n + (if due { 1int } else { 0 }) + (if gap { 1int } else { 0 })
            &&& gap ==> events.last() == (EventModel::UnrecoverableGap {
                first_missing: stop as u32,
                count: (t.win_min - stop) as u32,
            })
            &&& post.buffer.next == (if gap { t.win_min as int } else { stop })
            &&& policy.may_decide(t.drained().state(), due, after)
        }),
        forall|id: u32| #[trigger]
            post.buffer.symbols.contains_key(id) <==> t.buffer.symbols.contains_key(id) && id
                >= post.buffer.next,
        forall|id: u32| #[trigger]
            post.buffer.symbols.contains_key(id) ==> post.buffer.symbols[id]
                == t.buffer.symbols[id],
        post.rows == t.rows,
        post.known == t.known,
        post.loss == t.loss,
        post.packets == t.packets,
        post.win_min == t.win_min,
        post.params == t.params,
{
    let b = t.buffer;
    buffer::lemma_run_end(b.symbols, b.next);
    let end = b.end();
    assert(end == b.next + n) by {
        if end < b.next + n {
            assert(b.symbols.contains_key(end as u32));
        }
        if end > b.next + n {
            assert(b.symbols.contains_key((b.next + n) as u32));
        }
    }
    let due = choose|due: Option<Seq<u8>>|
        {
            &&& events == #[trigger] t.events(due)
            &&& policy.may_decide(t.drained().state(), due is Some, after)
            &&& due is Some ==> t.drained().is_feedback(due->0)
            &&& post == t.drained().gap_passed()
        };
    assert(t.deliveries().len() == n);
    assert forall|i: int| 0 <= i < n implies #[trigger] events[i] == (EventModel::SourceReady {
        id: (b.next + i) as u32,
        data: b.symbols[(b.next + i) as u32],
    }) by {
        assert(events[i] == t.deliveries()[i]);
        assert(b.deliverable()[i] == ((b.next + i) as u32, b.symbols[(b.next + i) as u32]));
    }
    if due is Some {
        assert(events[n as int] is SendFeedback);
    } else if t.drained().gap().len() > 0 {
        assert(events[n as int] == t.drained().gap()[0]);
    }
}

/// A symbol that comes in waits for delivery, unless it has been delivered or waits
/// already; what waited before still waits, unchanged.
pub proof fn lemma_taken_waits(d: DecoderModel, id: u32, data: Seq<u8>, x: u32)
    ensures
        ({
            let t = d.source_taken(id, data);
            &&& t.buffer.next == d.buffer.next
            &&& id >= d.buffer.next ==> t.buffer.symbols.contains_key(id)
            &&& id >= d.buffer.next && !d.buffer.symbols.contains_key(id)
                ==> t.buffer.symbols[id] == data
            &&& d.buffer.symbols.contains_key(x) ==> t.buffer.symbols.contains_key(x)
                && t.buffer.symbols[x] == d.buffer.symbols[x]
            &&& !d.buffer.symbols.contains_key(x) && x < d.buffer.next
                ==> !t.buffer.symbols.contains_key(x)
            &&& d.known.contains_key(x) ==> t.known.contains_key(x) && t.known[x] == d.known[x]
            &&& t.known.contains_key(id)
            &&& !d.known.contains_key(id) ==> t.known[id] == data
            &&& t.win_min == d.win_min
            &&& t.params == d.params
        }),
{
}

/// A coded packet loses nothing that waits or is known, brings back nothing that has
/// been delivered, and moves the known start of the window forwards only, to where the
/// packet says.
pub proof fn lemma_coded_keeps(
    d: DecoderModel,
    ev: EvModel,
    payload: Seq<u8>,
    start: Option<u32>,
    x: u32,
)
    ensures
        ({
            let t = d.coded_taken(ev, payload, start);
            &&& t.buffer.next == d.buffer.next
            &&& d.buffer.symbols.contains_key(x) ==> t.buffer.symbols.contains_key(x)
                && t.buffer.symbols[x] == d.buffer.symbols[x]
            &&& !d.buffer.symbols.contains_key(x) && x < d.buffer.next
                ==> !t.buffer.symbols.contains_key(x)
            &&& d.known.contains_key(x) ==> t.known.contains_key(x) && t.known[x] == d.known[x]
            &&& t.win_min >= d.win_min
            &&& start matches Some(s) ==> t.win_min >= s && (t.win_min == s || t.win_min
                == d.win_min)
            &&& start is None ==> t.win_min == d.win_min
            &&& t.params == d.params
        }),
{
}

// ── Feedback ─────────────────────────────────────────────────────────────

/// An id is missing.
pub open spec fn lacks(b: BufferModel, id: u32) -> bool {
    &&& b.next <= id
    &&& !b.symbols.contains_key(id)
    &&& exists|k: u32| #[trigger] b.symbols.contains_key(k) && id < k
}

/// What a feedback packet says: where delivery stands, that the lowest 256 symbols
/// that wait are there, how many are missing below the highest one that waits, how many
/// equations wait, and the loss rate.
pub proof fn lemma_feedback_says(d: DecoderModel, ids: Seq<u32>, sack: Seq<u8>, id: u32)
    requires
        d.wf(),
        d.acknowledges(ids, sack),
    ensures
        ({
            let f = d.feedback(ids, sack);
            &&& f.first_src_id == d.buffer.next
            &&& f.acks(id) <==> exists|i: int| 0 <= i < ids.len() && i < 256 && #[trigger] ids[i]
                == id
            &&& ids.contains(id) <==> d.buffer.symbols.contains_key(id)
            &&& d.buffer.missing().contains(id) <==> lacks(d.buffer, id)
            &&& f.nb_missing_src == d.buffer.missing().len() as u32
            &&& d.rows.len() <= u32::MAX ==> f.nb_not_used_coded == d.rows.len()
            &&& f.plr_raw == feedback::plr_of(d.state().loss_rate)
            &&& f.tsi is None
        }),
        forall|i: int, j: int| 0 <= i < j < ids.len() ==> ids[i] < ids[j],
{
    let f = d.feedback(ids, sack);
    let k = if ids.len() < 256 { ids.len() as int } else { 256 };
    let low = ids.take(k);
    if exists|i: int| 0 <= i < ids.len() && i < 256 && #[trigger] ids[i] == id {
        let i = choose|i: int| 0 <= i < ids.len() && i < 256 && #[trigger] ids[i] == id;
        assert(low[i] == id);
        assert(low.contains(id));
        assert(ids.contains(id));
        assert(d.buffer.symbols.contains_key(id));
    }
    if id >= d.buffer.next {
        assert(feedback::sack_bit(sack, id - d.buffer.next) <==> low.contains(id));
        if low.contains(id) {
            let i = low.index_of(id);
            assert(ids[i] == id);
        }
    }
}

// ── Equations that wait ──────────────────────────────────────────────────

/// Room is made only in a full matrix, and then for one equation: the one whose first
/// unknown is the lowest leaves, and the others stay as they are.
pub proof fn lemma_room(rows: Rows, max: nat)
    requires
        rows.dom().finite(),
    ensures
        rows.len() < max ==> system::evicted(rows, max) == rows,
        rows.len() == 0 ==> system::evicted(rows, max) == rows,
        rows.len() >= max && rows.len() > 0 ==> exists|low: u32| #[trigger]
            rows.contains_key(low) && (forall|p: u32| #[trigger] rows.contains_key(p) ==> low <= p)
                && system::evicted(rows, max) == rows.remove(low) && system::evicted(
                rows,
                max,
            ).len() == rows.len() - 1,
{
    if rows.len() >= max && rows.len() > 0 {
        let p = rows.dom().choose();
        assert(rows.dom().contains(p));
        system::lemma_first(rows, p);
        let low = choose|k: u32| system::is_first(rows, k);
        assert(rows.contains_key(low));
    }
}

/// The largest number of equations that wait.
pub open spec fn room(d: DecoderModel) -> nat {
    if d.params.max_matrix_rows == 0 {
        1
    } else {
        d.params.max_matrix_rows as nat
    }
}

/// The matrix stays within its limit, whatever packets come.
pub proof fn lemma_matrix_bounded(
    d: DecoderModel,
    id: u32,
    data: Seq<u8>,
    ev: EvModel,
    payload: Seq<u8>,
    start: Option<u32>,
)
    requires
        d.rows.dom().finite(),
        d.rows.len() <= room(d),
    ensures
        d.source_taken(id, data).rows.len() <= d.rows.len(),
        d.coded_taken(ev, payload, start).rows.len() <= room(d),
        d.coded_taken(ev, payload, start).rows.len() <= d.rows.len() + 1,
        DecoderModel::initial(d.params).rows.len() == 0,
{
    let f = d.params.field;
    let with = d.rows_with_source(id, data);
    let rs = system::put_in(f, d.rows, id, data);
    assert(rs.dom() =~= d.rows.dom());
    if d.rows.contains_key(id) && !rs[id].is_zero() {
        lemma_row_added(f, rs.remove(id), rs[id]);
        assert(rs.remove(id).dom() =~= rs.dom().remove(id));
    } else if d.rows.contains_key(id) {
        assert(rs.remove(id).dom() =~= rs.dom().remove(id));
    }
    assert(with.dom().finite() && with.len() <= d.rows.len());
    lemma_part(with);
    let max = d.params.max_matrix_rows as nat;
    let eq = matrix::ev_equation(f, ev, payload);
    let e = system::eliminated(
        f,
        system::known_put_in(f, eq, d.known, linear::id_count()),
        d.rows,
        linear::id_count(),
    );
    lemma_room(d.rows, max);
    let kept = system::evicted(d.rows, max);
    assert(kept.dom().finite() && kept.len() <= d.rows.len() && kept.len() < room(d)) by {
        if d.rows.len() >= max && d.rows.len() > 0 {
            let low = choose|low: u32| #[trigger]
                d.rows.contains_key(low) && kept == d.rows.remove(low) && kept.len() == d.rows.len()
                    - 1;
            assert(kept.dom() =~= d.rows.dom().remove(low));
        }
    }
    lemma_row_added(f, kept, e);
    lemma_part(d.rows_with_coded(ev, payload));
}

/// A coded packet costs no equation that is not replaced: where there is room, those
/// that wait and perhaps one more remain, and in a full matrix as many as before.  So a
/// packet that says nothing new leaves a full matrix as full as it was.
pub proof fn lemma_matrix_keeps(d: DecoderModel, ev: EvModel, payload: Seq<u8>)
    requires
        d.wf(),
        payload.len() == d.params.symbol_size,
    ensures
        d.rows.len() <= d.rows_with_coded(ev, payload).len() <= d.rows.len() + 1,
        d.rows.len() > 0 && d.rows.len() >= d.params.max_matrix_rows ==> d.rows_with_coded(
            ev,
            payload,
        ).len() == d.rows.len(),
        forall|p: u32| #[trigger]
            d.rows.contains_key(p) && d.rows.len() < d.params.max_matrix_rows
                ==> d.rows_with_coded(ev, payload).contains_key(p),
{
    let f = d.params.field;
    let size = d.params.symbol_size as nat;
    let max = d.params.max_matrix_rows as nat;
    let eq = matrix::ev_equation(f, ev, payload);
    let n = linear::id_count();
    let e0 = system::known_put_in(f, eq, d.known, n);
    let e = system::eliminated(f, e0, d.rows, n);
    matrix::lemma_ev_equation_wf(f, ev, payload);
    system::lemma_known_put_in(f, eq, d.known, n, size);
    system::lemma_eliminated(f, e0, d.rows, n, size);
    lemma_room(d.rows, max);
    let kept = system::evicted(d.rows, max);
    if d.rows.len() >= max && d.rows.len() > 0 {
        let low = choose|low: u32| #[trigger]
            d.rows.contains_key(low) && kept == d.rows.remove(low) && kept.len() == d.rows.len()
                - 1;
        assert(kept.dom() =~= d.rows.dom().remove(low));
    }
    if !e.is_zero() {
        system::lemma_normalized(f, e, size);
        let new = e.normalized(f);
        assert(!kept.contains_key(new.pivot())) by {
            if kept.contains_key(new.pivot()) {
                assert(d.rows.contains_key(new.pivot()));
                assert(e.at(new.pivot()) == 0);
            }
        }
        let b = system::back_substituted(f, kept, new.pivot(), new);
        assert(b.dom() =~= kept.dom());
        assert(system::with_row(f, kept, e).dom() =~= kept.dom().insert(new.pivot()));
    }
}

/// A further equation adds at most one row.
proof fn lemma_row_added(f: Field, rows: Rows, eq: linear::Equation)
    requires
        rows.dom().finite(),
    ensures
        system::with_row(f, rows, eq).dom().finite(),
        system::with_row(f, rows, eq).len() <= rows.len() + 1,
{
    let new = eq.normalized(f);
    let b = system::back_substituted(f, rows, new.pivot(), new);
    assert(b.dom() =~= rows.dom());
    assert(system::with_row(f, rows, eq).dom() =~= rows.dom().insert(new.pivot()));
}

/// A part is no larger than the whole.
proof fn lemma_part(rows: Rows)
    requires
        rows.dom().finite(),
    ensures
        system::unsolved_part(rows).len() <= rows.len(),
        system::unsolved_part(rows).dom().finite(),
{
    assert(system::unsolved_part(rows).dom().subset_of(rows.dom()));
    vstd::set_lib::lemma_len_subset(system::unsolved_part(rows).dom(), rows.dom());
}

/// The feedback policy is shown where delivery stands, how many packets came, how many
/// are missing of how many were expected, how many symbols are missing and how many
/// equations wait.
pub proof fn lemma_state(d: DecoderModel)
    ensures
        d.state().next_delivery_id == d.buffer.next,
        d.state().packets_received == d.packets,
        d.state().loss_rate.expected == d.loss.expected,
        d.loss.expected >= d.loss.received ==> d.state().loss_rate.lost == d.loss.expected
            - d.loss.received,
        d.loss.expected < d.loss.received ==> d.state().loss_rate.lost == 0,
        d.state().nb_missing_src == d.buffer.missing().len() as u32,
        d.rows.len() <= u32::MAX ==> d.state().nb_not_used_coded == d.rows.len(),
{
}

/// A new decoder has nothing, expects the first symbol and has counted nothing.
pub proof fn lemma_fresh(params: DecoderParams, id: u32)
    ensures
        ({
            let d = DecoderModel::initial(params);
            &&& d.params == params
            &&& d.buffer.next == 0
            &&& !d.buffer.symbols.contains_key(id)
            &&& !d.known.contains_key(id)
            &&& !d.rows.contains_key(id)
            &&& d.win_min == 0
            &&& d.packets == 0
            &&& d.loss.received == 0
            &&& d.loss.expected == 0
            &&& d.loss.last_seen == 0
        }),
{
}

// ── The buffer ───────────────────────────────────────────────────────────

/// A symbol that is put into the buffer waits there, unless its turn is over; one that
/// waits already stays as it was, and no other symbol is touched.
pub proof fn lemma_inserted(b: BufferModel, id: u32, data: Seq<u8>, x: u32)
    ensures
        ({
            let c = b.inserted(id, data);
            &&& c.next == b.next
            &&& id >= b.next ==> c.symbols.contains_key(id)
            &&& id >= b.next && !b.symbols.contains_key(id) ==> c.symbols[id] == data
            &&& b.symbols.contains_key(x) ==> c.symbols.contains_key(x) && c.symbols[x]
                == b.symbols[x]
            &&& x != id || id < b.next ==> (c.symbols.contains_key(x)
                <==> b.symbols.contains_key(x))
        }),
{
}

/// Delivery takes the symbols from the next one up to the first that is missing, in
/// order, and leaves the others.
pub proof fn lemma_delivered(b: BufferModel, n: nat, x: u32)
    requires
        run(b, n),
    ensures
        b.deliverable().len() == n,
        forall|i: int|
            0 <= i < n ==> #[trigger] b.deliverable()[i] == (
                (b.next + i) as u32,
                b.symbols[(b.next + i) as u32],
            ),
        b.drained().next == b.next + n,
        b.drained().symbols.contains_key(x) <==> b.symbols.contains_key(x) && x >= b.next + n,
        b.drained().symbols.contains_key(x) ==> b.drained().symbols[x] == b.symbols[x],
{
    buffer::lemma_run_end(b.symbols, b.next);
    let end = b.end();
    if end < b.next + n {
        assert(b.symbols.contains_key(end as u32));
    }
    if end > b.next + n {
        assert(b.symbols.contains_key((b.next + n) as u32));
    }
}

/// Pruning forgets what lies below the floor and nothing else, and delivery never goes
/// back.
pub proof fn lemma_pruned(b: BufferModel, floor: u32, x: u32)
    ensures
        b.pruned(floor).symbols.contains_key(x) <==> b.symbols.contains_key(x) && x >= floor,
        b.pruned(floor).symbols.contains_key(x) ==> b.pruned(floor).symbols[x] == b.symbols[x],
        b.pruned(floor).next >= b.next,
        b.pruned(floor).next >= floor,
        b.pruned(floor).next == b.next || b.pruned(floor).next == floor,
{
}

/// The highest id waits, and none that waits is higher.
pub proof fn lemma_highest(b: BufferModel, high: u32, x: u32)
    requires
        buffer::is_highest(b.symbols, high),
    ensures
        b.symbols.contains_key(high),
        b.symbols.contains_key(x) ==> x <= high,
{
}

// ── Encoding vectors ─────────────────────────────────────────────────────

/// The equation of an encoding vector mentions an id with the last coefficient that is
/// given for it and is not zero, and no id that has none.
pub proof fn lemma_equation(f: Field, v: EvModel, n: nat, i: int)
    requires
        0 <= i < n <= v.ids.len(),
        algebra::reduce(f, v.coef(i)) != 0,
        forall|j: int|
            i < j < n && #[trigger] v.ids[j] == v.ids[i] ==> algebra::reduce(f, v.coef(j))
                == 0,
    ensures
        matrix::ev_coefs(f, v, n)(v.ids[i]) == algebra::reduce(f, v.coef(i)),
    decreases n,
{
    if i < n - 1 {
        lemma_equation(f, v, (n - 1) as nat, i);
        let _id = v.ids[n - 1];
    }
}

/// An id that no coefficient is given for, or only zeros, is not in the equation.
pub proof fn lemma_equation_absent(
    f: Field,
    v: EvModel,
    n: nat,
    id: u32,
)
    requires
        n <= v.ids.len(),
        forall|j: int|
            0 <= j < n && #[trigger] v.ids[j] == id ==> algebra::reduce(f, v.coef(j))
                == 0,
    ensures
        matrix::ev_coefs(f, v, n)(id) == 0,
    decreases n,
{
    if n > 0 {
        lemma_equation_absent(f, v, (n - 1) as nat, id);
        let _id = v.ids[n - 1];
    }
}

// ── Accepting packets ────────────────────────────────────────────────────

/// A source packet is accepted exactly where its payload has the size of a symbol.  A
/// refused one is reported with both sizes, and changes nothing.
pub proof fn lemma_source_accepted<P: FeedbackPolicy>(
    pre: Decoder<P>,
    pkt: SourceModel,
    r: Result<Vec<DecoderEvent>>,
    post: Decoder<P>,
)
    requires
        Decoder::source_handled(pre, pkt, r, post),
    ensures
        r is Ok <==> pkt.payload.len() == pre@.params.symbol_size,
        r matches Err(e) ==> e == (DelpError::SymbolSizeMismatch {
            expected: pre@.params.symbol_size,
            actual: pkt.payload.len() as usize,
        }),
        r is Err ==> post@ == pre@ && post.policy() == pre.policy(),
{
}

/// The same holds of a coded packet.
pub proof fn lemma_coded_accepted<P: FeedbackPolicy>(
    pre: Decoder<P>,
    pkt: CodedModel,
    r: Result<Vec<DecoderEvent>>,
    post: Decoder<P>,
)
    requires
        Decoder::coded_handled(pre, pkt, r, post),
    ensures
        r is Ok <==> pkt.payload.len() == pre@.params.symbol_size,
        r matches Err(e) ==> e == (DelpError::SymbolSizeMismatch {
            expected: pre@.params.symbol_size,
            actual: pkt.payload.len() as usize,
        }),
        r is Err ==> post@ == pre@ && post.policy() == pre.policy(),
{
}

/// There is a feedback packet among the events.
pub open spec fn sends_feedback(events: Seq<EventModel>) -> bool {
    exists|j: int| 0 <= j < events.len() && (#[trigger] events[j]) is SendFeedback
}

/// The events hold a feedback packet exactly where the policy decided so.
proof fn lemma_decided<P: FeedbackPolicy>(
    t: DecoderModel,
    policy: P,
    events: Seq<EventModel>,
    post: DecoderModel,
    after: P,
)
    requires
        model::tells(t, policy, events, post, after),
    ensures
        policy.may_decide(t.drained().state(), sends_feedback(events), after),
{
    let due = choose|due: Option<Seq<u8>>|
        {
            &&& events == #[trigger] t.events(due)
            &&& policy.may_decide(t.drained().state(), due is Some, after)
            &&& due is Some ==> t.drained().is_feedback(due->0)
            &&& post == t.drained().gap_passed()
        };
    let n = t.deliveries().len();
    if due is Some {
        assert(events[n as int] is SendFeedback);
    } else {
        assert forall|j: int| 0 <= j < events.len() implies !((
        #[trigger] events[j]) is SendFeedback) by {
            if j < n {
                assert(events[j] == t.deliveries()[j]);
            } else {
                assert(events[j] == t.drained().gap()[j - n]);
            }
        }
    }
}

/// A decoder with a constant feedback policy sends feedback with every `period`-th
/// packet, and with no other.
pub proof fn lemma_feedback_every(
    ds: Seq<Decoder<ConstantFeedbackPolicy>>,
    pkts: Seq<Arrival>,
    es: Seq<Vec<DecoderEvent>>,
    period: nat,
    i: int,
)
    requires
        period > 0,
        arrivals(ds, pkts, es),
        ds[0].policy().every() == period,
        ds[0].policy().since() == 0,
        0 <= i < pkts.len(),
    ensures
        sends_feedback(events_of(es[i]@)) <==> (i + 1) % (period as int) == 0,
{
    let taken = Seq::new(
        pkts.len(),
        |k: int|
            match pkts[k] {
                Arrival::Source(p) => ds[k]@.source_taken(p.id, p.payload),
                Arrival::Coded(p) => ds[k]@.coded_taken(p.ev, p.payload, p.start()),
            },
    );
    let ps = Seq::new(ds.len(), |k: int| ds[k].policy());
    let states = Seq::new(pkts.len(), |k: int| taken[k].drained().state());
    let rs = Seq::new(pkts.len(), |k: int| sends_feedback(events_of(es[k]@)));
    assert forall|k: int| 0 <= k < rs.len() implies ps[k].may_decide(
        states[k],
        #[trigger] rs[k],
        ps[k + 1],
    ) by {
        let _pkt = pkts[k];
        lemma_decided(
            taken[k],
            ds[k].policy(),
            events_of(es[k]@),
            ds[k + 1]@,
            ds[k + 1].policy(),
        );
    }
    crate::policy::laws::lemma_feedback_period(ps, states, rs, period, i);
}

// ── Lists ────────────────────────────────────────────────────────────────

/// Lists are read place by place.
pub proof fn lemma_views(out: Seq<(u32, Bytes)>, events: Seq<DecoderEvent>, i: int)
    ensures
        buffer::delivered(out).len() == out.len(),
        0 <= i < out.len() ==> buffer::delivered(out)[i] == (
            out[i].0,
            buffers::bytes_view(out[i].1),
        ),
        events_of(events).len() == events.len(),
        0 <= i < events.len() ==> events_of(events)[i] == (match events[i] {
            DecoderEvent::SourceReady { id, data } => EventModel::SourceReady {
                id,
                data: buffers::bytes_view(data),
            },
            DecoderEvent::SendFeedback(pkt) => EventModel::SendFeedback(pkt@),
            DecoderEvent::UnrecoverableGap { first_missing, count } => {
                EventModel::UnrecoverableGap { first_missing, count }
            },
        }),
{
}

/// The symbols that a matrix gives out are listed by ascending id, each once, and all
/// of them.
pub proof fn lemma_listed(out: Seq<(u32, Bytes)>, m: Map<u32, Seq<u8>>, i: int, j: int, id: u32)
    requires
        matrix::lists_symbols(out, m),
    ensures
        0 <= i < j < out.len() ==> out[i].0 < out[j].0,
        0 <= i < out.len() ==> m.contains_key(out[i].0) && m[out[i].0] == buffers::bytes_view(
            out[i].1,
        ),
        m.contains_key(id) ==> exists|k: int| 0 <= k < out.len() && (#[trigger] out[k]).0 == id,
{
}

/// Keys are listed in ascending order, each once.
pub proof fn lemma_keys(ks: Seq<u32>, m: Map<u32, Seq<u8>>, i: int, j: int, k: u32)
    requires
        ordered::lists_keys(ks, m),
    ensures
        0 <= i < j < ks.len() ==> ks[i] < ks[j],
        ks.contains(k) <==> m.contains_key(k),
{
}

} // verus!
