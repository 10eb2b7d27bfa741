//! What holds of datagrams on their way through a receiver.
use bytes::Bytes;
use vstd::prelude::*;

use crate::buffers;
use crate::codec::decoder;
use crate::codec::decoder::measure;
use crate::codec::decoder::model;
use crate::codec::decoder::model::{DecoderModel, EventModel};
use crate::codec::decoder::DecoderEvent;
use crate::codec::encoder::model::OutputModel;
use crate::config::{BackpressureMode, Field, MatrixStrategy};
use crate::error::Result;
use crate::policy::FeedbackPolicy;
use crate::transport::receiver;
use crate::transport::receiver::{DatagramModel, Dispatched, FecReceiver};
use crate::transport::sender;
use crate::transport::session::SessionParams;
use crate::wire::coded;
use crate::wire::laws as layout;
use crate::wire::source;

verus! {

/// Every symbol that is ready is handed on, in the order of the events; and so is
/// every feedback packet.  Nothing else is.
pub proof fn lemma_among(a: Seq<EventModel>, b: Seq<EventModel>, e: EventModel)
    ensures
        receiver::ready_among(a + b) == receiver::ready_among(a) + receiver::ready_among(b),
        receiver::feedback_among(a + b) == receiver::feedback_among(a) + receiver::feedback_among(
            b,
        ),
        receiver::ready_among(seq![e]) == (match e {
            EventModel::SourceReady { id, data } => seq![(id, data)],
            _ => Seq::empty(),
        }),
        receiver::feedback_among(seq![e]) == (match e {
            EventModel::SendFeedback(pkt) => seq![pkt],
            _ => Seq::empty(),
        }),
        receiver::ready_among(Seq::empty()).len() == 0,
        receiver::feedback_among(Seq::empty()).len() == 0,
    decreases b.len(),
{
    let one = seq![e];
    assert(one.drop_last() =~= Seq::empty());
    assert(one.last() == e);
    reveal_with_fuel(receiver::ready_among, 2);
    reveal_with_fuel(receiver::feedback_among, 2);
    assert(receiver::ready_among(one) =~= (match e {
        EventModel::SourceReady { id, data } => seq![(id, data)],
        _ => Seq::empty(),
    }));
    assert(receiver::feedback_among(one) =~= (match e {
        EventModel::SendFeedback(pkt) => seq![pkt],
        _ => Seq::empty(),
    }));
    if b.len() == 0 {
        assert(a + b =~= a);
    } else {
        lemma_among(a, b.drop_last(), e);
        assert((a + b).drop_last() =~= a + b.drop_last());
        assert((a + b).last() == b.last());
    }
}

/// The events of a packet hand on the symbols that can be delivered in a row, from the
/// next delivery on, and at most one feedback packet.
pub proof fn lemma_handed_on<P: FeedbackPolicy>(
    t: DecoderModel,
    policy: P,
    events: Seq<EventModel>,
    post: DecoderModel,
    after: P,
    n: nat,
)
    requires
        model::tells(t, policy, events, post, after),
        measure::run(t.buffer, n),
    ensures
        receiver::ready_among(events).len() == n,
        forall|i: int|
            0 <= i < n ==> #[trigger] receiver::ready_among(events)[i] == (
                (t.buffer.next + i) as u32,
                t.buffer.symbols[(t.buffer.next + i) as u32],
            ),
        receiver::feedback_among(events).len() <= 1,
        policy.may_decide(t.drained().state(), receiver::feedback_among(events).len() == 1, after),
{
    measure::lemma_told(t, policy, events, post, after, n);
    let a = events.take(n as int);
    let b = events.skip(n as int);
    assert(events =~= a + b);
    lemma_among(a, b, EventModel::SendFeedback(Seq::empty()));
    lemma_all_ready(a);
    if b.len() > 0 {
        lemma_among(seq![b[0]], b.skip(1), b[0]);
        assert(b =~= seq![b[0]] + b.skip(1));
        assert(b[0] == events[n as int]);
        if b.len() > 1 {
            assert(b.skip(1) =~= seq![b[1]]);
            assert(b[1] == events.last());
            lemma_among(seq![b[1]], Seq::empty(), b[1]);
        } else {
            assert(b.skip(1) =~= Seq::empty());
        }
    } else {
        assert(b =~= Seq::empty());
    }
    assert(receiver::ready_among(b) =~= Seq::empty());
}

/// Where all events are ready symbols, all are handed on.
proof fn lemma_all_ready(a: Seq<EventModel>)
    requires
        forall|i: int| 0 <= i < a.len() ==> (#[trigger] a[i]) is SourceReady,
    ensures
        receiver::ready_among(a).len() == a.len(),
        forall|i: int|
            0 <= i < a.len() ==> #[trigger] receiver::ready_among(a)[i] == (a[i]->id, a[i]->data),
        receiver::feedback_among(a).len() == 0,
    decreases a.len(),
{
    if a.len() > 0 {
        lemma_all_ready(a.drop_last());
        assert forall|i: int| 0 <= i < a.len() implies #[trigger] receiver::ready_among(a)[i] == (
            a[i]->id,
            a[i]->data,
        ) by {
            if i < a.len() - 1 {
                assert(a.drop_last()[i] == a[i]);
            }
        }
    }
}

/// The queue only grows at its end, and a caller is told exactly when it grows.  A
/// datagram that is refused leaves it as it was.
pub proof fn lemma_queue<P: FeedbackPolicy>(
    pre: FecReceiver<P>,
    raw: Seq<u8>,
    r: Result<Dispatched>,
    post: FecReceiver<P>,
)
    requires
        FecReceiver::dispatched(pre, raw, r, post),
    ensures
        pre.queue().len() <= post.queue().len(),
        post.queue().take(pre.queue().len() as int) == pre.queue(),
        r matches Ok(d) ==> (d.became_ready <==> post.queue().len() > pre.queue().len()),
        r is Err ==> post.queue() == pre.queue(),
{
    assert(pre.queue().take(pre.queue().len() as int) =~= pre.queue());
    if let Ok(d) = r {
        if exists|events: Vec<DecoderEvent>|
            {
                let told = decoder::events_of(events@);
                &&& #[trigger] receiver::datagram_handled(
                    pre.inner(),
                    raw,
                    Some(Ok(events)),
                    post.inner(),
                )
                &&& post.queue() == pre.queue() + receiver::ready_among(told)
                &&& receiver::packets_of(d.feedback@) == receiver::feedback_among(told)
                &&& d.became_ready == (receiver::ready_among(told).len() > 0)
            } {
            let events = choose|events: Vec<DecoderEvent>|
                {
                    let told = decoder::events_of(events@);
                    &&& #[trigger] receiver::datagram_handled(
                        pre.inner(),
                        raw,
                        Some(Ok(events)),
                        post.inner(),
                    )
                    &&& post.queue() == pre.queue() + receiver::ready_among(told)
                    &&& receiver::packets_of(d.feedback@) == receiver::feedback_among(told)
                    &&& d.became_ready == (receiver::ready_among(told).len() > 0)
                };
            let more = receiver::ready_among(decoder::events_of(events@));
            assert((pre.queue() + more).take(pre.queue().len() as int) =~= pre.queue());
        }
    }
}

/// The type of a datagram decides what it is taken for: 0 for a source packet, 1 for a
/// coded one.  Every other datagram is ignored, and so is one that cannot be read.
pub proof fn lemma_datagram(raw: Seq<u8>)
    ensures
        receiver::datagram_of(raw) is Source <==> source::source_from(raw) is Ok,
        receiver::datagram_of(raw) is Coded <==> coded::coded_from(raw) is Ok,
        receiver::datagram_of(raw) is Source ==> raw[3] == 0,
        receiver::datagram_of(raw) is Coded ==> raw[3] == 1,
        raw.len() < 4 || raw[3] > 1 ==> receiver::datagram_of(raw) is Ignored,
        receiver::datagram_of(raw) matches DatagramModel::Source(p) ==> source::source_from(raw)
            == Ok::<source::SourceModel, crate::error::DelpError>(p),
        receiver::datagram_of(raw) matches DatagramModel::Coded(p) ==> coded::coded_from(raw)
            == Ok::<coded::CodedModel, crate::error::DelpError>(p),
{
    layout::lemma_source_read(raw);
    layout::lemma_coded_read(raw);
}

/// Each packet goes out as one datagram, byte for byte, in order.
pub proof fn lemma_datagrams(out: Seq<OutputModel>)
    ensures
        sender::datagrams(out).len() == out.len(),
        forall|i: int|
            0 <= i < out.len() ==> #[trigger] sender::datagrams(out)[i] == (match out[i] {
                OutputModel::Source(b) => b,
                OutputModel::Coded(b) => b,
            }),
{
}

/// The two ends of a session fit: they agree on the symbol size and the field, and
/// what was asked for reaches the end that it is for.
pub proof fn lemma_session_ends(p: SessionParams)
    ensures
        p.encoder().symbol_size == p.symbol_size,
        p.decoder().symbol_size == p.symbol_size,
        p.encoder().field == p.field,
        p.decoder().field == p.field,
        p.encoder().window_capacity == p.window_capacity,
        p.encoder().fec_numer == p.fec_numer,
        p.encoder().fec_denom == p.fec_denom,
        p.encoder().backpressure == p.backpressure,
        p.encoder().matrix_strategy == p.strategy,
        p.decoder().max_matrix_rows == 512,
        p.decoder().feedback_every == p.feedback_every,
        p.encoder().rejection() is None ==> p.decoder().rejection() is None,
{
}

/// What a session has where nothing else was asked for.
pub proof fn lemma_session_defaults()
    ensures
        SessionParams::initial() == (SessionParams {
            symbol_size: 1024,
            window_capacity: 32,
            fec_numer: 1,
            fec_denom: 4,
            field: Field::Gf2_8,
            strategy: MatrixStrategy::Vandermonde,
            backpressure: BackpressureMode::Reject,
            feedback_every: 8,
        }),
{
}

/// A datagram that is no source or coded packet changes nothing: no symbol becomes
/// ready and no feedback is due.
pub proof fn lemma_ignored<P: FeedbackPolicy>(
    pre: FecReceiver<P>,
    raw: Seq<u8>,
    r: Result<Dispatched>,
    post: FecReceiver<P>,
)
    requires
        FecReceiver::dispatched(pre, raw, r, post),
        source::source_from(raw) is Err,
        coded::coded_from(raw) is Err,
    ensures
        r matches Ok(d) && !d.became_ready && d.feedback@.len() == 0,
        post.queue() == pre.queue(),
        post.inner()@ == pre.inner()@,
        post.inner().policy() == pre.inner().policy(),
{
    lemma_datagram(raw);
}

/// A source or coded packet is refused exactly where its payload has the wrong size, and
/// leaves the receiver as it was.
pub proof fn lemma_refused<P: FeedbackPolicy>(
    pre: FecReceiver<P>,
    raw: Seq<u8>,
    r: Result<Dispatched>,
    post: FecReceiver<P>,
)
    requires
        FecReceiver::dispatched(pre, raw, r, post),
        source::source_from(raw) is Ok || coded::coded_from(raw) is Ok,
    ensures
        ({
            let size = match receiver::datagram_of(raw) {
                DatagramModel::Source(p) => p.payload.len(),
                DatagramModel::Coded(p) => p.payload.len(),
                DatagramModel::Ignored => 0,
            };
            &&& r is Err <==> size != pre.inner()@.params.symbol_size
            &&& r is Err ==> post.inner()@ == pre.inner()@ && post.queue() == pre.queue()
        }),
{
    lemma_datagram(raw);
}

/// The queue of a sender takes further symbols while it holds fewer than 512 datagrams.
pub proof fn lemma_pending()
    ensures
        sender::MAX_PENDING == 512,
{
}

/// Symbols and datagrams are listed place by place.
pub proof fn lemma_views(v: Seq<(u32, Bytes)>, w: Seq<Vec<u8>>, i: int)
    ensures
        receiver::symbols_of(v).len() == v.len(),
        0 <= i < v.len() ==> receiver::symbols_of(v)[i] == (v[i].0, buffers::bytes_view(v[i].1)),
        receiver::packets_of(w).len() == w.len(),
        0 <= i < w.len() ==> receiver::packets_of(w)[i] == w[i]@,
{
}

} // verus!
