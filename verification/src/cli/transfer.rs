//! File transfer from end to end: what the sender sends, the receiver gets.
use vstd::prelude::*;

use crate::cli::file;
use crate::cli::frames;
use crate::cli::prng;
use crate::cli::recv;
use crate::cli::recv::FileReceiver;
use crate::cli::send;
use crate::cli::send::{Batch, FileSender};
use crate::cli::AltcMode;
use crate::codec::decoder;
use crate::codec::decoder::buffer;
use crate::codec::decoder::laws;
use crate::codec::decoder::linear::Symbols;
use crate::codec::decoder::model;
use crate::codec::decoder::model::{DecoderModel, EventModel};
use crate::codec::decoder::DecoderEvent;
use crate::codec::encoder;
use crate::codec::encoder::model as sending;
use crate::codec::encoder::model::{EncoderModel, OutputModel};
use crate::codec::laws as session;
use crate::codec::streams;
use crate::codec::{DefaultEncoder, EncoderOutput};
use crate::config::DecoderParams;
use crate::error::Result;
use crate::gf::algebra;
use crate::policy::acks;
use crate::policy::defaults::NoCongestionControl;
use crate::policy::FeedbackPolicy;
use crate::transport::receiver;
use crate::transport::receiver::DatagramModel;
use crate::wire::coded;
use crate::wire::ev;
use crate::wire::source;

verus! {

/// The symbols of a file.
pub open spec fn symbols_of(data: Seq<u8>, size: nat) -> Symbols {
    |id: u32| file::chunk_of(data, size, id as nat)
}

/// The window holds the newest symbols without a gap, and nothing has been
/// acknowledged.
pub open spec fn undisturbed(e: EncoderModel) -> bool {
    &&& e.window.len() <= e.next_id
    &&& forall|i: int|
        0 <= i < e.window.len() ==> (#[trigger] e.window[i]).0 == e.next_id - e.window.len() + i
    &&& forall|rid: u64| !#[trigger] e.acks.contains_key(rid)
}

/// The receiver has got all that the sender has sent so far.
pub open spec fn in_step(tx: FileSender, rx: FileReceiver) -> bool {
    let s = symbols_of(tx.contents(), tx.setup().symbol_size as nat);
    &&& tx.wf()
    &&& rx.inner().wf()
    &&& streams::keeps_up(tx.inner()@, rx.inner()@, s)
    &&& undisturbed(tx.inner()@)
    &&& holds_first(rx, tx.position(), s)
}

/// The receiver holds the first `n` symbols, and no others.
pub open spec fn holds_first(rx: FileReceiver, n: nat, s: Symbols) -> bool {
    &&& forall|id: u32| #[trigger] rx.delivered().contains_key(id) <==> id < n
    &&& forall|id: u32| #[trigger] rx.delivered().contains_key(id) ==> rx.delivered()[id] == s(id)
}

/// `rxs` are the states of the receiver while the packets arrive one after the other.
pub open spec fn receives(rxs: Seq<FileReceiver>, packets: Seq<OutputModel>) -> bool {
    &&& rxs.len() == packets.len() + 1
    &&& forall|i: int|
        0 <= i < packets.len() ==> #[trigger] FileReceiver::received(
            rxs[i],
            packets[i].bytes(),
            rxs[i + 1],
        )
    &&& forall|i: int| 0 <= i < rxs.len() ==> (#[trigger] rxs[i]).inner().wf()
}

// ── One datagram ─────────────────────────────────────────────────────────

/// The symbols among the events, where at most one is delivered.
proof fn lemma_ready(t: DecoderModel, due: Option<Seq<u8>>)
    requires
        t.drained().win_min <= t.drained().buffer.next,
        t.deliveries().len() <= 1,
    ensures
        receiver::ready_among(t.events(due)) == t.buffer.deliverable(),
{
    let events = t.events(due);
    let list = t.buffer.deliverable();
    reveal_with_fuel(receiver::ready_among, 4);
    match due {
        Some(pkt) => {
            assert(events =~= t.deliveries().push(EventModel::SendFeedback(pkt)));
            assert(events.drop_last() =~= t.deliveries());
        },
        None => {
            assert(events =~= t.deliveries());
        },
    }
    if list.len() > 0 {
        assert(t.deliveries().drop_last().len() == 0);
        assert(list =~= seq![list[0]]);
        assert(receiver::ready_among(t.deliveries()) =~= seq![list[0]]);
    } else {
        assert(list =~= Seq::empty());
    }
}

/// A packet is no END frame: it goes to the decoder, and what becomes ready is stored.
proof fn lemma_handled(rx: FileReceiver, raw: Seq<u8>, after: FileReceiver) -> (r: Option<
    Result<Vec<DecoderEvent>>,
>)
    requires
        !(receiver::datagram_of(raw) is Ignored),
        FileReceiver::received(rx, raw, after),
    ensures
        receiver::datagram_handled(rx.inner(), raw, r, after.inner()),
        after.delivered() == match r {
            Some(Ok(events)) => recv::stored(
                rx.delivered(),
                receiver::ready_among(decoder::events_of(events@)),
            ),
            _ => rx.delivered(),
        },
        after.over() == rx.over(),
{
    assert(raw.len() >= 4 && raw[3] != frames::CTRL_END);
    choose|r: Option<Result<Vec<DecoderEvent>>>|
        {
            &&& #[trigger] receiver::datagram_handled(rx.inner(), raw, r, after.inner())
            &&& after.delivered() == match r {
                Some(Ok(events)) => recv::stored(
                    rx.delivered(),
                    receiver::ready_among(decoder::events_of(events@)),
                ),
                _ => rx.delivered(),
            }
        }
}

/// The next source packet reaches a receiver that has everything so far.
proof fn lemma_source_datagram(
    e: EncoderModel,
    rx: FileReceiver,
    after: FileReceiver,
    s: Symbols,
)
    requires
        streams::keeps_up(e, rx.inner()@, s),
        laws::all_sized(s, e.params.symbol_size as nat),
        e.refusal(s(e.next_id)) is None,
        holds_first(rx, e.next_id as nat, s),
        FileReceiver::received(
            rx,
            e.after_push(s(e.next_id)).source_packet(Seq::empty()),
            after,
        ),
    ensures
        streams::keeps_up(e.after_push(s(e.next_id)), after.inner()@, s),
        holds_first(after, e.next_id as nat + 1, s),
        after.announced() == rx.announced(),
        after.over() == rx.over(),
{
    let id = e.next_id;
    let p = e.after_push(s(id));
    let raw = p.source_packet(Seq::empty());
    session::lemma_source_packet_read(p, Seq::empty());
    let pkt = source::source_from(raw)->Ok_0;
    assert(receiver::datagram_of(raw) == DatagramModel::Source(pkt));
    let r = lemma_handled(rx, raw, after);
    let events = r->0->Ok_0;
    let t = rx.inner()@.source_taken(id, s(id));
    streams::lemma_source_arrives(e, rx.inner()@, s);
    lemma_told(
        t,
        rx.inner().policy(),
        decoder::events_of(events@),
        after.inner()@,
        after.inner().policy(),
    );
    assert(t.buffer.next == id);
    assert(t.deliveries().len() == 1);
    buffer::lemma_run_end(t.buffer.symbols, t.buffer.next);
    assert(t.deliveries()[0] == (EventModel::SourceReady { id, data: s(id) }));
    assert(t.buffer.deliverable() =~= seq![(id, s(id))]) by {
        let d = t.buffer.deliverable();
        assert(d.len() == 1);
        assert(t.deliveries()[0] == (EventModel::SourceReady { id: d[0].0, data: d[0].1 }));
    }
    reveal_with_fuel(recv::stored, 2);
    assert(seq![(id, s(id))].drop_last() =~= Seq::<(u32, Seq<u8>)>::empty());
    assert(after.delivered() =~= rx.delivered().insert(id, s(id)));
}

/// What a decoder tells where it delivers at most one symbol and passes no gap.
pub proof fn lemma_told<P: FeedbackPolicy>(
    t: DecoderModel,
    policy: P,
    events: Seq<EventModel>,
    post: DecoderModel,
    after: P,
)
    requires
        model::tells(t, policy, events, post, after),
        t.deliveries().len() <= 1,
        t.drained().win_min <= t.drained().buffer.next,
    ensures
        post == streams::settled(t),
        receiver::ready_among(events) == t.buffer.deliverable(),
{
    let due = choose|due: Option<Seq<u8>>|
        {
            &&& events == #[trigger] t.events(due)
            &&& policy.may_decide(t.drained().state(), due is Some, after)
            &&& due is Some ==> t.drained().is_feedback(due->0)
            &&& post == t.drained().gap_passed()
        };
    lemma_ready(t, due);
}

/// A coded packet changes nothing for a receiver that has everything.
proof fn lemma_coded_datagram(
    e: EncoderModel,
    cover: Seq<u32>,
    rx: FileReceiver,
    after: FileReceiver,
    s: Symbols,
)
    requires
        streams::keeps_up(e, rx.inner()@, s),
        laws::all_sized(s, e.params.symbol_size as nat),
        session::covers(e, cover),
        ev::fits_wire(e.vector(cover)),
        holds_first(rx, e.next_id as nat, s),
        FileReceiver::received(rx, e.coded_packet(cover, Seq::empty()), after),
    ensures
        streams::keeps_up(e.after_coded(), after.inner()@, s),
        holds_first(after, e.next_id as nat, s),
        after.announced() == rx.announced(),
        after.over() == rx.over(),
{
    let raw = e.coded_packet(cover, Seq::empty());
    session::lemma_coded_packet_read(e, cover, Seq::empty());
    let pkt = coded::coded_from(raw)->Ok_0;
    assert(receiver::datagram_of(raw) == DatagramModel::Coded(pkt));
    let r = lemma_handled(rx, raw, after);
    let events = r->0->Ok_0;
    let t = streams::heard(e, rx.inner()@, cover);
    streams::lemma_coded_idle(e, rx.inner()@, s, cover);
    buffer::lemma_run_end(t.buffer.symbols, t.buffer.next);
    lemma_told(
        t,
        rx.inner().policy(),
        decoder::events_of(events@),
        after.inner()@,
        after.inner().policy(),
    );
    assert(t.buffer.deliverable() =~= Seq::empty());
}

// ── Coded packets of a file ──────────────────────────────────────────────

/// The window stays undisturbed.
pub proof fn lemma_undisturbed(e: EncoderModel, data: Seq<u8>, n: nat)
    requires
        e.wf(),
        undisturbed(e),
    ensures
        e.next_id < u32::MAX ==> undisturbed(e.after_push(data)),
        undisturbed(e.after_coded_n(n)),
{
    session::lemma_after_coded_n(e, n);
    if e.next_id < u32::MAX {
        let p = e.after_push(data);
        assert(p.window.len() <= p.next_id);
        assert forall|i: int| 0 <= i < p.window.len() implies (#[trigger] p.window[i]).0
            == p.next_id - p.window.len() + i by {
            if i + 1 < p.window.len() {
                if e.window.len() >= e.params.window_capacity {
                    assert(p.window[i] == e.window[i + 1]);
                } else {
                    assert(p.window[i] == e.window[i]);
                }
            }
        }
        assert forall|rid: u64| !#[trigger] p.acks.contains_key(rid) by {
            assert(!e.acks.contains_key(rid));
        }
    }
}

/// Everything is kept where the test always holds.
proof fn lemma_keeps_all(ids: Seq<u32>, keep: spec_fn(u32) -> bool)
    requires
        forall|id: u32| #[trigger] keep(id),
    ensures
        ids.filter(keep) == ids,
    decreases ids.len(),
{
    reveal(Seq::filter);
    if ids.len() > 0 {
        lemma_keeps_all(ids.drop_last(), keep);
        assert(keep(ids.last()));
        assert(ids =~= ids.drop_last().push(ids.last()));
    }
}

/// The ids of the newest symbols from position `k` of the window on.
pub open spec fn newest_from(e: EncoderModel, k: int) -> Seq<u32> {
    e.ids().skip(k)
}

/// What a coded packet of a file covers: the newest symbols.
proof fn lemma_cover(tx: FileSender, e: EncoderModel) -> (k: int)
    requires
        e.wf(),
        undisturbed(e),
    ensures
        0 <= k <= e.window.len(),
        tx.setup().cover(e).len() > 0 ==> tx.setup().cover(e) == newest_from(e, k),
{
    let ids = e.ids();
    assert(ids.skip(0) =~= ids);
    match tx.setup().altc {
        AltcMode::Off => 0,
        AltcMode::Recent => {
            let n = tx.setup().altc_recent as nat;
            if n >= ids.len() {
                0
            } else {
                ids.len() - n
            }
        },
        AltcMode::PerReceiver => {
            let acked = e.acks;
            let rid = tx.setup().receiver;
            lemma_keeps_all(ids, |id: u32| !acks::acked_by(acked, rid, id));
            0
        },
    }
}

/// The newest symbols can be listed in a packet.
pub proof fn lemma_newest_fit(e: EncoderModel, k: int)
    requires
        e.wf(),
        undisturbed(e),
        e.params.window_capacity <= 255,
        0 <= k < e.window.len(),
    ensures
        session::covers(e, newest_from(e, k)),
        ev::fits_wire(e.vector(newest_from(e, k))),
{
    let cover = newest_from(e, k);
    let v = e.vector(cover);
    session::lemma_covers(e, 0, 0, Seq::empty());
    assert forall|i: int| 0 <= i < cover.len() implies e.ids().contains(#[trigger] cover[i]) by {
        assert(cover[i] == e.ids()[i + k]);
    }
    assert forall|i: int| 0 < i < v.ids.len() implies v.ids[i - 1] < #[trigger] v.ids[i] && v.ids[i]
        - v.ids[i - 1] < 0x1_0000 by {
        assert(v.ids[i] == e.window[i + k].0);
        assert(v.ids[i - 1] == e.window[i - 1 + k].0);
    }
    assert forall|i: int| 0 <= i < v.coefs.len() implies algebra::in_field(
        v.field,
        #[trigger] v.coefs[i],
    ) by {
        session::lemma_vector_coefs(e, cover, i);
    }
    ev::lemma_fits_wire(v);
}

/// Coded packets that go to a receiver that has everything.
proof fn lemma_coded_run(
    e: EncoderModel,
    n: nat,
    packets: Seq<OutputModel>,
    from: int,
    rxs: Seq<FileReceiver>,
    s: Symbols,
)
    requires
        0 <= from,
        from + n <= packets.len(),
        receives(rxs, packets),
        streams::keeps_up(e, rxs[from].inner()@, s),
        laws::all_sized(s, e.params.symbol_size as nat),
        undisturbed(e),
        e.params.window_capacity <= 255,
        e.window.len() > 0,
        holds_first(rxs[from], e.next_id as nat, s),
        forall|i: int|
            from <= i < from + n ==> (#[trigger] packets[i]).bytes() == e.after_coded_n(
                (i - from) as nat,
            ).coded_packet(e.ids(), Seq::empty()),
    ensures
        streams::keeps_up(e.after_coded_n(n), rxs[from + n].inner()@, s),
        holds_first(rxs[from + n], e.next_id as nat, s),
        rxs[from + n].announced() == rxs[from].announced(),
        rxs[from + n].over() == rxs[from].over(),
    decreases n,
{
    if n > 0 {
        let j = (n - 1) as nat;
        lemma_coded_run(e, j, packets, from, rxs, s);
        let m = e.after_coded_n(j);
        session::lemma_after_coded_n(e, j);
        lemma_undisturbed(e, Seq::empty(), j);
        assert(newest_from(m, 0) =~= m.ids());
        lemma_newest_fit(m, 0);
        assert(FileReceiver::received(
            rxs[from + j],
            packets[from + j].bytes(),
            rxs[from + j + 1],
        ));
        assert(packets[from + j].bytes() == m.coded_packet(e.ids(), Seq::empty()));
        lemma_coded_datagram(m, m.ids(), rxs[from + j], rxs[from + j + 1], s);
    }
}

// ── The laws ─────────────────────────────────────────────────────────────

/// All packets survive where none are to be dropped.
proof fn lemma_all_survive(all: Seq<OutputModel>, x: u64)
    ensures
        prng::survivors(all, x, 0) == all,
    decreases all.len(),
{
    if all.len() > 0 {
        lemma_all_survive(all.drop_last(), x);
        assert(all =~= all.drop_last().push(all.last()));
    }
}

/// The symbols of a file have the size of a symbol.
proof fn lemma_sized(data: Seq<u8>, size: nat)
    ensures
        laws::all_sized(symbols_of(data, size), size),
{
}

/// The next symbol is always sent, as long as there are ids left.
pub proof fn lemma_step_succeeds(tx: FileSender, r: Result<Option<Batch>>, after: FileSender)
    requires
        tx.wf(),
        tx.total() <= u32::MAX,
        FileSender::stepped(tx, r, after),
    ensures
        r is Ok,
        r->Ok_0 is Some <==> tx.position() < tx.total(),
{
    tx.lemma_wf();
}

/// A new receiver is in step with a new sender.
pub proof fn lemma_start_in_step(tx: FileSender, rx: FileReceiver)
    requires
        tx.wf(),
        tx.position() == 0,
        tx.inner()@ == EncoderModel::initial(tx.setup().encoder()),
        rx.inner().wf(),
        rx.inner()@ == DecoderModel::initial(DecoderParams::initial(tx.setup().symbol_size)),
        rx.delivered() == Map::<u32, Seq<u8>>::empty(),
    ensures
        in_step(tx, rx),
{
    tx.lemma_wf();
    let s = symbols_of(tx.contents(), tx.setup().symbol_size as nat);
    streams::lemma_new_pair(
        tx.setup().encoder(),
        DecoderParams::initial(tx.setup().symbol_size),
        s,
    );
}

/// A receiver that is in step gets the next symbol, where nothing is lost.
pub proof fn lemma_step_in_step(
    tx: FileSender,
    b: Batch,
    after: FileSender,
    rxs: Seq<FileReceiver>,
)
    requires
        rxs.len() > 0,
        in_step(tx, rxs[0]),
        tx.setup().window <= 255,
        tx.dice().percent == 0,
        after.wf(),
        after.setup() == tx.setup(),
        after.contents() == tx.contents(),
        FileSender::stepped(tx, Ok(Some(b)), after),
        receives(rxs, encoder::outputs(b.packets@)),
    ensures
        in_step(after, rxs.last()),
        after.position() == tx.position() + 1,
        after.dice().percent == 0,
        rxs.last().announced() == rxs[0].announced(),
        rxs.last().over() == rxs[0].over(),
{
    let size = tx.setup().symbol_size as nat;
    let s = symbols_of(tx.contents(), size);
    let (mid, out, extra) = choose|
        mid: DefaultEncoder,
        out: Vec<EncoderOutput>,
        extra: Option<EncoderOutput>,
    | #[trigger]
        FileSender::encoded(tx, mid, out, extra, after) && FileSender::diced(
            tx,
            encoder::outputs(out@) + send::if_any(extra),
            b,
            after,
        );
    assert(FileSender::encoded(tx, mid, out, extra, after));
    let packets = encoder::outputs(b.packets@);
    let plain = encoder::outputs(out@);
    let all = plain + send::if_any(extra);
    lemma_all_survive(all, tx.dice().rng.state);
    lemma_sized(tx.contents(), size);
    tx.lemma_wf();
    after.lemma_wf();
    let e = tx.inner()@;
    let id = e.next_id;
    let n = (plain.len() - 1) as nat;
    let p = e.after_push(s(id));
    let m = p.after_coded_n(n);
    assert(tx.current() == s(id));
    sending::lemma_after_push_wf(e, s(id));
    lemma_undisturbed(e, s(id), 0);
    lemma_undisturbed(p, s(id), n);
    session::lemma_after_coded_n(p, n);
    let ccs = choose|ccs: Seq<NoCongestionControl>| #[trigger]
        sending::submit_output(p, plain, ccs) && ccs[0] == tx.inner().control() && ccs.last()
            == mid.control();
    assert(sending::submit_output(p, plain, ccs));
    // The source packet.
    assert(packets[0] == plain[0]);
    lemma_no_control_source(p, ccs[0], plain[0], ccs[1]);
    assert(FileReceiver::received(rxs[0], packets[0].bytes(), rxs[0int + 1]));
    lemma_source_datagram(e, rxs[0], rxs[1], s);
    // The coded packets over the window.
    assert forall|i: int| 1 <= i < 1 + n implies (#[trigger] packets[i]).bytes() == p.after_coded_n(
        (i - 1) as nat,
    ).coded_packet(p.ids(), Seq::empty()) by {
        assert(packets[i] == plain[i]);
        send::lemma_no_control(
            p.after_coded_n((i - 1) as nat),
            p.ids(),
            ccs[i],
            plain[i],
            ccs[i + 1],
        );
    }
    lemma_coded_run(p, n, packets, 1, rxs, s);
    // The targeted packet.
    let at: int = plain.len() as int;
    match extra {
        Some(o) => {
            let cover = tx.setup().cover(m);
            let k = lemma_cover(tx, m);
            assert(cover == newest_from(m, k));
            lemma_newest_fit(m, k);
            send::lemma_no_control(m, cover, mid.control(), o@, after.inner().control());
            assert(packets[at] == o@);
            assert(FileReceiver::received(
                rxs[at],
                packets[at].bytes(),
                rxs[at + 1],
            ));
            lemma_coded_datagram(m, cover, rxs[at], rxs[at + 1], s);
            lemma_undisturbed(m, s(id), 1);
            reveal_with_fuel(EncoderModel::after_coded_n, 2);
        },
        None => {},
    }
}

/// Without congestion control a source packet carries no CCI bytes.
pub proof fn lemma_no_control_source(
    m: EncoderModel,
    cc: NoCongestionControl,
    out: OutputModel,
    after: NoCongestionControl,
)
    requires
        sending::source_output(m, cc, out, after),
    ensures
        out == OutputModel::Source(m.source_packet(Seq::empty())),
{
    let cci = choose|cci: Seq<u8>|
        {
            &&& #[trigger] sending::sends(cc, cci, m.source_packet(cci), after)
            &&& out == OutputModel::Source(m.source_packet(cci))
        };
    assert(cci =~= Seq::empty());
}

/// The coded packets at the end of the file leave a receiver in step.
pub proof fn lemma_flush_in_step(
    tx: FileSender,
    b: Batch,
    after: FileSender,
    rxs: Seq<FileReceiver>,
)
    requires
        rxs.len() > 0,
        in_step(tx, rxs[0]),
        tx.setup().window <= 255,
        tx.dice().percent == 0,
        after.wf(),
        after.setup() == tx.setup(),
        after.contents() == tx.contents(),
        after.position() == tx.position(),
        FileSender::flushed(tx, b, after),
        receives(rxs, encoder::outputs(b.packets@)),
    ensures
        in_step(after, rxs.last()),
        rxs.last().announced() == rxs[0].announced(),
        rxs.last().over() == rxs[0].over(),
{
    let size = tx.setup().symbol_size as nat;
    let s = symbols_of(tx.contents(), size);
    let e = tx.inner()@;
    let n = tx.closing();
    let packets = encoder::outputs(b.packets@);
    lemma_all_survive(send::coded_run(e, n), tx.dice().rng.state);
    lemma_sized(tx.contents(), size);
    tx.lemma_wf();
    lemma_undisturbed(e, Seq::empty(), n);
    session::lemma_after_coded_n(e, n);
    if n > 0 {
        lemma_coded_run(e, n, packets, 0, rxs, s);
    }
}

/// A receiver that is in step at the end of the file has the file, and finds the
/// digest that was announced.
pub proof fn lemma_finish_in_step(
    tx: FileSender,
    rx: FileReceiver,
    r: core::result::Result<recv::ReceivedFile, u32>,
)
    requires
        in_step(tx, rx),
        tx.position() == tx.total(),
        rx.announced() == tx.announcement(),
        rx.finished(r),
    ensures
        r matches Ok(f) && f.data@ == tx.contents() && f.verified,
{
    tx.lemma_wf();
    match r {
        Ok(f) => lemma_put_together(tx, rx, f),
        Err(id) => {
            assert(rx.delivered().contains_key(id));
        },
    }
}

/// The symbols of a file make the file.
proof fn lemma_put_together(tx: FileSender, rx: FileReceiver, f: recv::ReceivedFile)
    requires
        tx.wf(),
        tx.total() <= u32::MAX,
        rx.announced() == tx.announcement(),
        rx.finished(Ok(f)),
        forall|id: u32| #[trigger]
            rx.delivered().contains_key(id) ==> rx.delivered()[id] == file::chunk_of(
                tx.contents(),
                tx.setup().symbol_size as nat,
                id as nat,
            ),
    ensures
        f.data@ == tx.contents(),
        f.verified,
{
    let size = tx.setup().symbol_size as nat;
    let n = tx.total();
    tx.lemma_wf();
    lemma_count_kept(n);
    assert(tx.announcement().n_symbols == n);
    assert forall|i: u32| i < n implies #[trigger] rx.delivered()[i] == file::chunk_of(
        tx.contents(),
        size,
        i as nat,
    ) by {
        assert(rx.delivered().contains_key(i));
    }
    file::lemma_file_round_trip(tx.contents(), size, rx.delivered());
}

/// A count that fits is announced as it is.
proof fn lemma_count_kept(n: nat)
    requires
        n <= u32::MAX,
    ensures
        (n % 0x1_0000_0000) as u32 == n,
{
}

// ── Whole files ──────────────────────────────────────────────────────────

/// `txs` are the states of the sender while it sends the batches `bs`, and `rxs[i]`
/// those of the receiver while the `i`-th of them arrives.
pub open spec fn conveyed(
    txs: Seq<FileSender>,
    bs: Seq<Batch>,
    rxs: Seq<Seq<FileReceiver>>,
) -> bool {
    &&& txs.len() == bs.len() + 1
    &&& rxs.len() == bs.len()
    &&& forall|i: int|
        0 <= i < bs.len() ==> {
            &&& #[trigger] FileSender::stepped(txs[i], Ok(Some(bs[i])), txs[i + 1])
            &&& receives(rxs[i], encoder::outputs(bs[i].packets@))
        }
    &&& forall|i: int| 0 <= i < bs.len() ==> (#[trigger] rxs[i]).len() > 0
    &&& forall|i: int| 0 < i < bs.len() ==> (#[trigger] rxs[i])[0] == rxs[i - 1].last()
    &&& forall|i: int|
        0 <= i < txs.len() ==> {
            &&& (#[trigger] txs[i]).wf()
            &&& txs[i].setup() == txs[0].setup()
            &&& txs[i].contents() == txs[0].contents()
        }
}

/// The receiver after the first `n` batches, where it was `rx` before.
pub open spec fn arrived(rx: FileReceiver, rxs: Seq<Seq<FileReceiver>>, n: nat) -> FileReceiver {
    if n == 0 {
        rx
    } else {
        rxs[n - 1].last()
    }
}

/// As long as nothing is lost, the receiver stays in step.
pub proof fn lemma_conveyed_in_step(
    txs: Seq<FileSender>,
    bs: Seq<Batch>,
    rx: FileReceiver,
    rxs: Seq<Seq<FileReceiver>>,
    n: nat,
)
    requires
        conveyed(txs, bs, rxs),
        in_step(txs[0], rx),
        bs.len() > 0 ==> rxs[0][0] == rx,
        txs[0].setup().window <= 255,
        txs[0].dice().percent == 0,
        n <= bs.len(),
    ensures
        in_step(txs[n as int], arrived(rx, rxs, n)),
        txs[n as int].position() == txs[0].position() + n,
        txs[n as int].dice().percent == 0,
        arrived(rx, rxs, n).announced() == rx.announced(),
    decreases n,
{
    if n > 0 {
        let i = n - 1;
        lemma_conveyed_in_step(txs, bs, rx, rxs, i as nat);
        assert(FileSender::stepped(txs[i], Ok(Some(bs[i])), txs[i + 1]));
        assert(rxs[i][0] == arrived(rx, rxs, i as nat));
        assert(txs[i].wf() && txs[i + 1].wf());
        lemma_step_in_step(txs[i], bs[i], txs[i + 1], rxs[i]);
    }
}

/// A file that is sent whole, without losses, is received byte for byte, and its
/// digest is found to be right.
pub proof fn lemma_file_delivered(
    txs: Seq<FileSender>,
    bs: Seq<Batch>,
    rx: FileReceiver,
    rxs: Seq<Seq<FileReceiver>>,
    r: core::result::Result<recv::ReceivedFile, u32>,
)
    requires
        conveyed(txs, bs, rxs),
        bs.len() > 0 ==> rxs[0][0] == rx,
        // The sender is new, and nothing is to be dropped.
        txs[0].position() == 0,
        txs[0].inner()@ == EncoderModel::initial(txs[0].setup().encoder()),
        txs[0].setup().window <= 255,
        txs[0].dice().percent == 0,
        // The receiver is new, and has been told of the file.
        rx.inner().wf(),
        rx.inner()@ == DecoderModel::initial(DecoderParams::initial(txs[0].setup().symbol_size)),
        rx.delivered() == Map::<u32, Seq<u8>>::empty(),
        rx.announced() == txs[0].announcement(),
        // All symbols have been sent.
        bs.len() == txs[0].total(),
        arrived(rx, rxs, bs.len()).finished(r),
    ensures
        r matches Ok(f) && f.data@ == txs[0].contents() && f.verified,
{
    assert(txs[0].wf());
    lemma_start_in_step(txs[0], rx);
    lemma_conveyed_in_step(txs, bs, rx, rxs, bs.len());
    let last = txs[bs.len() as int];
    assert(last.setup() == txs[0].setup() && last.contents() == txs[0].contents());
    lemma_finish_in_step(last, arrived(rx, rxs, bs.len()), r);
}

// ── Files with losses ────────────────────────────────────────────────────

/// The sender sends the symbols of the file.
pub open spec fn sends_file(tx: FileSender) -> bool {
    &&& tx.wf()
    &&& session::window_true(
        tx.inner()@,
        symbols_of(tx.contents(), tx.setup().symbol_size as nat),
    )
    &&& undisturbed(tx.inner()@)
}

/// The encoder `e`, which holds symbols of `s`, sends the packet `raw`.
pub open spec fn sent_by(e: EncoderModel, raw: Seq<u8>, s: Symbols) -> bool {
    &&& e.wf()
    &&& session::window_true(e, s)
    &&& {
        ||| e.window.len() > 0 && raw == e.source_packet(Seq::empty())
        ||| exists|cover: Seq<u32>|
            {
                &&& #[trigger] session::covers(e, cover)
                &&& ev::fits_wire(e.vector(cover))
                &&& raw == e.coded_packet(cover, Seq::empty())
            }
    }
}

/// The packet `raw` carries symbols of `s`, or a combination of them.
pub open spec fn genuine(raw: Seq<u8>, size: nat, s: Symbols) -> bool {
    exists|e: EncoderModel| #[trigger]
        sent_by(e, raw, s) && e.params.symbol_size == size && e.params.field
            == DecoderParams::initial(size as usize).field
}

/// The receiver holds nothing but symbols of `s`.
pub open spec fn truthful(rx: FileReceiver, size: nat, s: Symbols) -> bool {
    let d = rx.inner()@;
    &&& d.wf()
    &&& d.consistent(s)
    &&& d.params.symbol_size == size
    &&& d.params.field == DecoderParams::initial(size as usize).field
    &&& forall|id: u32| #[trigger] rx.delivered().contains_key(id) ==> rx.delivered()[id] == s(id)
}

/// Symbols that become ready are stored as they are.
proof fn lemma_stored_true(
    m: Map<u32, Seq<u8>>,
    events: Seq<EventModel>,
    s: Symbols,
)
    requires
        forall|id: u32| #[trigger] m.contains_key(id) ==> m[id] == s(id),
        forall|i: int|
            0 <= i < events.len() ==> match #[trigger] events[i] {
                EventModel::SourceReady { id, data } => data == s(id),
                _ => true,
            },
    ensures
        ({
            let after = recv::stored(m, receiver::ready_among(events));
            forall|id: u32| #[trigger] after.contains_key(id) ==> after[id] == s(id)
        }),
    decreases events.len(),
{
    if events.len() > 0 {
        let rest = events.drop_last();
        assert forall|i: int| 0 <= i < rest.len() implies match #[trigger] rest[i] {
            EventModel::SourceReady { id, data } => data == s(id),
            _ => true,
        } by {
            assert(rest[i] == events[i]);
        }
        lemma_stored_true(m, rest, s);
        let ready = receiver::ready_among(rest);
        match events.last() {
            EventModel::SourceReady { id, data } => {
                assert(events[events.len() - 1] == events.last());
                assert(ready.push((id, data)).drop_last() =~= ready);
                assert(receiver::ready_among(events) == ready.push((id, data)));
                assert(recv::stored(m, ready.push((id, data))) == recv::stored(m, ready).insert(
                    id,
                    data,
                ));
            },
            _ => {},
        }
    }
}

/// What the decoder tells of true packets is true.
proof fn lemma_told_true(
    rx: FileReceiver,
    after: FileReceiver,
    t: DecoderModel,
    events: Seq<EventModel>,
    size: nat,
    s: Symbols,
)
    requires
        truthful(rx, size, s),
        t.wf(),
        t.consistent(s),
        t.params == rx.inner()@.params,
        model::tells(t, rx.inner().policy(), events, after.inner()@, after.inner().policy()),
        after.delivered() == recv::stored(rx.delivered(), receiver::ready_among(events)),
    ensures
        truthful(after, size, s),
{
    laws::lemma_delivery_true(
        t,
        rx.inner().policy(),
        events,
        after.inner()@,
        after.inner().policy(),
        s,
    );
    laws::lemma_drained_wf(t);
    lemma_stored_true(rx.delivered(), events, s);
}

/// A genuine packet leaves nothing but true symbols with the receiver, whatever it
/// has got before.
pub proof fn lemma_packet_truthful(
    raw: Seq<u8>,
    rx: FileReceiver,
    after: FileReceiver,
    size: nat,
    s: Symbols,
)
    requires
        truthful(rx, size, s),
        laws::all_sized(s, size),
        genuine(raw, size, s),
        FileReceiver::received(rx, raw, after),
    ensures
        truthful(after, size, s),
        after.announced() == rx.announced(),
{
    let e = choose|e: EncoderModel| #[trigger]
        sent_by(e, raw, s) && e.params.symbol_size == size && e.params.field
            == DecoderParams::initial(size as usize).field;
    assert(sent_by(e, raw, s));
    let d = rx.inner()@;
    if e.window.len() > 0 && raw == e.source_packet(Seq::empty()) {
        session::lemma_source_packet_read(e, Seq::empty());
        let pkt = source::source_from(raw)->Ok_0;
        assert(receiver::datagram_of(raw) == DatagramModel::Source(pkt));
        assert(pkt.payload == s(pkt.id)) by {
            assert(e.window[e.window.len() - 1] == e.window.last());
        }
        let r = lemma_handled(rx, raw, after);
        let events = r->0->Ok_0;
        let t = d.source_taken(pkt.id, pkt.payload);
        laws::lemma_source_taken_wf(d, pkt.id, pkt.payload);
        laws::lemma_source_consistent(d, s, pkt.id);
        lemma_told_true(rx, after, t, decoder::events_of(events@), size, s);
    } else {
        let cover = choose|cover: Seq<u32>|
            {
                &&& #[trigger] session::covers(e, cover)
                &&& ev::fits_wire(e.vector(cover))
                &&& raw == e.coded_packet(cover, Seq::empty())
            };
        assert(session::covers(e, cover));
        session::lemma_coded_packet_read(e, cover, Seq::empty());
        session::lemma_coded_packet_true(e, cover, s);
        let pkt = coded::coded_from(raw)->Ok_0;
        assert(receiver::datagram_of(raw) == DatagramModel::Coded(pkt));
        let r = lemma_handled(rx, raw, after);
        let events = r->0->Ok_0;
        let t = d.coded_taken(pkt.ev, pkt.payload, pkt.start());
        laws::lemma_coded_taken_wf(d, pkt.ev, pkt.payload, pkt.start());
        laws::lemma_coded_consistent(d, s, pkt.ev, pkt.payload, pkt.start());
        lemma_told_true(rx, after, t, decoder::events_of(events@), size, s);
    }
}

/// What survives was sent.
proof fn lemma_survivors(all: Seq<OutputModel>, x: u64, percent: u32)
    ensures
        forall|i: int|
            0 <= i < prng::survivors(all, x, percent).len() ==> all.contains(
                #[trigger] prng::survivors(all, x, percent)[i],
            ),
    decreases all.len(),
{
    if all.len() > 0 {
        let rest = all.drop_last();
        let left = prng::survivors(rest, x, percent);
        lemma_survivors(rest, x, percent);
        assert forall|i: int| 0 <= i < prng::survivors(all, x, percent).len() implies all.contains(
            #[trigger] prng::survivors(all, x, percent)[i],
        ) by {
            if i < left.len() {
                assert(rest.contains(left[i]));
                let j = rest.index_of(left[i]);
                assert(all[j] == left[i]);
            } else {
                assert(all[all.len() - 1] == all.last());
            }
        }
    }
}

/// A new sender sends the symbols of the file.
pub proof fn lemma_start_genuine(tx: FileSender)
    requires
        tx.wf(),
        tx.inner()@ == EncoderModel::initial(tx.setup().encoder()),
    ensures
        sends_file(tx),
{
}

/// Every packet of the next symbol is genuine, whatever is dropped.
pub proof fn lemma_step_genuine(tx: FileSender, b: Batch, after: FileSender)
    requires
        sends_file(tx),
        tx.setup().window <= 255,
        after.wf(),
        after.setup() == tx.setup(),
        after.contents() == tx.contents(),
        FileSender::stepped(tx, Ok(Some(b)), after),
    ensures
        sends_file(after),
        forall|i: int|
            0 <= i < b.packets@.len() ==> genuine(
                (#[trigger] encoder::outputs(b.packets@)[i]).bytes(),
                tx.setup().symbol_size as nat,
                symbols_of(tx.contents(), tx.setup().symbol_size as nat),
            ),
{
    let size = tx.setup().symbol_size as nat;
    let s = symbols_of(tx.contents(), size);
    let (mid, out, extra) = choose|
        mid: DefaultEncoder,
        out: Vec<EncoderOutput>,
        extra: Option<EncoderOutput>,
    | #[trigger]
        FileSender::encoded(tx, mid, out, extra, after) && FileSender::diced(
            tx,
            encoder::outputs(out@) + send::if_any(extra),
            b,
            after,
        );
    assert(FileSender::encoded(tx, mid, out, extra, after));
    let packets = encoder::outputs(b.packets@);
    let plain = encoder::outputs(out@);
    let all = plain + send::if_any(extra);
    lemma_survivors(all, tx.dice().rng.state, tx.dice().percent);
    tx.lemma_wf();
    tx.inner().lemma_wf();
    let e = tx.inner()@;
    let id = e.next_id;
    let n = (plain.len() - 1) as nat;
    let p = e.after_push(s(id));
    let m = p.after_coded_n(n);
    assert(tx.current() == s(id));
    sending::lemma_after_push_wf(e, s(id));
    session::lemma_window_stays_true(e, s, Seq::empty());
    lemma_undisturbed(e, s(id), 0);
    lemma_undisturbed(p, s(id), n);
    session::lemma_after_coded_n(p, n);
    let ccs = choose|ccs: Seq<NoCongestionControl>| #[trigger]
        sending::submit_output(p, plain, ccs) && ccs[0] == tx.inner().control() && ccs.last()
            == mid.control();
    assert(sending::submit_output(p, plain, ccs));
    assert forall|j: int| 0 <= j < all.len() implies genuine(
        (#[trigger] all[j]).bytes(),
        size,
        s,
    ) by {
        if j == 0 {
            lemma_no_control_source(p, ccs[0], plain[0], ccs[1]);
            assert(sent_by(p, all[j].bytes(), s));
        } else if j < plain.len() {
            let q = p.after_coded_n((j - 1) as nat);
            session::lemma_after_coded_n(p, (j - 1) as nat);
            lemma_undisturbed(p, s(id), (j - 1) as nat);
            assert(all[j] == plain[j]);
            send::lemma_no_control(q, p.ids(), ccs[j], plain[j], ccs[j + 1]);
            assert(newest_from(q, 0) =~= q.ids());
            lemma_newest_fit(q, 0);
            assert(sent_by(q, all[j].bytes(), s));
        } else {
            let cover = tx.setup().cover(m);
            let k = lemma_cover(tx, m);
            lemma_newest_fit(m, k);
            send::lemma_no_control(m, cover, mid.control(), extra->0@, after.inner().control());
            assert(all[j] == extra->0@);
            assert(sent_by(m, all[j].bytes(), s));
        }
    }
    assert forall|i: int| 0 <= i < b.packets@.len() implies genuine(
        (#[trigger] packets[i]).bytes(),
        size,
        s,
    ) by {
        let left = prng::survivors(all, tx.dice().rng.state, tx.dice().percent);
        assert(all.contains(left[i]));
        let j = all.index_of(left[i]);
        assert(genuine(all[j].bytes(), size, s));
    }
    lemma_undisturbed(m, s(id), 1);
    reveal_with_fuel(EncoderModel::after_coded_n, 2);
}

/// The packets at the end of the file are genuine, whatever is dropped.
pub proof fn lemma_flush_genuine(tx: FileSender, b: Batch, after: FileSender)
    requires
        sends_file(tx),
        tx.setup().window <= 255,
        FileSender::flushed(tx, b, after),
    ensures
        forall|i: int|
            0 <= i < b.packets@.len() ==> genuine(
                (#[trigger] encoder::outputs(b.packets@)[i]).bytes(),
                tx.setup().symbol_size as nat,
                symbols_of(tx.contents(), tx.setup().symbol_size as nat),
            ),
{
    let size = tx.setup().symbol_size as nat;
    let s = symbols_of(tx.contents(), size);
    let e = tx.inner()@;
    let all = send::coded_run(e, tx.closing());
    let packets = encoder::outputs(b.packets@);
    lemma_survivors(all, tx.dice().rng.state, tx.dice().percent);
    tx.lemma_wf();
    tx.inner().lemma_wf();
    assert forall|i: int| 0 <= i < b.packets@.len() implies genuine(
        (#[trigger] packets[i]).bytes(),
        size,
        s,
    ) by {
        let left = prng::survivors(all, tx.dice().rng.state, tx.dice().percent);
        assert(all.contains(left[i]));
        let j = all.index_of(left[i]);
        let q = e.after_coded_n(j as nat);
        session::lemma_after_coded_n(e, j as nat);
        lemma_undisturbed(e, Seq::empty(), j as nat);
        assert(newest_from(q, 0) =~= q.ids());
        lemma_newest_fit(q, 0);
        assert(sent_by(q, all[j].bytes(), s));
    }
}

/// A receiver that gets genuine packets only, any of them, in any order and as often
/// as may be, holds nothing but symbols of the file.
pub proof fn lemma_packets_truthful(
    raws: Seq<Seq<u8>>,
    rxs: Seq<FileReceiver>,
    n: nat,
    size: nat,
    s: Symbols,
)
    requires
        rxs.len() == raws.len() + 1,
        n <= raws.len(),
        truthful(rxs[0], size, s),
        laws::all_sized(s, size),
        forall|i: int|
            0 <= i < raws.len() ==> genuine(#[trigger] raws[i], size, s) && FileReceiver::received(
                rxs[i],
                raws[i],
                rxs[i + 1],
            ),
    ensures
        truthful(rxs[n as int], size, s),
        rxs[n as int].announced() == rxs[0].announced(),
    decreases n,
{
    if n > 0 {
        let i = n - 1;
        lemma_packets_truthful(raws, rxs, i as nat, size, s);
        assert(genuine(raws[i], size, s));
        lemma_packet_truthful(raws[i], rxs[i], rxs[i + 1], size, s);
    }
}

/// Whatever was lost on the way, a file that can be put together is the file that was
/// sent, and its digest is found to be right.
pub proof fn lemma_finish_truthful(
    tx: FileSender,
    rx: FileReceiver,
    f: recv::ReceivedFile,
)
    requires
        tx.wf(),
        tx.total() <= u32::MAX,
        truthful(
            rx,
            tx.setup().symbol_size as nat,
            symbols_of(tx.contents(), tx.setup().symbol_size as nat),
        ),
        rx.announced() == tx.announcement(),
        rx.finished(Ok(f)),
    ensures
        f.data@ == tx.contents(),
        f.verified,
{
    lemma_put_together(tx, rx, f);
}

} // verus!
