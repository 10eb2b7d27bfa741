//! Streams: a decoder that keeps up with an encoder.
//!
//! Symbol after symbol enters the encoder.  Each is sent as a source packet, and
//! followed by coded packets over the window.  As long as the source packet or a
//! coded packet arrives, the decoder delivers every symbol at once.
use vstd::prelude::*;

use crate::codec::decoder::buffer;
use crate::codec::decoder::laws;
use crate::codec::decoder::linear;
use crate::codec::decoder::linear::Symbols;
use crate::codec::decoder::matrix;
use crate::codec::decoder::model::{DecoderModel, EventModel};
use crate::codec::decoder::system;
use crate::codec::encoder::model;
use crate::codec::encoder::model::EncoderModel;
use crate::codec::laws as session;
use crate::config::{BackpressureMode, DecoderParams, EncoderParams};
use crate::gf::algebra;
use crate::wire::ev::EvModel;

verus! {

/// The decoder has delivered every symbol that has entered the encoder.  No symbol
/// and no equation waits.
pub open spec fn keeps_up(e: EncoderModel, d: DecoderModel, s: Symbols) -> bool {
    &&& e.wf()
    &&& d.wf()
    &&& e.params.field == d.params.field
    &&& e.params.symbol_size == d.params.symbol_size
    &&& session::window_true(e, s)
    &&& d.consistent(s)
    &&& d.buffer.next == e.next_id
    &&& d.win_min <= d.buffer.next
    &&& forall|id: u32| !#[trigger] d.buffer.symbols.contains_key(id)
    &&& forall|p: u32| !#[trigger] d.rows.contains_key(p)
    &&& forall|id: u32| #[trigger] d.known.contains_key(id) <==> id < e.next_id
}

/// The decoder after it has told what it had to tell.
pub open spec fn settled(d: DecoderModel) -> DecoderModel {
    d.drained().gap_passed()
}

/// The decoder after the next coded packet of the encoder over `cover`.
pub open spec fn heard(e: EncoderModel, d: DecoderModel, cover: Seq<u32>) -> DecoderModel {
    d.coded_taken(e.vector(cover), e.payload(cover), e.told(cover))
}

/// The symbol with this id is delivered, and nothing else.
pub open spec fn delivers(d: DecoderModel, id: u32, s: Symbols) -> bool {
    d.deliveries() == seq![EventModel::SourceReady { id, data: s(id) }]
}

/// A new decoder keeps up with a new encoder.
pub proof fn lemma_new_pair(p: EncoderParams, q: DecoderParams, s: Symbols)
    requires
        p.rejection() is None,
        q.rejection() is None,
        p.field == q.field,
        p.symbol_size == q.symbol_size,
    ensures
        keeps_up(EncoderModel::initial(p), DecoderModel::initial(q), s),
{
}

/// A coded packet with at most one unknown symbol leaves no equation behind, and
/// makes that symbol known.
proof fn lemma_one_unknown(
    d: DecoderModel,
    ev: EvModel,
    payload: Seq<u8>,
    start: Option<u32>,
    x: u32,
)
    requires
        d.wf(),
        payload.len() == d.params.symbol_size,
        forall|p: u32| !#[trigger] d.rows.contains_key(p),
        forall|i: u32| #[trigger]
            matrix::ev_equation(d.params.field, ev, payload).at(i) != 0 && i != x
                ==> d.known.contains_key(i),
    ensures
        forall|p: u32| !#[trigger] d.coded_taken(ev, payload, start).rows.contains_key(p),
        forall|id: u32| #[trigger]
            system::solved_part(d.rows_with_coded(ev, payload)).contains_key(id) <==> id == x
                && !d.known.contains_key(x) && matrix::ev_equation(
                d.params.field,
                ev,
                payload,
            ).at(x) != 0,
{
    let f = d.params.field;
    let size = d.params.symbol_size as nat;
    let max = d.params.max_matrix_rows as nat;
    let n = linear::id_count();
    let eq = matrix::ev_equation(f, ev, payload);
    let e = system::known_put_in(f, eq, d.known, n);
    let rows = d.rows_with_coded(ev, payload);
    matrix::lemma_ev_equation_wf(f, ev, payload);
    system::lemma_known_put_in(f, eq, d.known, n, size);
    system::lemma_eliminated_gap(f, e, d.rows, 0, n);
    system::lemma_after_coded_reduced(f, d.rows, eq, d.known, max, size);
    assert(d.rows.dom() =~= Set::empty());
    assert(system::evicted(d.rows, max) == d.rows);
    assert forall|i: u32| #[trigger] e.at(i) != 0 implies i == x by {}
    if !e.is_zero() {
        let new = e.normalized(f);
        let p = new.pivot();
        let i = choose|i: u32| #[trigger] e.at(i) != 0;
        linear::lemma_pivot(e, i);
        assert(algebra::in_field(f, e.at(e.pivot())));
        algebra::lemma_finv(f, e.at(e.pivot()));
        let k = algebra::finv(f, e.at(e.pivot()));
        assert forall|q: u32| #[trigger] rows.contains_key(q) implies q == p by {}
        assert(rows.contains_key(p));
        assert(rows[p] == new && new.is_pivot(p));
        assert forall|i: u32| i != x implies #[trigger] new.at(i) == 0 by {
            assert(e.at(i) == 0);
            algebra::lemma_fmul_units(f, k);
        }
        assert(new.at(p) != 0);
        assert(p == x);
        assert(new.is_single(p));
    } else {
        assert(e.at(x) == 0);
    }
}

/// A decoder that gets the source packet delivers the symbol at once.
pub proof fn lemma_source_arrives(e: EncoderModel, d: DecoderModel, s: Symbols)
    requires
        keeps_up(e, d, s),
        laws::all_sized(s, d.params.symbol_size as nat),
        e.refusal(s(e.next_id)) is None,
    ensures
        delivers(d.source_taken(e.next_id, s(e.next_id)), e.next_id, s),
        keeps_up(
            e.after_push(s(e.next_id)),
            settled(d.source_taken(e.next_id, s(e.next_id))),
            s,
        ),
{
    let id = e.next_id;
    let data = s(id);
    let t = d.source_taken(id, data);
    let rows = d.rows_with_source(id, data);
    assert(rows =~= d.rows);
    laws::lemma_source_taken_wf(d, id, data);
    laws::lemma_source_consistent(d, s, id);
    assert forall|x: u32| #[trigger] t.known.contains_key(x) <==> x <= id by {}
    assert forall|x: u32| #[trigger] t.buffer.symbols.contains_key(x) <==> x == id by {}
    lemma_settles(e, t, s);
}

/// What is left to show once the next symbol is known and alone waits.
proof fn lemma_settles(e: EncoderModel, t: DecoderModel, s: Symbols)
    requires
        e.wf(),
        session::window_true(e, s),
        e.refusal(s(e.next_id)) is None,
        t.wf(),
        t.consistent(s),
        e.params.field == t.params.field,
        e.params.symbol_size == t.params.symbol_size,
        t.buffer.next == e.next_id,
        t.win_min <= e.next_id,
        forall|id: u32| #[trigger] t.buffer.symbols.contains_key(id) <==> id == e.next_id,
        forall|p: u32| !#[trigger] t.rows.contains_key(p),
        forall|id: u32| #[trigger] t.known.contains_key(id) <==> id <= e.next_id,
    ensures
        delivers(t, e.next_id, s),
        keeps_up(e.after_push(s(e.next_id)), settled(t), s),
{
    let id = e.next_id;
    buffer::lemma_run_end(t.buffer.symbols, id);
    let end = t.buffer.end();
    assert(end == id + 1) by {
        assert(t.buffer.symbols.contains_key(id));
        if end > id + 1 {
            assert(t.buffer.symbols.contains_key((id + 1) as u32));
        }
    }
    assert(t.deliveries() =~= seq![EventModel::SourceReady { id, data: s(id) }]);
    laws::lemma_drained_wf(t);
    model::lemma_after_push_wf(e, s(id));
    session::lemma_window_stays_true(e, s, Seq::empty());
}

/// A decoder that misses the source packet delivers the symbol as soon as it gets a
/// coded packet over the window.
pub proof fn lemma_coded_arrives(e: EncoderModel, d: DecoderModel, s: Symbols)
    requires
        keeps_up(e, d, s),
        laws::all_sized(s, d.params.symbol_size as nat),
        e.refusal(s(e.next_id)) is None,
    ensures
        ({
            let p = e.after_push(s(e.next_id));
            &&& delivers(heard(p, d, p.ids()), e.next_id, s)
            &&& keeps_up(p.after_coded(), settled(heard(p, d, p.ids())), s)
        }),
{
    let id = e.next_id;
    let f = d.params.field;
    let p = e.after_push(s(id));
    let cover = p.ids();
    let v = p.vector(cover);
    let payload = p.payload(cover);
    let t = heard(p, d, cover);
    model::lemma_after_push_wf(e, s(id));
    session::lemma_window_stays_true(e, s, Seq::empty());
    session::lemma_covers(p, 0, 0, Seq::empty());
    session::lemma_coded_packet_true(p, cover, s);
    let eq = matrix::ev_equation(f, v, payload);
    assert(cover[cover.len() - 1] == id);
    session::lemma_ev_coefs_present(f, p, cover, cover.len(), cover.len() - 1);
    assert forall|i: u32| #[trigger] eq.at(i) != 0 && i != id implies d.known.contains_key(i) by {
        if !cover.contains(i) {
            session::lemma_ev_coefs_absent(f, v, v.ids.len(), i);
        } else {
            let j = cover.index_of(i);
            assert(p.window[j].0 < p.next_id);
        }
    }
    lemma_one_unknown(d, v, payload, p.told(cover), id);
    laws::lemma_coded_taken_wf(d, v, payload, p.told(cover));
    laws::lemma_coded_consistent(d, s, v, payload, p.told(cover));
    let solved = system::solved_part(d.rows_with_coded(v, payload));
    assert(!d.known.contains_key(id) && eq.at(id) != 0);
    assert forall|x: u32| #[trigger] t.known.contains_key(x) <==> x <= id by {
        assert(solved.contains_key(x) <==> x == id);
    }
    assert forall|x: u32| #[trigger] t.buffer.symbols.contains_key(x) <==> x == id by {
        assert(solved.contains_key(x) <==> x == id);
    }
    assert(t.win_min <= id) by {
        assert(p.window[0].0 < p.next_id);
    }
    lemma_settles(e, t, s);
    session::lemma_window_stays_true(p, s, Seq::empty());
}

/// A decoder that keeps up has no use for further coded packets, and is not
/// disturbed by them.
pub proof fn lemma_coded_idle(e: EncoderModel, d: DecoderModel, s: Symbols, cover: Seq<u32>)
    requires
        keeps_up(e, d, s),
        laws::all_sized(s, d.params.symbol_size as nat),
        session::covers(e, cover),
    ensures
        heard(e, d, cover).deliveries().len() == 0,
        keeps_up(e.after_coded(), settled(heard(e, d, cover)), s),
{
    let f = d.params.field;
    let v = e.vector(cover);
    let payload = e.payload(cover);
    let t = heard(e, d, cover);
    let eq = matrix::ev_equation(f, v, payload);
    session::lemma_coded_packet_true(e, cover, s);
    assert forall|i: u32| #[trigger] eq.at(i) != 0 implies d.known.contains_key(i) by {
        if !cover.contains(i) {
            session::lemma_ev_coefs_absent(f, v, v.ids.len(), i);
        } else {
            let j = cover.index_of(i);
            assert(e.ids().contains(cover[j]));
            let k = e.ids().index_of(i);
            assert(e.window[k].0 < e.next_id);
        }
    }
    lemma_one_unknown(d, v, payload, e.told(cover), 0);
    laws::lemma_coded_taken_wf(d, v, payload, e.told(cover));
    laws::lemma_coded_consistent(d, s, v, payload, e.told(cover));
    let solved = system::solved_part(d.rows_with_coded(v, payload));
    assert forall|x: u32| !#[trigger] solved.contains_key(x) by {
        if eq.at(0) != 0 {
            assert(d.known.contains_key(0));
        }
    }
    assert forall|x: u32| #[trigger] t.known.contains_key(x) <==> x < e.next_id by {
        assert(!solved.contains_key(x));
    }
    assert forall|x: u32| !#[trigger] t.buffer.symbols.contains_key(x) by {
        assert(!solved.contains_key(x));
    }
    assert(t.win_min <= e.next_id) by {
        if cover.len() > 0 {
            assert(e.ids().contains(cover[0]));
            let k = e.ids().index_of(cover[0]);
            assert(e.window[k].0 < e.next_id);
        }
    }
    assert(t.buffer.end() == t.buffer.next);
    laws::lemma_drained_wf(t);
    session::lemma_window_stays_true(e, s, Seq::empty());
}

// ── Whole streams ────────────────────────────────────────────────────────

/// The encoder after `n` further symbols of `s`; after the `i`-th of them come
/// `coded(i)` coded packets over the window.
pub open spec fn streamed(e: EncoderModel, s: Symbols, coded: spec_fn(nat) -> nat, n: nat) -> EncoderModel
    decreases n,
{
    if n == 0 {
        e
    } else {
        let m = streamed(e, s, coded, (n - 1) as nat);
        m.after_push(s(m.next_id)).after_coded_n(coded((n - 1) as nat))
    }
}

/// The decoder after `k` coded packets over the window of `e`.
pub open spec fn heard_all(e: EncoderModel, d: DecoderModel, k: nat) -> DecoderModel
    decreases k,
{
    if k == 0 {
        d
    } else {
        settled(heard(e.after_coded_n((k - 1) as nat), heard_all(e, d, (k - 1) as nat), e.ids()))
    }
}

/// The decoder that follows the stream.  Where `lost(i)` holds, the source packet of
/// the `i`-th symbol is lost; all coded packets arrive.
pub open spec fn followed(
    e: EncoderModel,
    d: DecoderModel,
    s: Symbols,
    coded: spec_fn(nat) -> nat,
    lost: spec_fn(nat) -> bool,
    n: nat,
) -> DecoderModel
    decreases n,
{
    if n == 0 {
        d
    } else {
        let i = (n - 1) as nat;
        let m = streamed(e, s, coded, i);
        let before = followed(e, d, s, coded, lost, i);
        let after = if lost(i) {
            before
        } else {
            settled(before.source_taken(m.next_id, s(m.next_id)))
        };
        heard_all(m.after_push(s(m.next_id)), after, coded(i))
    }
}

proof fn lemma_heard_all(e: EncoderModel, d: DecoderModel, s: Symbols, k: nat)
    requires
        keeps_up(e, d, s),
        laws::all_sized(s, d.params.symbol_size as nat),
    ensures
        keeps_up(e.after_coded_n(k), heard_all(e, d, k), s),
        heard_all(e, d, k).params == d.params,
    decreases k,
{
    if k > 0 {
        let j = (k - 1) as nat;
        lemma_heard_all(e, d, s, j);
        session::lemma_after_coded_n(e, j);
        session::lemma_covers(e.after_coded_n(j), 0, 0, Seq::empty());
        lemma_coded_idle(e.after_coded_n(j), heard_all(e, d, j), s, e.ids());
    }
}

proof fn lemma_heard_late(e: EncoderModel, d: DecoderModel, s: Symbols, k: nat)
    requires
        keeps_up(e, d, s),
        laws::all_sized(s, d.params.symbol_size as nat),
        e.refusal(s(e.next_id)) is None,
        k > 0,
    ensures
        ({
            let p = e.after_push(s(e.next_id));
            &&& keeps_up(p.after_coded_n(k), heard_all(p, d, k), s)
            &&& heard_all(p, d, k).params == d.params
        }),
    decreases k,
{
    let p = e.after_push(s(e.next_id));
    if k == 1 {
        lemma_coded_arrives(e, d, s);
        reveal_with_fuel(heard_all, 2);
        reveal_with_fuel(EncoderModel::after_coded_n, 2);
    } else {
        let j = (k - 1) as nat;
        lemma_heard_late(e, d, s, j);
        model::lemma_after_push_wf(e, s(e.next_id));
        session::lemma_after_coded_n(p, j);
        session::lemma_covers(p.after_coded_n(j), 0, 0, Seq::empty());
        lemma_coded_idle(p.after_coded_n(j), heard_all(p, d, j), s, p.ids());
    }
}

/// Every symbol of a stream is delivered, in order and unaltered, whatever source
/// packets are lost, where each lost one is followed by a coded packet.
pub proof fn lemma_stream_delivered(
    e: EncoderModel,
    d: DecoderModel,
    s: Symbols,
    coded: spec_fn(nat) -> nat,
    lost: spec_fn(nat) -> bool,
    n: nat,
)
    requires
        keeps_up(e, d, s),
        laws::all_sized(s, d.params.symbol_size as nat),
        e.next_id + n <= u32::MAX,
        e.params.backpressure == BackpressureMode::EvictOldest || e.window.len() + n
            <= e.params.window_capacity,
        forall|i: nat| #[trigger] lost(i) ==> coded(i) > 0,
    ensures
        keeps_up(streamed(e, s, coded, n), followed(e, d, s, coded, lost, n), s),
        streamed(e, s, coded, n).params == e.params,
        streamed(e, s, coded, n).window.len() <= e.window.len() + n,
        followed(e, d, s, coded, lost, n).params == d.params,
        followed(e, d, s, coded, lost, n).buffer.next == e.next_id + n,
    decreases n,
{
    if n > 0 {
        let i = (n - 1) as nat;
        lemma_stream_delivered(e, d, s, coded, lost, i);
        let m = streamed(e, s, coded, i);
        let before = followed(e, d, s, coded, lost, i);
        let p = m.after_push(s(m.next_id));
        model::lemma_after_push_wf(m, s(m.next_id));
        session::lemma_after_coded_n(p, coded(i));
        if lost(i) {
            lemma_heard_late(m, before, s, coded(i));
        } else {
            lemma_source_arrives(m, before, s);
            lemma_heard_all(p, settled(before.source_taken(m.next_id, s(m.next_id))), s, coded(i));
        }
    }
}

} // verus!
