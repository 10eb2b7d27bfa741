//! What holds of every decoder.
//!
//! The packets of a session speak of the same symbols.  Whatever arrives of them,
//! in whatever order, a decoder holds and delivers nothing but these symbols, in
//! ascending order, and recovers a symbol as soon as the packets determine it.
use vstd::prelude::*;

use crate::codec::decoder::buffer;
use crate::codec::decoder::linear::Symbols;
use crate::codec::decoder::matrix;
use crate::codec::decoder::model;
use crate::codec::decoder::model::{DecoderModel, EventModel};
use crate::codec::decoder::system;
use crate::config::Field;
use crate::policy::FeedbackPolicy;
use crate::wire::ev::EvModel;

verus! {

/// Every symbol has `size` bytes.
pub open spec fn all_sized(s: Symbols, size: nat) -> bool {
    forall|id: u32| #[trigger] s(id).len() == size
}

// ── Invariant ────────────────────────────────────────────────────────────

/// Symbols that rows determine have the right size.
pub proof fn lemma_solved_sized(f: Field, rows: system::Rows, size: nat)
    requires
        system::reduced(f, rows, size),
    ensures
        system::sized(system::solved_part(rows), size),
{
    assert forall|id: u32| #[trigger] system::solved_part(rows).contains_key(id) implies
        system::solved_part(rows)[id].len() == size by {
        assert(rows.contains_key(id));
    }
}

/// Learning symbols of the right size keeps the symbols in order.
proof fn lemma_learned_ok(m: DecoderModel, new: Map<u32, Seq<u8>>)
    requires
        m.symbols_ok(),
        new.dom().finite(),
        system::sized(new, m.params.symbol_size as nat),
    ensures
        m.learned(new).symbols_ok(),
{
    let l = m.learned(new);
    assert(l.buffer.symbols.dom().subset_of(m.buffer.symbols.dom().union(new.dom())));
    vstd::set_lib::lemma_len_subset(
        l.buffer.symbols.dom(),
        m.buffer.symbols.dom().union(new.dom()),
    );
    assert forall|id: u32| #[trigger] l.known.contains_key(id) implies l.known[id].len()
        == m.params.symbol_size by {
        if !m.known.contains_key(id) {
            assert(new.contains_key(id));
        }
    }
    assert forall|id: u32| #[trigger] l.buffer.symbols.contains_key(id) implies
        l.buffer.symbols[id].len() == m.params.symbol_size by {
        if !m.buffer.symbols.contains_key(id) {
            assert(new.contains_key(id));
        }
    }
}

proof fn lemma_solved_finite(rows: system::Rows)
    requires
        rows.dom().finite(),
    ensures
        system::solved_part(rows).dom().finite(),
{
    assert(system::solved_part(rows).dom().subset_of(rows.dom()));
    vstd::set_lib::lemma_len_subset(system::solved_part(rows).dom(), rows.dom());
}

/// A source packet keeps the invariant.
pub proof fn lemma_source_taken_wf(m: DecoderModel, id: u32, data: Seq<u8>)
    requires
        m.wf(),
        data.len() == m.params.symbol_size,
    ensures
        m.source_taken(id, data).wf(),
{
    let f = m.params.field;
    let size = m.params.symbol_size as nat;
    let rows = m.rows_with_source(id, data);
    let one = Map::empty().insert(id, data);
    let solved = system::solved_part(rows);
    let out = m.source_taken(id, data);
    system::lemma_after_source_reduced(f, m.rows, id, data, size);
    system::lemma_after_source_clear(f, m.rows, id, data, m.known, size);
    system::lemma_unsolved_part(f, rows, size);
    system::lemma_solved_part_clear(f, rows, size);
    lemma_solved_sized(f, rows, size);
    lemma_solved_finite(rows);
    let m1 = DecoderModel {
        loss: m.loss.after_source(id),
        packets: model::sum64(m.packets, 1),
        rows: system::unsolved_part(rows),
        ..m
    };
    lemma_learned_ok(m1, one);
    lemma_learned_ok(m1.learned(one), solved);
    assert forall|p: u32, x: u32|
        #[trigger] out.rows.contains_key(p) && #[trigger] out.known.contains_key(
            x,
        ) implies out.rows[p].at(x) == 0 by {
        assert(rows.contains_key(p));
        if !m.known.contains_key(x) && x != id {
            assert(solved.contains_key(x));
        }
    }
}

/// A coded packet keeps the invariant.
pub proof fn lemma_coded_taken_wf(
    m: DecoderModel,
    ev: EvModel,
    payload: Seq<u8>,
    start: Option<u32>,
)
    requires
        m.wf(),
        payload.len() == m.params.symbol_size,
    ensures
        m.coded_taken(ev, payload, start).wf(),
{
    let f = m.params.field;
    let size = m.params.symbol_size as nat;
    let max = m.params.max_matrix_rows as nat;
    let eq = matrix::ev_equation(f, ev, payload);
    let rows = m.rows_with_coded(ev, payload);
    let solved = system::solved_part(rows);
    let out = m.coded_taken(ev, payload, start);
    matrix::lemma_ev_equation_wf(f, ev, payload);
    system::lemma_after_coded_reduced(f, m.rows, eq, m.known, max, size);
    system::lemma_after_coded_clear(f, m.rows, eq, m.known, max, size);
    system::lemma_unsolved_part(f, rows, size);
    system::lemma_solved_part_clear(f, rows, size);
    lemma_solved_sized(f, rows, size);
    lemma_solved_finite(rows);
    let m1 = DecoderModel { rows: system::unsolved_part(rows), ..m.coded_noted(start) };
    lemma_learned_ok(m1, solved);
    assert forall|p: u32, x: u32|
        #[trigger] out.rows.contains_key(p) && #[trigger] out.known.contains_key(
            x,
        ) implies out.rows[p].at(x) == 0 by {
        assert(rows.contains_key(p));
        if !m.known.contains_key(x) {
            assert(solved.contains_key(x));
        }
    }
}

// ── Soundness ────────────────────────────────────────────────────────────

proof fn lemma_learned_consistent(m: DecoderModel, new: Map<u32, Seq<u8>>, s: Symbols)
    requires
        m.consistent(s),
        system::agrees(s, new),
    ensures
        m.learned(new).consistent(s),
{
    let l = m.learned(new);
    assert forall|id: u32| #[trigger] l.known.contains_key(id) implies s(id) == l.known[id] by {
        if !m.known.contains_key(id) {
            assert(new.contains_key(id));
        }
    }
    assert forall|id: u32| #[trigger] l.buffer.symbols.contains_key(id) implies s(id)
        == l.buffer.symbols[id] by {
        if !m.buffer.symbols.contains_key(id) {
            assert(new.contains_key(id));
        }
    }
}

/// A true source packet keeps everything true that the decoder holds.
pub proof fn lemma_source_consistent(m: DecoderModel, s: Symbols, id: u32)
    requires
        m.wf(),
        m.consistent(s),
        all_sized(s, m.params.symbol_size as nat),
    ensures
        m.source_taken(id, s(id)).consistent(s),
{
    let f = m.params.field;
    let size = m.params.symbol_size as nat;
    let data = s(id);
    let rows = m.rows_with_source(id, data);
    let one = Map::empty().insert(id, data);
    system::lemma_after_source_reduced(f, m.rows, id, data, size);
    system::lemma_after_source_exact(f, m.rows, id, data, size, s);
    system::lemma_solved_part_exact(f, rows, size, s);
    let m1 = DecoderModel {
        loss: m.loss.after_source(id),
        packets: model::sum64(m.packets, 1),
        rows: system::unsolved_part(rows),
        ..m
    };
    lemma_learned_consistent(m1, one, s);
    lemma_learned_consistent(m1.learned(one), system::solved_part(rows), s);
}

/// A true coded packet keeps everything true that the decoder holds.
pub proof fn lemma_coded_consistent(
    m: DecoderModel,
    s: Symbols,
    ev: EvModel,
    payload: Seq<u8>,
    start: Option<u32>,
)
    requires
        m.wf(),
        m.consistent(s),
        all_sized(s, m.params.symbol_size as nat),
        payload.len() == m.params.symbol_size,
        matrix::ev_equation(m.params.field, ev, payload).holds(m.params.field, s),
    ensures
        m.coded_taken(ev, payload, start).consistent(s),
{
    let f = m.params.field;
    let size = m.params.symbol_size as nat;
    let max = m.params.max_matrix_rows as nat;
    let eq = matrix::ev_equation(f, ev, payload);
    let rows = m.rows_with_coded(ev, payload);
    matrix::lemma_ev_equation_wf(f, ev, payload);
    system::lemma_after_coded_reduced(f, m.rows, eq, m.known, max, size);
    system::lemma_after_coded_sound(f, m.rows, eq, m.known, max, size, s);
    system::lemma_solved_part_exact(f, rows, size, s);
    let m1 = DecoderModel { rows: system::unsolved_part(rows), ..m.coded_noted(start) };
    lemma_learned_consistent(m1, system::solved_part(rows), s);
}

/// A decoder that holds nothing but true symbols delivers nothing but true
/// symbols, and goes on holding nothing else.
pub proof fn lemma_delivery_true<P: FeedbackPolicy>(
    m: DecoderModel,
    policy: P,
    events: Seq<EventModel>,
    post: DecoderModel,
    after: P,
    s: Symbols,
)
    requires
        m.wf(),
        m.consistent(s),
        model::tells(m, policy, events, post, after),
    ensures
        post.consistent(s),
        forall|i: int|
            0 <= i < events.len() ==> match #[trigger] events[i] {
                EventModel::SourceReady { id, data } => data == s(id),
                _ => true,
            },
{
    buffer::lemma_run_end(m.buffer.symbols, m.buffer.next);
    let due = choose|due: Option<Seq<u8>>|
        {
            &&& events == #[trigger] m.events(due)
            &&& policy.may_decide(m.drained().state(), due is Some, after)
            &&& due is Some ==> m.drained().is_feedback(due->0)
            &&& post == m.drained().gap_passed()
        };
    let n = m.deliveries().len();
    assert forall|i: int| 0 <= i < events.len() implies match #[trigger] events[i] {
        EventModel::SourceReady { id, data } => data == s(id),
        _ => true,
    } by {
        if i < n {
            assert(events[i] == m.deliveries()[i]);
            assert(m.buffer.symbols.contains_key((m.buffer.next + i) as u32));
        }
    }
    assert forall|id: u32| #[trigger] post.buffer.symbols.contains_key(id) implies s(id)
        == post.buffer.symbols[id] by {
        assert(m.buffer.symbols.contains_key(id));
    }
}

// ── Order ────────────────────────────────────────────────────────────────

/// Delivery is in order and without gaps: the symbols delivered after a packet
/// carry consecutive ids, starting from the one that was due.  No id is delivered
/// again, unless the id space wraps around.
pub proof fn lemma_delivery_in_order<P: FeedbackPolicy>(
    m: DecoderModel,
    policy: P,
    events: Seq<EventModel>,
    post: DecoderModel,
    after: P,
)
    requires
        m.wf(),
        model::tells(m, policy, events, post, after),
    ensures
        ({
            let n = m.deliveries().len() as int;
            &&& n <= events.len()
            &&& m.buffer.next + n <= u32::MAX + 1
            &&& forall|i: int|
                0 <= i < n ==> (#[trigger] events[i] matches EventModel::SourceReady { id, data }
                    && id == m.buffer.next + i)
            &&& forall|i: int|
                n <= i < events.len() ==> !(#[trigger] events[i] is SourceReady)
            &&& m.buffer.next + n <= u32::MAX ==> post.buffer.next >= m.buffer.next + n
        }),
        post.wf(),
{
    buffer::lemma_run_end(m.buffer.symbols, m.buffer.next);
    buffer::lemma_drained(m.buffer);
    let due = choose|due: Option<Seq<u8>>|
        {
            &&& events == #[trigger] m.events(due)
            &&& policy.may_decide(m.drained().state(), due is Some, after)
            &&& due is Some ==> m.drained().is_feedback(due->0)
            &&& post == m.drained().gap_passed()
        };
    let n = m.deliveries().len() as int;
    assert forall|i: int| 0 <= i < n implies (#[trigger] events[i] matches EventModel::SourceReady {
        id,
        data,
    } && id == m.buffer.next + i) by {
        assert(events[i] == m.deliveries()[i]);
    }
    lemma_drained_wf(m);
}

/// Delivery and the passing of a gap keep the invariant.
pub proof fn lemma_drained_wf(m: DecoderModel)
    requires
        m.wf(),
    ensures
        m.drained().wf(),
        m.drained().gap_passed().wf(),
{
    buffer::lemma_drained(m.buffer);
    let d = m.drained();
    assert forall|id: u32| #[trigger] d.buffer.symbols.contains_key(id) implies
        d.buffer.symbols[id].len() == m.params.symbol_size by {
        assert(m.buffer.symbols.contains_key(id));
    }
    let g = d.gap_passed();
    assert forall|id: u32| #[trigger] g.buffer.symbols.contains_key(id) implies
        g.buffer.symbols[id].len() == m.params.symbol_size by {
        assert(d.buffer.symbols.contains_key(id));
    }
    assert(g.buffer.symbols.dom().subset_of(d.buffer.symbols.dom()));
    vstd::set_lib::lemma_len_subset(g.buffer.symbols.dom(), d.buffer.symbols.dom());
}

/// Delivery goes as far as it can: afterwards the symbol that is due is not there.
pub proof fn lemma_delivery_complete(m: DecoderModel)
    requires
        m.wf(),
    ensures
        !m.drained().buffer.symbols.contains_key(m.drained().buffer.next),
{
    buffer::lemma_drained(m.buffer);
    buffer::lemma_run_end(m.drained().buffer.symbols, m.drained().buffer.next);
}

/// Every known symbol that has not been delivered waits for delivery.
pub open spec fn known_waits(m: DecoderModel) -> bool {
    forall|id: u32| #[trigger]
        m.known.contains_key(id) && id >= m.buffer.next ==> m.buffer.symbols.contains_key(id)
}

/// Known symbols go on waiting until they are delivered or passed, as long as the
/// id space does not wrap around.
pub proof fn lemma_known_waits(
    m: DecoderModel,
    id: u32,
    data: Seq<u8>,
    ev: EvModel,
    payload: Seq<u8>,
    start: Option<u32>,
)
    requires
        m.wf(),
        known_waits(m),
    ensures
        known_waits(m.source_taken(id, data)),
        known_waits(m.coded_taken(ev, payload, start)),
        m.buffer.end() <= u32::MAX ==> known_waits(m.drained()) && known_waits(
            m.drained().gap_passed(),
        ),
        known_waits(DecoderModel::initial(m.params)),
{
    let a = m.source_taken(id, data);
    assert forall|x: u32| #[trigger] a.known.contains_key(x) && x >= a.buffer.next implies
        a.buffer.symbols.contains_key(x) by {
        if m.known.contains_key(x) {
            assert(m.buffer.symbols.contains_key(x));
        }
    }
    let c = m.coded_taken(ev, payload, start);
    assert forall|x: u32| #[trigger] c.known.contains_key(x) && x >= c.buffer.next implies
        c.buffer.symbols.contains_key(x) by {
        if m.known.contains_key(x) {
            assert(m.buffer.symbols.contains_key(x));
        }
    }
    buffer::lemma_run_end(m.buffer.symbols, m.buffer.next);
    if m.buffer.end() <= u32::MAX {
        let d = m.drained();
        assert forall|x: u32| #[trigger] d.known.contains_key(x) && x >= d.buffer.next implies
            d.buffer.symbols.contains_key(x) by {
            assert(m.known.contains_key(x));
        }
    }
}

/// A symbol is delivered as soon as it and all symbols that are due before it are
/// known.
pub proof fn lemma_known_delivered(m: DecoderModel, id: u32)
    requires
        m.wf(),
        known_waits(m),
        id >= m.buffer.next,
        forall|x: u32| m.buffer.next <= x <= id ==> #[trigger] m.known.contains_key(x),
    ensures
        id - m.buffer.next < m.deliveries().len(),
        m.deliveries()[id - m.buffer.next] == (EventModel::SourceReady {
            id,
            data: m.buffer.symbols[id],
        }),
{
    buffer::lemma_run_end(m.buffer.symbols, m.buffer.next);
    let end = m.buffer.end();
    if end <= id {
        assert(m.known.contains_key(end as u32));
        assert(m.buffer.symbols.contains_key(end as u32));
    }
}

} // verus!
