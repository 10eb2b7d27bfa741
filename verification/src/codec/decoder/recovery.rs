//! When a decoder recovers a symbol.
//!
//! A decoder recovers a symbol as soon as the packets determine it.  One packet
//! that mentions a single unknown symbol does so, and any `k` packets of one
//! Cauchy generation determine any `k` missing symbols.
use vstd::prelude::*;

use crate::codec::decoder::elimination;
use crate::codec::decoder::laws;
use crate::codec::decoder::linear;
use crate::codec::decoder::linear::{Equation, Symbols};
use crate::codec::decoder::matrix;
use crate::codec::decoder::model::DecoderModel;
use crate::codec::decoder::system;
use crate::config::Field;
use crate::gf::algebra;
use crate::wire::ev::EvModel;

verus! {

/// The symbols `t` are possible by all that the decoder holds.
pub open spec fn possible(m: DecoderModel, t: Symbols) -> bool {
    elimination::possible(m.params.field, m.params.symbol_size as nat, m.rows, m.known, t)
}

/// Recovery is complete: a symbol that has the same value in all possible symbols
/// is known.
pub proof fn lemma_determined_is_known(m: DecoderModel, s: Symbols, id: u32)
    requires
        m.wf(),
        possible(m, s),
        forall|t: Symbols| #[trigger] possible(m, t) ==> t(id) == s(id),
    ensures
        m.known.contains_key(id),
        m.known[id] == s(id),
{
    let f = m.params.field;
    let size = m.params.symbol_size as nat;
    assert forall|t: Symbols| #[trigger]
        elimination::possible(f, size, m.rows, m.known, t) implies t(id) == s(id) by {
        assert(possible(m, t));
    }
    elimination::lemma_determined(f, size, m.rows, m.known, s, id);
}

/// What is possible after a coded packet was possible before it, and satisfies
/// the packet's equation.
pub proof fn lemma_possible_before(
    m: DecoderModel,
    ev: EvModel,
    payload: Seq<u8>,
    start: Option<u32>,
    s: Symbols,
    t: Symbols,
)
    requires
        m.wf(),
        payload.len() == m.params.symbol_size,
        m.rows.len() < m.params.max_matrix_rows,
        possible(m, s),
        matrix::ev_equation(m.params.field, ev, payload).holds(m.params.field, s),
        possible(m.coded_taken(ev, payload, start), t),
    ensures
        possible(m, t),
        matrix::ev_equation(m.params.field, ev, payload).holds(m.params.field, t),
{
    let f = m.params.field;
    let size = m.params.symbol_size as nat;
    let max = m.params.max_matrix_rows as nat;
    let eq = matrix::ev_equation(f, ev, payload);
    let rows = m.rows_with_coded(ev, payload);
    let out = m.coded_taken(ev, payload, start);
    matrix::lemma_ev_equation_wf(f, ev, payload);
    system::lemma_after_coded_reduced(f, m.rows, eq, m.known, max, size);
    system::lemma_solved_part_exact(f, rows, size, t);
    assert forall|id: u32| #[trigger] m.known.contains_key(id) implies t(id) == m.known[id] by {
        assert(out.known.contains_key(id));
    }
    let solved = system::solved_part(rows);
    assert forall|id: u32| #[trigger] solved.contains_key(id) implies t(id) == solved[id] by {
        assert(out.known.contains_key(id));
        // a symbol that was known is in no row
        system::lemma_after_coded_clear(f, m.rows, eq, m.known, max, size);
        if m.known.contains_key(id) {
            assert(rows.contains_key(id));
            assert(rows[id].at(id) == 0);
        }
    }
    system::lemma_after_coded_complete(f, m.rows, eq, m.known, max, size, t);
    assert(system::agrees(s, m.known) && system::rows_hold(f, m.rows, s) && eq.holds(f, s));
}

/// What the decoder holds is possible.
pub proof fn lemma_consistent_possible(m: DecoderModel, s: Symbols)
    requires
        m.consistent(s),
        laws::all_sized(s, m.params.symbol_size as nat),
    ensures
        possible(m, s),
{
}

/// The difference of two families of symbols.
pub open spec fn difference(s: Symbols, t: Symbols, size: nat) -> Symbols {
    |id: u32| Seq::new(size, |k: int| s(id)[k] ^ t(id)[k])
}

/// The difference of two solutions solves the homogeneous equation.
pub proof fn lemma_difference(f: Field, eq: Equation, s: Symbols, t: Symbols, size: nat, k: int)
    requires
        eq.wf(f, size),
        laws::all_sized(s, size),
        laws::all_sized(t, size),
        eq.holds(f, s),
        eq.holds(f, t),
        0 <= k < size,
    ensures
        linear::sum_upto(f, eq.coef, difference(s, t, size), k, linear::id_count()) == 0,
{
    let e = difference(s, t, size);
    let n = linear::id_count();
    assert forall|i: u32| algebra::in_field(f, #[trigger] (eq.coef)(i)) by {
        assert(algebra::in_field(f, eq.at(i)));
    }
    linear::lemma_sum_symbols(f, eq.coef, s, t, e, k, n);
    assert(linear::sum_upto(f, eq.coef, s, k, n) == eq.payload[k]);
    assert(linear::sum_upto(f, eq.coef, t, k, n) == eq.payload[k]);
    algebra::lemma_xor(eq.payload[k], 0, 0, 0);
}

/// Scaling by a non-zero element loses nothing.
pub proof fn lemma_scale_nonzero(f: Field, c: u8, b: u8)
    requires
        algebra::in_field(f, c),
        c != 0,
        algebra::scale_byte(f, c, b) == 0,
    ensures
        b == 0,
{
    let d = algebra::finv(f, c);
    algebra::lemma_finv(f, c);
    algebra::lemma_scale_byte(f, d, c, b, 0);
}

/// A coded packet recovers a symbol that is the only unknown one in it.
///
/// There has to be room for its equation.
pub proof fn lemma_single_erasure(
    m: DecoderModel,
    ev: EvModel,
    payload: Seq<u8>,
    start: Option<u32>,
    s: Symbols,
    id: u32,
)
    requires
        m.wf(),
        m.consistent(s),
        laws::all_sized(s, m.params.symbol_size as nat),
        payload.len() == m.params.symbol_size,
        m.rows.len() < m.params.max_matrix_rows,
        ({
            let eq = matrix::ev_equation(m.params.field, ev, payload);
            &&& eq.holds(m.params.field, s)
            &&& eq.at(id) != 0
            &&& forall|i: u32| #[trigger] eq.at(i) != 0 && i != id ==> m.known.contains_key(i)
        }),
    ensures
        m.coded_taken(ev, payload, start).known.contains_key(id),
        m.coded_taken(ev, payload, start).known[id] == s(id),
{
    let f = m.params.field;
    let size = m.params.symbol_size as nat;
    let eq = matrix::ev_equation(f, ev, payload);
    let out = m.coded_taken(ev, payload, start);
    matrix::lemma_ev_equation_wf(f, ev, payload);
    laws::lemma_coded_taken_wf(m, ev, payload, start);
    laws::lemma_coded_consistent(m, s, ev, payload, start);
    lemma_consistent_possible(m, s);
    lemma_consistent_possible(out, s);
    assert forall|t: Symbols| #[trigger] possible(out, t) implies t(id) == s(id) by {
        lemma_possible_before(m, ev, payload, start, s, t);
        let e = difference(s, t, size);
        let other: u32 = if id == 0 {
            1
        } else {
            0
        };
        assert forall|k: int| 0 <= k < size implies #[trigger] t(id)[k] == s(id)[k] by {
            lemma_difference(f, eq, s, t, size, k);
            assert forall|i: u32| i != id implies algebra::scale_byte(
                f,
                #[trigger] (eq.coef)(i),
                e(i)[k],
            ) == 0 by {
                assert(algebra::in_field(f, eq.at(i)));
                algebra::lemma_scale_byte(f, eq.at(i), eq.at(i), e(i)[k], 0);
                if eq.at(i) != 0 {
                    assert(m.known.contains_key(i));
                    algebra::lemma_xor(s(i)[k], s(i)[k], 0, 0);
                }
            }
            linear::lemma_sum_two(f, eq.coef, e, k, id, other, linear::id_count());
            let x = algebra::scale_byte(f, eq.at(id), e(id)[k]);
            assert((eq.coef)(other) == eq.at(other));
            assert(algebra::scale_byte(f, (eq.coef)(other), e(other)[k]) == 0);
            algebra::lemma_xor(x, 0, 0, 0);
            assert(algebra::in_field(f, eq.at(id)));
            lemma_scale_nonzero(f, eq.at(id), e(id)[k]);
            algebra::lemma_xor(s(id)[k], t(id)[k], 0, 0);
        }
        assert(s(id).len() == size && t(id).len() == size);
        assert(t(id) =~= s(id));
    }
    lemma_determined_is_known(out, s, id);
}

} // verus!
