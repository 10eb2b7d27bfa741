//! Systems of equations in reduced row-echelon form, as mathematics.
//!
//! A system maps the pivot of every row to the row.
use vstd::prelude::*;

use crate::codec::decoder::linear;
use crate::codec::decoder::linear::{Equation, Symbols};
use crate::config::Field;
use crate::gf::algebra;

verus! {

/// Rows of equations, keyed by their pivots.
pub type Rows = Map<u32, Equation>;

/// The symbols `s` satisfy every row.
pub open spec fn rows_hold(f: Field, rows: Rows, s: Symbols) -> bool {
    forall|p: u32| #[trigger] rows.contains_key(p) ==> rows[p].holds(f, s)
}

/// The symbols `s` have the values that are known.
pub open spec fn agrees(s: Symbols, known: Map<u32, Seq<u8>>) -> bool {
    forall|id: u32| #[trigger] known.contains_key(id) ==> s(id) == known[id]
}

/// Every value that is known has `size` bytes.
pub open spec fn sized(known: Map<u32, Seq<u8>>, size: nat) -> bool {
    forall|id: u32| #[trigger] known.contains_key(id) ==> known[id].len() == size
}

/// Reduced row-echelon form: every row is keyed by its smallest id, has the
/// coefficient one there, and mentions no other row's pivot.
pub open spec fn reduced(f: Field, rows: Rows, size: nat) -> bool {
    &&& rows.dom().finite()
    &&& forall|p: u32|
        #[trigger] rows.contains_key(p) ==> rows[p].wf(f, size) && rows[p].is_pivot(p)
            && rows[p].at(p) == 1
    &&& forall|p: u32, q: u32|
        #[trigger] rows.contains_key(p) && #[trigger] rows.contains_key(q) && p != q
            ==> rows[p].at(q) == 0
}

/// No row determines a symbol by itself.
pub open spec fn unsolved(rows: Rows) -> bool {
    forall|p: u32| #[trigger] rows.contains_key(p) ==> !rows[p].is_single(p)
}

/// No row mentions a symbol that is known.
pub open spec fn clear_of(rows: Rows, known: Map<u32, Seq<u8>>) -> bool {
    forall|p: u32, id: u32|
        #[trigger] rows.contains_key(p) && #[trigger] known.contains_key(id) ==> rows[p].at(id) == 0
}

/// `eq` with the known values below `n` put in, in ascending order.
pub open spec fn known_put_in(f: Field, eq: Equation, known: Map<u32, Seq<u8>>, n: nat) -> Equation
    decreases n,
{
    if n == 0 {
        eq
    } else {
        let e = known_put_in(f, eq, known, (n - 1) as nat);
        let id = (n - 1) as u32;
        if known.contains_key(id) {
            e.substituted(f, id, known[id])
        } else {
            e
        }
    }
}

/// `eq` with the pivots below `n` eliminated, in ascending order.
pub open spec fn eliminated(f: Field, eq: Equation, rows: Rows, n: nat) -> Equation
    decreases n,
{
    if n == 0 {
        eq
    } else {
        let e = eliminated(f, eq, rows, (n - 1) as nat);
        let id = (n - 1) as u32;
        if rows.contains_key(id) {
            e.plus_scaled(f, e.at(id), rows[id])
        } else {
            e
        }
    }
}

/// The rows with the pivot `p` of the row `new` eliminated.
pub open spec fn back_substituted(f: Field, rows: Rows, p: u32, new: Equation) -> Rows {
    rows.map_values(|r: Equation| r.plus_scaled(f, r.at(p), new))
}

/// The rows with a further one, after normalisation.
pub open spec fn with_row(f: Field, rows: Rows, eq: Equation) -> Rows {
    let new = eq.normalized(f);
    back_substituted(f, rows, new.pivot(), new).insert(new.pivot(), new)
}

/// `k` is the smallest pivot.
pub open spec fn is_first(rows: Rows, k: u32) -> bool {
    &&& rows.contains_key(k)
    &&& forall|p: u32| #[trigger] rows.contains_key(p) ==> k <= p
}

/// The rows without the one of the smallest pivot, where there are `max` or more.
pub open spec fn evicted(rows: Rows, max: nat) -> Rows {
    if rows.len() >= max && rows.len() > 0 {
        rows.remove(choose|k: u32| is_first(rows, k))
    } else {
        rows
    }
}

/// The rows after a coded equation: the known values are put in, the pivots
/// eliminated, and what is left, if anything, becomes a row.
pub open spec fn after_coded(
    f: Field,
    rows: Rows,
    eq: Equation,
    known: Map<u32, Seq<u8>>,
    max: nat,
) -> Rows {
    let e = eliminated(
        f,
        known_put_in(f, eq, known, linear::id_count()),
        rows,
        linear::id_count(),
    );
    if e.is_zero() {
        rows
    } else {
        with_row(f, evicted(rows, max), e)
    }
}

/// The rows with the value of one symbol put in.
pub open spec fn put_in(f: Field, rows: Rows, id: u32, data: Seq<u8>) -> Rows {
    rows.map_values(|r: Equation| r.substituted(f, id, data))
}

/// The rows after a source symbol: its value is put in, and the row that loses
/// its pivot thereby finds its place anew.
pub open spec fn after_source(f: Field, rows: Rows, id: u32, data: Seq<u8>) -> Rows {
    let rs = put_in(f, rows, id, data);
    if rows.contains_key(id) {
        if rs[id].is_zero() {
            rs.remove(id)
        } else {
            with_row(f, rs.remove(id), rs[id])
        }
    } else {
        rs
    }
}

/// The row of `p` determines the symbol `p`.
pub open spec fn solves(rows: Rows, p: u32) -> bool {
    rows.contains_key(p) && rows[p].is_single(p)
}

/// The rows that determine no symbol.
pub open spec fn unsolved_part(rows: Rows) -> Rows {
    Map::new(|p: u32| rows.contains_key(p) && !rows[p].is_single(p), |p: u32| rows[p])
}

/// The symbols that are determined by rows.
pub open spec fn solved_part(rows: Rows) -> Map<u32, Seq<u8>> {
    Map::new(|p: u32| solves(rows, p), |p: u32| rows[p].payload)
}

// ── Putting in and eliminating ───────────────────────────────────────────

/// Ids that are not known in between do not matter.
pub proof fn lemma_known_gap(f: Field, eq: Equation, known: Map<u32, Seq<u8>>, n: nat, m: nat)
    requires
        n <= m <= linear::id_count(),
        forall|id: u32| n <= id < m ==> !#[trigger] known.contains_key(id),
    ensures
        known_put_in(f, eq, known, m) == known_put_in(f, eq, known, n),
    decreases m - n,
{
    if n < m {
        assert((m - 1) as u32 as nat == m - 1);
        lemma_known_gap(f, eq, known, n, (m - 1) as nat);
    }
}

/// Ids without a row in between do not matter.
pub proof fn lemma_eliminated_gap(f: Field, eq: Equation, rows: Rows, n: nat, m: nat)
    requires
        n <= m <= linear::id_count(),
        forall|id: u32| n <= id < m ==> !#[trigger] rows.contains_key(id),
    ensures
        eliminated(f, eq, rows, m) == eliminated(f, eq, rows, n),
    decreases m - n,
{
    if n < m {
        assert((m - 1) as u32 as nat == m - 1);
        lemma_eliminated_gap(f, eq, rows, n, (m - 1) as nat);
    }
}

/// Putting in known values removes the known ids, and no others.
pub proof fn lemma_known_put_in(
    f: Field,
    eq: Equation,
    known: Map<u32, Seq<u8>>,
    n: nat,
    size: nat,
)
    requires
        eq.wf(f, size),
        n <= linear::id_count(),
    ensures
        known_put_in(f, eq, known, n).wf(f, size),
        forall|id: u32|
            #[trigger] known_put_in(f, eq, known, n).at(id) == if known.contains_key(id) && id
                < n {
                0
            } else {
                eq.at(id)
            },
    decreases n,
{
    if n > 0 {
        let m = (n - 1) as nat;
        let id = m as u32;
        assert(id as nat == m);
        lemma_known_put_in(f, eq, known, m, size);
        if known.contains_key(id) {
            linear::lemma_substituted_wf(
                f,
                known_put_in(f, eq, known, m),
                id,
                known[id],
                size,
            );
            assert forall|i: u32|
                #[trigger] known_put_in(f, eq, known, n).at(i) == if known.contains_key(i) && i
                    < n {
                    0
                } else {
                    eq.at(i)
                } by {
                let _ = known_put_in(f, eq, known, m).at(i);
            }
        }
    }
}

/// Putting in true values changes nothing about whether the symbols satisfy the
/// equation.
pub proof fn lemma_known_put_in_holds(
    f: Field,
    eq: Equation,
    known: Map<u32, Seq<u8>>,
    n: nat,
    size: nat,
    s: Symbols,
)
    requires
        eq.wf(f, size),
        n <= linear::id_count(),
        sized(known, size),
        agrees(s, known),
    ensures
        known_put_in(f, eq, known, n).holds(f, s) <==> eq.holds(f, s),
    decreases n,
{
    if n > 0 {
        let m = (n - 1) as nat;
        let id = m as u32;
        lemma_known_put_in_holds(f, eq, known, m, size, s);
        lemma_known_put_in(f, eq, known, m, size);
        if known.contains_key(id) {
            linear::lemma_substituted_holds(
                f,
                known_put_in(f, eq, known, m),
                id,
                known[id],
                s,
                size,
            );
        }
    }
}

/// Elimination removes the pivots, and brings back no id that neither the
/// equation nor a row mentions.
pub proof fn lemma_eliminated(f: Field, eq: Equation, rows: Rows, n: nat, size: nat)
    requires
        eq.wf(f, size),
        reduced(f, rows, size),
        n <= linear::id_count(),
    ensures
        eliminated(f, eq, rows, n).wf(f, size),
        forall|q: u32|
            #[trigger] rows.contains_key(q) && q < n ==> eliminated(f, eq, rows, n).at(q) == 0,
        forall|q: u32|
            #[trigger] rows.contains_key(q) && q >= n ==> eliminated(f, eq, rows, n).at(q)
                == eq.at(q),
    decreases n,
{
    if n > 0 {
        let m = (n - 1) as nat;
        let id = m as u32;
        assert(id as nat == m);
        lemma_eliminated(f, eq, rows, m, size);
        let e = eliminated(f, eq, rows, m);
        if rows.contains_key(id) {
            assert(algebra::in_field(f, e.at(id)));
            linear::lemma_plus_scaled_wf(f, e, e.at(id), rows[id], size);
            assert forall|q: u32| #[trigger] rows.contains_key(q) implies eliminated(
                f,
                eq,
                rows,
                n,
            ).at(q) == if q < n { 0 } else { eq.at(q) } by {
                assert(algebra::in_field(f, e.at(q)));
                algebra::lemma_fmul_units(f, e.at(id));
                algebra::lemma_xor(e.at(q), e.at(q), 0, 0);
                if q != id {
                    assert(rows[id].at(q) == 0);
                }
            }
        }
    }
}

/// Elimination through satisfied rows changes nothing about whether the symbols
/// satisfy the equation.
pub proof fn lemma_eliminated_holds(
    f: Field,
    eq: Equation,
    rows: Rows,
    n: nat,
    size: nat,
    s: Symbols,
)
    requires
        eq.wf(f, size),
        reduced(f, rows, size),
        n <= linear::id_count(),
        rows_hold(f, rows, s),
    ensures
        eliminated(f, eq, rows, n).holds(f, s) <==> eq.holds(f, s),
    decreases n,
{
    if n > 0 {
        let m = (n - 1) as nat;
        let id = m as u32;
        lemma_eliminated_holds(f, eq, rows, m, size, s);
        lemma_eliminated(f, eq, rows, m, size);
        let e = eliminated(f, eq, rows, m);
        if rows.contains_key(id) {
            assert(algebra::in_field(f, e.at(id)));
            linear::lemma_plus_scaled_holds(f, e, e.at(id), rows[id], s, size);
        }
    }
}

// ── A further row ────────────────────────────────────────────────────────

/// Normalisation keeps the ids, makes the pivot's coefficient one, and changes
/// nothing about which symbols satisfy the equation.
pub proof fn lemma_normalized(f: Field, eq: Equation, size: nat)
    requires
        eq.wf(f, size),
        !eq.is_zero(),
    ensures
        eq.is_pivot(eq.pivot()),
        eq.normalized(f).wf(f, size),
        eq.normalized(f).is_pivot(eq.pivot()),
        eq.normalized(f).pivot() == eq.pivot(),
        eq.normalized(f).at(eq.pivot()) == 1,
        forall|id: u32| #[trigger] eq.normalized(f).at(id) == 0 <==> eq.at(id) == 0,
        forall|s: Symbols| #[trigger] eq.normalized(f).holds(f, s) <==> eq.holds(f, s),
{
    let w = choose|id: u32| #[trigger] eq.at(id) != 0;
    linear::lemma_pivot(eq, w);
    let p = eq.pivot();
    let c = eq.at(p);
    assert(algebra::in_field(f, c));
    let inv = algebra::finv(f, c);
    algebra::lemma_finv(f, c);
    let r = eq.normalized(f);
    assert forall|s: Symbols| #[trigger] r.holds(f, s) <==> eq.holds(f, s) by {
        linear::lemma_scaled_holds(f, eq, inv, s, size);
    }
    linear::lemma_scaled_holds(f, eq, inv, |id: u32| Seq::empty(), size);
    assert(r == eq.scaled(f, inv));
    assert(r.at(p) == 1);
    assert forall|id: u32| id < p implies #[trigger] r.at(id) == 0 by {
        assert(eq.at(id) == 0);
    }
    assert(r.is_pivot(p));
    linear::lemma_pivot_unique(r, p, r.pivot());
}

/// A row that mentions no pivot can join a reduced system.
pub proof fn lemma_with_row_reduced(f: Field, rows: Rows, eq: Equation, size: nat)
    requires
        reduced(f, rows, size),
        eq.wf(f, size),
        !eq.is_zero(),
        forall|q: u32| #[trigger] rows.contains_key(q) ==> eq.at(q) == 0,
    ensures
        reduced(f, with_row(f, rows, eq), size),
        !rows.contains_key(eq.pivot()),
        with_row(f, rows, eq).dom() == rows.dom().insert(eq.pivot()),
{
    lemma_normalized(f, eq, size);
    let new = eq.normalized(f);
    let p = eq.pivot();
    let bs = back_substituted(f, rows, p, new);
    let out = with_row(f, rows, eq);
    assert(eq.at(p) != 0);
    assert(!rows.contains_key(p));
    assert(bs.dom() =~= rows.dom());
    assert(out.dom() =~= rows.dom().insert(p));
    assert forall|q: u32| #[trigger] rows.contains_key(q) implies {
        &&& out.contains_key(q)
        &&& out[q] == rows[q].plus_scaled(f, rows[q].at(p), new)
        &&& out[q].wf(f, size)
        &&& out[q].is_pivot(q)
        &&& out[q].at(q) == 1
        &&& out[q].at(p) == 0
        &&& forall|t: u32| #[trigger] rows.contains_key(t) && t != q ==> out[q].at(t) == 0
    } by {
        let r = rows[q];
        let c = r.at(p);
        assert(algebra::in_field(f, c));
        linear::lemma_plus_scaled_wf(f, r, c, new, size);
        algebra::lemma_fmul_units(f, c);
        algebra::lemma_xor(c, c, 0, 0);
        algebra::lemma_xor(1, 0, 0, 0);
        algebra::lemma_xor(0, 0, 0, 0);
        assert(eq.at(q) == 0);
        assert(new.at(q) == 0);
        assert forall|id: u32| id < q implies #[trigger] out[q].at(id) == 0 by {
            assert(r.at(id) == 0);
            assert(algebra::in_field(f, new.at(id)));
            algebra::lemma_fmul_units(f, new.at(id));
            if id < p {
                assert(new.at(id) == 0);
            } else {
                // p <= id < q, so the row does not mention p
                assert(p < q);
                assert(r.at(p) == 0);
            }
        }
        assert forall|t: u32| #[trigger] rows.contains_key(t) && t != q implies out[q].at(t)
            == 0 by {
            assert(r.at(t) == 0);
            assert(eq.at(t) == 0);
            assert(new.at(t) == 0);
        }
    }
    assert forall|q: u32| #[trigger] out.contains_key(q) implies out[q].wf(f, size)
        && out[q].is_pivot(q) && out[q].at(q) == 1 by {
        if q != p {
            assert(rows.contains_key(q));
        }
    }
    assert forall|q: u32, t: u32|
        #[trigger] out.contains_key(q) && #[trigger] out.contains_key(t) && q
            != t implies out[q].at(t) == 0 by {
        if q != p {
            assert(rows.contains_key(q));
            if t != p {
                assert(rows.contains_key(t));
            }
        } else {
            assert(rows.contains_key(t));
            assert(eq.at(t) == 0);
            assert(new.at(t) == 0);
        }
    }
}

/// A further row makes the system say what the rows and the new equation say.
pub proof fn lemma_with_row_holds(f: Field, rows: Rows, eq: Equation, size: nat, s: Symbols)
    requires
        reduced(f, rows, size),
        eq.wf(f, size),
        !eq.is_zero(),
        forall|q: u32| #[trigger] rows.contains_key(q) ==> eq.at(q) == 0,
    ensures
        rows_hold(f, with_row(f, rows, eq), s) <==> rows_hold(f, rows, s) && eq.holds(f, s),
{
    lemma_normalized(f, eq, size);
    lemma_with_row_reduced(f, rows, eq, size);
    let new = eq.normalized(f);
    let p = eq.pivot();
    let out = with_row(f, rows, eq);
    assert(new.holds(f, s) <==> eq.holds(f, s));
    assert(out.contains_key(p) && out[p] == new);
    assert forall|q: u32| #[trigger] rows.contains_key(q) && new.holds(f, s) implies {
        &&& out.contains_key(q)
        &&& (out[q].holds(f, s) <==> rows[q].holds(f, s))
    } by {
        assert(algebra::in_field(f, rows[q].at(p)));
        assert(out[q] == rows[q].plus_scaled(f, rows[q].at(p), new));
        linear::lemma_plus_scaled_holds(f, rows[q], rows[q].at(p), new, s, size);
    }
    if rows_hold(f, out, s) {
        assert(new.holds(f, s));
        assert forall|q: u32| #[trigger] rows.contains_key(q) implies rows[q].holds(f, s) by {
            assert(out.contains_key(q));
        }
    }
    if rows_hold(f, rows, s) && eq.holds(f, s) {
        assert forall|q: u32| #[trigger] out.contains_key(q) implies out[q].holds(f, s) by {
            if q != p {
                assert(rows.contains_key(q));
            }
        }
    }
}

/// A non-empty system has a smallest pivot.
pub proof fn lemma_first(rows: Rows, p: u32)
    requires
        rows.contains_key(p),
    ensures
        is_first(rows, choose|k: u32| is_first(rows, k)),
    decreases p,
{
    if !is_first(rows, p) {
        let q = choose|q: u32| #[trigger] rows.contains_key(q) && q < p;
        lemma_first(rows, q);
    }
}

/// Fewer rows of a reduced system are a reduced system.
pub proof fn lemma_reduced_sub(f: Field, rows: Rows, sub: Rows, size: nat)
    requires
        reduced(f, rows, size),
        sub.dom().subset_of(rows.dom()),
        forall|p: u32| #[trigger] sub.contains_key(p) ==> sub[p] == rows[p],
    ensures
        reduced(f, sub, size),
{
    vstd::set_lib::lemma_set_subset_finite(rows.dom(), sub.dom());
    assert forall|p: u32| #[trigger] sub.contains_key(p) implies rows.contains_key(p) by {
        assert(sub.dom().contains(p));
        assert(rows.dom().contains(p));
    }
}

/// Eviction leaves a reduced system.
pub proof fn lemma_evicted_reduced(f: Field, rows: Rows, max: nat, size: nat)
    requires
        reduced(f, rows, size),
    ensures
        reduced(f, evicted(rows, max), size),
        forall|p: u32| #[trigger] evicted(rows, max).contains_key(p) ==> rows.contains_key(p)
            && evicted(rows, max)[p] == rows[p],
{
    lemma_reduced_sub(f, rows, evicted(rows, max), size);
}

/// A coded equation leaves a reduced system.
pub proof fn lemma_after_coded_reduced(
    f: Field,
    rows: Rows,
    eq: Equation,
    known: Map<u32, Seq<u8>>,
    max: nat,
    size: nat,
)
    requires
        reduced(f, rows, size),
        eq.wf(f, size),
    ensures
        reduced(f, after_coded(f, rows, eq, known, max), size),
{
    let n = linear::id_count();
    let e0 = known_put_in(f, eq, known, n);
    let e = eliminated(f, e0, rows, n);
    lemma_known_put_in(f, eq, known, n, size);
    lemma_eliminated(f, e0, rows, n, size);
    lemma_evicted_reduced(f, rows, max, size);
    if !e.is_zero() {
        assert forall|q: u32| #[trigger] evicted(rows, max).contains_key(q) implies e.at(q)
            == 0 by {
            assert(rows.contains_key(q));
        }
        lemma_with_row_reduced(f, evicted(rows, max), e, size);
    }
}

/// A source symbol leaves a reduced system.
pub proof fn lemma_after_source_reduced(f: Field, rows: Rows, id: u32, data: Seq<u8>, size: nat)
    requires
        reduced(f, rows, size),
    ensures
        reduced(f, after_source(f, rows, id, data), size),
        reduced(f, put_in(f, rows, id, data).remove(id), size),
        rows.contains_key(id) ==> put_in(f, rows, id, data)[id].wf(f, size) && forall|q: u32|
            #[trigger] put_in(f, rows, id, data).remove(id).contains_key(q) ==> put_in(
                f,
                rows,
                id,
                data,
            )[id].at(q) == 0,
{
    let rs = put_in(f, rows, id, data);
    assert(rs.dom() =~= rows.dom());
    assert forall|q: u32| #[trigger] rows.contains_key(q) implies {
        &&& rs.contains_key(q)
        &&& rs[q].wf(f, size)
        &&& q != id ==> rs[q].is_pivot(q) && rs[q].at(q) == 1
        &&& forall|t: u32| #[trigger] rows.contains_key(t) && t != q ==> rs[q].at(t) == 0
    } by {
        linear::lemma_substituted_wf(f, rows[q], id, data, size);
        assert(rs[q] == rows[q].substituted(f, id, data));
        assert forall|t: u32| t < q implies #[trigger] rs[q].at(t) == 0 by {
            assert(rows[q].at(t) == 0);
        }
        assert forall|t: u32| #[trigger] rows.contains_key(t) && t != q implies rs[q].at(t)
            == 0 by {
            assert(rows[q].at(t) == 0);
        }
    }
    let rest = rs.remove(id);
    assert forall|q: u32| #[trigger] rest.contains_key(q) implies rows.contains_key(q) && q
        != id && rest[q] == rs[q] by {}
    assert(reduced(f, rest, size));
    if rows.contains_key(id) {
        assert forall|q: u32| #[trigger] rest.contains_key(q) implies rs[id].at(q) == 0 by {
            assert(rows.contains_key(q));
        }
        if !rs[id].is_zero() {
            lemma_with_row_reduced(f, rest, rs[id], size);
        }
    } else {
        assert(rest =~= rs);
    }
}

// ── Known symbols ────────────────────────────────────────────────────────

/// Where neither the rows nor a further one mention a symbol, the rows together
/// do not mention it either.
proof fn lemma_with_row_clear(f: Field, rows: Rows, eq: Equation, size: nat, id: u32)
    requires
        reduced(f, rows, size),
        eq.wf(f, size),
        !eq.is_zero(),
        eq.at(id) == 0,
        forall|q: u32| #[trigger] rows.contains_key(q) ==> rows[q].at(id) == 0,
    ensures
        forall|q: u32| #[trigger] with_row(f, rows, eq).contains_key(q) ==> with_row(
            f,
            rows,
            eq,
        )[q].at(id) == 0,
{
    lemma_normalized(f, eq, size);
    let new = eq.normalized(f);
    let p = eq.pivot();
    let out = with_row(f, rows, eq);
    assert(new.at(id) == 0);
    assert forall|q: u32| #[trigger] out.contains_key(q) implies out[q].at(id) == 0 by {
        if q != p {
            assert(rows.contains_key(q));
            let r = rows[q];
            assert(algebra::in_field(f, r.at(p)));
            algebra::lemma_fmul_units(f, r.at(p));
            algebra::lemma_xor(0, 0, 0, 0);
            assert(out[q] == r.plus_scaled(f, r.at(p), new));
        }
    }
}

/// Elimination through rows that do not mention a symbol leaves its coefficient.
proof fn lemma_eliminated_at(f: Field, eq: Equation, rows: Rows, n: nat, size: nat, id: u32)
    requires
        eq.wf(f, size),
        reduced(f, rows, size),
        n <= linear::id_count(),
        forall|q: u32| #[trigger] rows.contains_key(q) ==> rows[q].at(id) == 0,
    ensures
        eliminated(f, eq, rows, n).at(id) == eq.at(id),
    decreases n,
{
    if n > 0 {
        let m = (n - 1) as nat;
        lemma_eliminated_at(f, eq, rows, m, size, id);
        lemma_eliminated(f, eq, rows, m, size);
        let e = eliminated(f, eq, rows, m);
        let q = m as u32;
        if rows.contains_key(q) {
            assert(algebra::in_field(f, e.at(q)));
            algebra::lemma_fmul_units(f, e.at(q));
            algebra::lemma_xor(eq.at(id), 0, 0, 0);
        }
    }
}

/// Evicting a row leaves rows that were there before.
proof fn lemma_evicted_sub(rows: Rows, max: nat)
    ensures
        forall|q: u32| #[trigger] evicted(rows, max).contains_key(q) ==> rows.contains_key(q)
            && evicted(rows, max)[q] == rows[q],
{
}

/// After a coded equation no row mentions a known symbol.
pub proof fn lemma_after_coded_clear(
    f: Field,
    rows: Rows,
    eq: Equation,
    known: Map<u32, Seq<u8>>,
    max: nat,
    size: nat,
)
    requires
        reduced(f, rows, size),
        eq.wf(f, size),
        clear_of(rows, known),
    ensures
        clear_of(after_coded(f, rows, eq, known, max), known),
{
    let n = linear::id_count();
    let e0 = known_put_in(f, eq, known, n);
    let e = eliminated(f, e0, rows, n);
    lemma_known_put_in(f, eq, known, n, size);
    lemma_eliminated(f, e0, rows, n, size);
    lemma_evicted_reduced(f, rows, max, size);
    lemma_evicted_sub(rows, max);
    let out = after_coded(f, rows, eq, known, max);
    if !e.is_zero() {
        assert forall|p: u32, id: u32|
            #[trigger] out.contains_key(p) && #[trigger] known.contains_key(id) implies out[p].at(id)
            == 0 by {
            assert(e0.at(id) == 0);
            lemma_eliminated_at(f, e0, rows, n, size, id);
            lemma_with_row_clear(f, evicted(rows, max), e, size, id);
        }
    }
}

/// A symbol that neither the rows nor a coded equation mention is not mentioned
/// afterwards.
pub proof fn lemma_after_coded_absent(
    f: Field,
    rows: Rows,
    eq: Equation,
    known: Map<u32, Seq<u8>>,
    max: nat,
    size: nat,
    id: u32,
)
    requires
        reduced(f, rows, size),
        eq.wf(f, size),
        eq.at(id) == 0,
        forall|q: u32| #[trigger] rows.contains_key(q) ==> rows[q].at(id) == 0,
    ensures
        forall|q: u32| #[trigger]
            after_coded(f, rows, eq, known, max).contains_key(q) ==> after_coded(
                f,
                rows,
                eq,
                known,
                max,
            )[q].at(id) == 0,
{
    let n = linear::id_count();
    let e0 = known_put_in(f, eq, known, n);
    let e = eliminated(f, e0, rows, n);
    lemma_known_put_in(f, eq, known, n, size);
    lemma_eliminated(f, e0, rows, n, size);
    lemma_evicted_reduced(f, rows, max, size);
    lemma_evicted_sub(rows, max);
    if !e.is_zero() {
        assert(e0.at(id) == 0);
        lemma_eliminated_at(f, e0, rows, n, size, id);
        lemma_with_row_clear(f, evicted(rows, max), e, size, id);
    }
}

/// After a source symbol no row mentions it, nor a symbol that was known before.
pub proof fn lemma_after_source_clear(
    f: Field,
    rows: Rows,
    id: u32,
    data: Seq<u8>,
    known: Map<u32, Seq<u8>>,
    size: nat,
)
    requires
        reduced(f, rows, size),
        clear_of(rows, known),
    ensures
        forall|p: u32, x: u32|
            #[trigger] after_source(f, rows, id, data).contains_key(p) && (
            #[trigger] known.contains_key(x) || x == id) ==> after_source(
                f,
                rows,
                id,
                data,
            )[p].at(x) == 0,
{
    let rs = put_in(f, rows, id, data);
    let out = after_source(f, rows, id, data);
    assert(rs.dom() =~= rows.dom());
    assert forall|p: u32, x: u32|
        #[trigger] rs.contains_key(p) && (#[trigger] known.contains_key(x) || x == id) implies rs[p].at(
        x,
    ) == 0 by {
        assert(rows.contains_key(p));
        if known.contains_key(x) {
            assert(rows[p].at(x) == 0);
        }
    }
    if rows.contains_key(id) {
        let rest = rs.remove(id);
        let e = rs[id];
        lemma_after_source_reduced(f, rows, id, data, size);
        if !e.is_zero() {
            assert forall|p: u32, x: u32|
                #[trigger] out.contains_key(p) && (#[trigger] known.contains_key(x) || x
                    == id) implies out[p].at(x) == 0 by {
                assert(rs.contains_key(id));
                assert forall|q: u32| #[trigger] rest.contains_key(q) implies rest[q].at(x) == 0 by {
                    assert(rs.contains_key(q));
                }
                lemma_with_row_clear(f, rest, e, size, x);
            }
        }
    }
}

/// The rows that stay mention no symbol that the others determine.
pub proof fn lemma_solved_part_clear(f: Field, rows: Rows, size: nat)
    requires
        reduced(f, rows, size),
    ensures
        clear_of(unsolved_part(rows), solved_part(rows)),
{
    let u = unsolved_part(rows);
    let k = solved_part(rows);
    assert forall|p: u32, id: u32|
        #[trigger] u.contains_key(p) && #[trigger] k.contains_key(id) implies u[p].at(id) == 0 by {
        assert(rows.contains_key(p) && rows.contains_key(id));
    }
}

// ── Laws ─────────────────────────────────────────────────────────────────

/// Soundness of a coded equation: symbols that satisfy the rows, the known
/// values and the equation satisfy the new rows.
pub proof fn lemma_after_coded_sound(
    f: Field,
    rows: Rows,
    eq: Equation,
    known: Map<u32, Seq<u8>>,
    max: nat,
    size: nat,
    s: Symbols,
)
    requires
        reduced(f, rows, size),
        eq.wf(f, size),
        sized(known, size),
        agrees(s, known),
        rows_hold(f, rows, s),
        eq.holds(f, s),
    ensures
        rows_hold(f, after_coded(f, rows, eq, known, max), s),
{
    let n = linear::id_count();
    let e0 = known_put_in(f, eq, known, n);
    let e = eliminated(f, e0, rows, n);
    lemma_known_put_in(f, eq, known, n, size);
    lemma_known_put_in_holds(f, eq, known, n, size, s);
    lemma_eliminated(f, e0, rows, n, size);
    lemma_eliminated_holds(f, e0, rows, n, size, s);
    lemma_evicted_reduced(f, rows, max, size);
    if !e.is_zero() {
        let ev = evicted(rows, max);
        assert forall|q: u32| #[trigger] ev.contains_key(q) implies e.at(q) == 0
            && ev[q].holds(f, s) by {
            assert(rows.contains_key(q));
        }
        lemma_with_row_holds(f, ev, e, size, s);
    }
}

/// Nothing is lost by a coded equation that evicts no row: symbols that satisfy
/// the new rows and the known values satisfy the old rows, and the equation too
/// unless it contradicted them.
pub proof fn lemma_after_coded_complete(
    f: Field,
    rows: Rows,
    eq: Equation,
    known: Map<u32, Seq<u8>>,
    max: nat,
    size: nat,
    s: Symbols,
)
    requires
        reduced(f, rows, size),
        eq.wf(f, size),
        sized(known, size),
        agrees(s, known),
        rows.len() < max,
        rows_hold(f, after_coded(f, rows, eq, known, max), s),
    ensures
        rows_hold(f, rows, s),
        (exists|t: Symbols|
            agrees(t, known) && rows_hold(f, rows, t) && #[trigger] eq.holds(f, t)) ==> eq.holds(
            f,
            s,
        ),
{
    let n = linear::id_count();
    let e0 = known_put_in(f, eq, known, n);
    let e = eliminated(f, e0, rows, n);
    lemma_known_put_in(f, eq, known, n, size);
    lemma_known_put_in_holds(f, eq, known, n, size, s);
    lemma_eliminated(f, e0, rows, n, size);
    if !e.is_zero() {
        lemma_with_row_holds(f, rows, e, size, s);
        lemma_eliminated_holds(f, e0, rows, n, size, s);
    } else {
        lemma_eliminated_holds(f, e0, rows, n, size, s);
        if exists|t: Symbols|
            agrees(t, known) && rows_hold(f, rows, t) && #[trigger] eq.holds(f, t) {
            let t = choose|t: Symbols|
                agrees(t, known) && rows_hold(f, rows, t) && #[trigger] eq.holds(f, t);
            lemma_known_put_in_holds(f, eq, known, n, size, t);
            lemma_eliminated_holds(f, e0, rows, n, size, t);
            linear::lemma_zero_holds(f, e, t, s);
        }
    }
}

/// Putting in a true value loses nothing and invents nothing: symbols with that
/// value satisfy the new rows exactly where they satisfy the old ones.
pub proof fn lemma_after_source_exact(
    f: Field,
    rows: Rows,
    id: u32,
    data: Seq<u8>,
    size: nat,
    s: Symbols,
)
    requires
        reduced(f, rows, size),
        unsolved(rows),
        data.len() == size,
        s(id) == data,
    ensures
        rows_hold(f, after_source(f, rows, id, data), s) <==> rows_hold(f, rows, s),
{
    let rs = put_in(f, rows, id, data);
    lemma_after_source_reduced(f, rows, id, data, size);
    assert(rs.dom() =~= rows.dom());
    assert forall|q: u32| #[trigger] rows.contains_key(q) implies rs.contains_key(q) && (
    rs[q].holds(f, s) <==> rows[q].holds(f, s)) by {
        linear::lemma_substituted_holds(f, rows[q], id, data, s, size);
    }
    assert(rows_hold(f, rs, s) <==> rows_hold(f, rows, s)) by {
        if rows_hold(f, rs, s) {
            assert forall|q: u32| #[trigger] rows.contains_key(q) implies rows[q].holds(f, s) by {
                assert(rs.contains_key(q));
            }
        }
    }
    if rows.contains_key(id) {
        let rest = rs.remove(id);
        assert(!rs[id].is_zero()) by {
            let r = rows[id];
            assert(!r.is_single(id));
            let u = choose|u: u32| u != id && #[trigger] r.at(u) != 0;
            assert(rs[id].at(u) == r.at(u));
        }
        lemma_with_row_holds(f, rest, rs[id], size, s);
        assert(rows_hold(f, rest, s) && rs[id].holds(f, s) <==> rows_hold(f, rs, s)) by {
            if rows_hold(f, rs, s) {
                assert(rs.contains_key(id));
                assert forall|q: u32| #[trigger] rest.contains_key(q) implies rest[q].holds(
                    f,
                    s,
                ) by {
                    assert(rs.contains_key(q));
                }
            }
            if rows_hold(f, rest, s) && rs[id].holds(f, s) {
                assert forall|q: u32| #[trigger] rs.contains_key(q) implies rs[q].holds(f, s) by {
                    if q != id {
                        assert(rest.contains_key(q));
                    }
                }
            }
        }
    }
}

/// The unsolved rows of a reduced system are a reduced system without solved rows.
pub proof fn lemma_unsolved_part(f: Field, rows: Rows, size: nat)
    requires
        reduced(f, rows, size),
    ensures
        reduced(f, unsolved_part(rows), size),
        unsolved(unsolved_part(rows)),
{
    lemma_reduced_sub(f, rows, unsolved_part(rows), size);
}

/// What the rows say is what the unsolved rows and the solved symbols say.
pub proof fn lemma_solved_part_exact(f: Field, rows: Rows, size: nat, s: Symbols)
    requires
        reduced(f, rows, size),
        forall|id: u32| #[trigger] s(id).len() == size,
    ensures
        reduced(f, unsolved_part(rows), size),
        unsolved(unsolved_part(rows)),
        rows_hold(f, rows, s) <==> rows_hold(f, unsolved_part(rows), s) && agrees(
            s,
            solved_part(rows),
        ),
        sized(solved_part(rows), size),
{
    let u = unsolved_part(rows);
    let k = solved_part(rows);
    lemma_reduced_sub(f, rows, u, size);
    assert forall|p: u32| #[trigger] rows.contains_key(p) && rows[p].is_single(p) implies (
    rows[p].holds(f, s) <==> s(p) == rows[p].payload) by {
        linear::lemma_single_holds(f, rows[p], p, s);
    }
    if rows_hold(f, rows, s) {
        assert forall|p: u32| #[trigger] k.contains_key(p) implies s(p) == k[p] by {
            assert(rows.contains_key(p));
        }
        assert forall|p: u32| #[trigger] u.contains_key(p) implies u[p].holds(f, s) by {
            assert(rows.contains_key(p));
        }
    }
    if rows_hold(f, u, s) && agrees(s, k) {
        assert forall|p: u32| #[trigger] rows.contains_key(p) implies rows[p].holds(f, s) by {
            if rows[p].is_single(p) {
                assert(k.contains_key(p));
            } else {
                assert(u.contains_key(p));
            }
        }
    }
}

/// Recovery is as early as it can be: a reduced system without solved rows
/// leaves every symbol open that it mentions.  For every solution there is
/// another one that differs from it at that symbol, and agrees with it at every
/// symbol that no row mentions.
pub proof fn lemma_nothing_more_determined(
    f: Field,
    rows: Rows,
    size: nat,
    s: Symbols,
    p: u32,
    id: u32,
)
    requires
        reduced(f, rows, size),
        unsolved(rows),
        size > 0,
        forall|i: u32| #[trigger] s(i).len() == size,
        rows_hold(f, rows, s),
        rows.contains_key(p),
        rows[p].at(id) != 0,
    ensures
        exists|t: Symbols|
            {
                &&& #[trigger] rows_hold(f, rows, t)
                &&& forall|i: u32| #[trigger] t(i).len() == size
                &&& t(id) != s(id)
                &&& forall|i: u32|
                    (forall|q: u32| #[trigger] rows.contains_key(q) ==> rows[q].at(i) == 0) ==> t(i)
                        == #[trigger] s(i)
            },
{
    // the free symbol that is moved: `id` itself, or another one in its row
    let u: u32 = if rows.contains_key(id) {
        choose|u: u32| u != id && #[trigger] rows[id].at(u) != 0
    } else {
        id
    };
    assert(!rows.contains_key(u)) by {
        if rows.contains_key(id) && rows.contains_key(u) {
            assert(!rows[id].is_single(id));
            assert(rows[id].at(u) == 0);
        }
    }
    // the change of every symbol: one at `u`, and what that entails at the pivots
    let e: Symbols = |i: u32|
        Seq::new(
            size,
            |k: int|
                if i == u {
                    1u8
                } else if rows.contains_key(i) {
                    rows[i].at(u)
                } else {
                    0u8
                },
        );
    let t: Symbols = |i: u32| Seq::new(size, |k: int| s(i)[k] ^ e(i)[k]);
    assert forall|q: u32| #[trigger] rows.contains_key(q) implies rows[q].holds(f, t) by {
        let r = rows[q];
        assert forall|k: int| 0 <= k < r.payload.len() implies #[trigger] linear::sum_upto(
            f,
            r.coef,
            t,
            k,
            linear::id_count(),
        ) == r.payload[k] by {
            assert forall|i: u32| algebra::in_field(f, #[trigger] (r.coef)(i)) by {
                assert(algebra::in_field(f, r.at(i)));
            }
            assert forall|i: u32| #[trigger] t(i)[k] == s(i)[k] ^ e(i)[k] by {}
            linear::lemma_sum_symbols(f, r.coef, s, e, t, k, linear::id_count());
            assert forall|i: u32| i != q && i != u implies algebra::scale_byte(
                f,
                #[trigger] (r.coef)(i),
                e(i)[k],
            ) == 0 by {
                assert(algebra::in_field(f, r.at(i)));
                algebra::lemma_scale_byte(f, r.at(i), r.at(i), e(i)[k], 0);
                if rows.contains_key(i) {
                    assert(r.at(i) == 0);
                }
            }
            linear::lemma_sum_two(f, r.coef, e, k, q, u, linear::id_count());
            let c = r.at(u);
            assert(algebra::in_field(f, c));
            linear::lemma_scale_one(f, c);
            algebra::lemma_scale_byte(f, 1, 1, c, 0);
            algebra::lemma_xor(c, c, 0, 0);
            algebra::lemma_xor(r.payload[k], 0, 0, 0);
            assert(linear::sum_upto(f, r.coef, s, k, linear::id_count()) == r.payload[k]);
        }
    }
    assert(rows_hold(f, rows, t));
    assert(t(id) != s(id)) by {
        let d = e(id)[0];
        assert(d != 0);
        algebra::lemma_xor(s(id)[0], d, 0, 0);
        algebra::lemma_xor(s(id)[0], s(id)[0], d, 0);
        algebra::lemma_xor(d, 0, 0, 0);
        if t(id) == s(id) {
            assert(t(id)[0] == s(id)[0]);
            assert(false);
        }
    }
    assert forall|i: u32|
        (forall|q: u32| #[trigger] rows.contains_key(q) ==> rows[q].at(i) == 0) implies t(i)
        == #[trigger] s(i) by {
        if i == u {
            assert(rows[p].at(i) == 0);
            if rows.contains_key(id) {
                assert(rows[id].at(i) == 0);
            }
            assert(false);
        }
        if rows.contains_key(i) {
            assert(rows[i].at(i) == 1);
            assert(false);
        }
        assert forall|k: int| 0 <= k < size implies #[trigger] t(i)[k] == s(i)[k] by {
            algebra::lemma_xor(s(i)[k], 0, 0, 0);
        }
        assert(t(i) =~= s(i));
    }
}

} // verus!
