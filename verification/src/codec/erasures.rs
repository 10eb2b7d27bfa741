//! Recovery: which losses the coded packets of an encoder make up for.
//!
//! Packets of one Cauchy generation make up for as many losses, whichever these
//! are.  So do consecutive Vandermonde packets, and any Vandermonde packets where
//! the losses are consecutive.
use vstd::prelude::*;

use crate::codec::decoder::laws;
use crate::codec::decoder::linear;
use crate::codec::decoder::linear::Symbols;
use crate::codec::decoder::matrix;
use crate::codec::decoder::model::DecoderModel;
use crate::codec::decoder::recovery;
use crate::codec::decoder::system;
use crate::codec::encoder::model;
use crate::codec::encoder::model::EncoderModel;
use crate::codec::laws as session;
use crate::codec::laws::{covers, listed_sum, window_true};
use crate::config::{Field, MatrixStrategy};
use crate::gf::algebra;
use crate::gf::cauchy;
use crate::gf::cauchy::all_in_field;
use crate::gf::vandermonde;
use crate::wire::ev::coef_gen;
use crate::wire::ev::EvModel;

verus! {

// ── Taking in packets ────────────────────────────────────────────────────

/// A coded packet: its encoding vector, its payload, and the start of the window as
/// it tells it.
pub type Taken = (EvModel, Seq<u8>, Option<u32>);

/// The decoder after the first `n` of the packets.
pub open spec fn taken(m: DecoderModel, packets: Seq<Taken>, n: nat) -> DecoderModel
    decreases n,
{
    if n == 0 {
        m
    } else {
        taken(m, packets, (n - 1) as nat).coded_taken(
            packets[n - 1].0,
            packets[n - 1].1,
            packets[n - 1].2,
        )
    }
}

/// Every packet states a true equation.
pub open spec fn packets_true(
    f: Field,
    size: nat,
    packets: Seq<Taken>,
    s: Symbols,
) -> bool {
    forall|i: int|
        0 <= i < packets.len() ==> (#[trigger] packets[i]).1.len() == size && matrix::ev_equation(
            f,
            packets[i].0,
            packets[i].1,
        ).holds(f, s)
}

/// A coded packet brings at most one further row.
proof fn lemma_rows_grow(m: DecoderModel, v: EvModel, payload: Seq<u8>, start: Option<u32>)
    requires
        m.wf(),
        payload.len() == m.params.symbol_size,
    ensures
        m.coded_taken(v, payload, start).rows.len() <= m.rows.len() + 1,
{
    let f = m.params.field;
    let size = m.params.symbol_size as nat;
    let max = m.params.max_matrix_rows as nat;
    let eq = matrix::ev_equation(f, v, payload);
    let rows = m.rows_with_coded(v, payload);
    matrix::lemma_ev_equation_wf(f, v, payload);
    system::lemma_after_coded_reduced(f, m.rows, eq, m.known, max, size);
    let e = system::eliminated(
        f,
        system::known_put_in(f, eq, m.known, linear::id_count()),
        m.rows,
        linear::id_count(),
    );
    let p = e.normalized(f).pivot();
    let bound = m.rows.dom().insert(p);
    assert forall|q: u32| #[trigger] rows.contains_key(q) implies bound.contains(q) by {
        if !e.is_zero() && q != p {
            assert(system::evicted(m.rows, max).contains_key(q));
        }
    }
    assert(system::unsolved_part(rows).dom().subset_of(bound));
    vstd::set_lib::lemma_len_subset(system::unsolved_part(rows).dom(), bound);
}

/// Taking in true packets keeps everything in order and true.
pub proof fn lemma_taken(m: DecoderModel, packets: Seq<Taken>, n: nat, s: Symbols)
    requires
        m.wf(),
        m.consistent(s),
        laws::all_sized(s, m.params.symbol_size as nat),
        packets_true(m.params.field, m.params.symbol_size as nat, packets, s),
        n <= packets.len(),
    ensures
        taken(m, packets, n).wf(),
        taken(m, packets, n).consistent(s),
        taken(m, packets, n).params == m.params,
        taken(m, packets, n).rows.len() <= m.rows.len() + n,
    decreases n,
{
    if n > 0 {
        let k = (n - 1) as nat;
        lemma_taken(m, packets, k, s);
        let p = packets[n - 1];
        laws::lemma_coded_taken_wf(taken(m, packets, k), p.0, p.1, p.2);
        laws::lemma_coded_consistent(taken(m, packets, k), s, p.0, p.1, p.2);
        lemma_rows_grow(taken(m, packets, k), p.0, p.1, p.2);
    }
}

/// What is possible after true packets was possible before them, and satisfies
/// all their equations.
proof fn lemma_possible_after(
    m: DecoderModel,
    packets: Seq<Taken>,
    n: nat,
    s: Symbols,
    t: Symbols,
)
    requires
        m.wf(),
        m.consistent(s),
        laws::all_sized(s, m.params.symbol_size as nat),
        packets_true(m.params.field, m.params.symbol_size as nat, packets, s),
        n <= packets.len(),
        m.rows.len() + n <= m.params.max_matrix_rows,
        recovery::possible(taken(m, packets, n), t),
    ensures
        recovery::possible(m, t),
        forall|i: int|
            0 <= i < n ==> matrix::ev_equation(
                m.params.field,
                (#[trigger] packets[i]).0,
                packets[i].1,
            ).holds(m.params.field, t),
    decreases n,
{
    if n > 0 {
        let k = (n - 1) as nat;
        lemma_taken(m, packets, k, s);
        let d = taken(m, packets, k);
        let p = packets[n - 1];
        recovery::lemma_consistent_possible(d, s);
        recovery::lemma_possible_before(d, p.0, p.1, p.2, s, t);
        lemma_possible_after(m, packets, k, s, t);
    }
}

// ── Unknown symbols ──────────────────────────────────────────────────────

/// The field element in a payload byte; in GF(2^4) there are two.
pub open spec fn element(f: Field, b: u8, high: bool) -> u8 {
    match f {
        Field::Gf2_8 => b,
        Field::Gf2_4 => if high {
            algebra::hi_nibble(b)
        } else {
            algebra::lo_nibble(b)
        },
    }
}

proof fn lemma_element(f: Field, a: u8, b: u8, c: u8, high: bool)
    requires
        algebra::in_field(f, c),
    ensures
        algebra::in_field(f, element(f, a, high)),
        element(f, a ^ b, high) == element(f, a, high) ^ element(f, b, high),
        element(f, algebra::scale_byte(f, c, a), high) == algebra::fmul(
            f,
            c,
            element(f, a, high),
        ),
        element(f, 0, high) == 0,
        element(f, a, true) == 0 && element(f, a, false) == 0 ==> a == 0,
{
    if f == Field::Gf2_4 {
        algebra::lemma_nibbles(a, b, 0, 0, 0, 0);
        algebra::lemma_fmul_closed(f, c, algebra::hi_nibble(a));
        algebra::lemma_fmul_closed(f, c, algebra::lo_nibble(a));
        let h = algebra::gf4_mul(c, algebra::hi_nibble(a));
        let l = algebra::gf4_mul(c, algebra::lo_nibble(a));
        algebra::lemma_nibbles(0, 0, h, l, 0, 0);
    }
}

/// The members of `ids` that are not known.
pub open spec fn unknown(m: DecoderModel, ids: Seq<u32>) -> Seq<u32> {
    ids.filter(|id: u32| !m.known.contains_key(id))
}

// ── Packets as rows of a matrix ──────────────────────────────────────────

/// The product of a row of coefficients with a vector over the first `n` ids.
pub open spec fn row_sum(
    f: Field,
    coef: spec_fn(u32) -> u8,
    ids: Seq<u32>,
    vals: Seq<u8>,
    n: nat,
) -> u8
    decreases n,
{
    if n == 0 {
        0
    } else {
        row_sum(f, coef, ids, vals, (n - 1) as nat) ^ algebra::fmul(
            f,
            coef(ids[n - 1]),
            vals[n - 1],
        )
    }
}

proof fn lemma_row_sum_prefix(
    f: Field,
    coef: spec_fn(u32) -> u8,
    ids: Seq<u32>,
    other: Seq<u32>,
    vals: Seq<u8>,
    vals2: Seq<u8>,
    n: nat,
)
    requires
        n <= ids.len(),
        n <= other.len(),
        n <= vals.len(),
        n <= vals2.len(),
        forall|j: int| 0 <= j < n ==> ids[j] == other[j] && vals[j] == vals2[j],
    ensures
        row_sum(f, coef, ids, vals, n) == row_sum(f, coef, other, vals2, n),
    decreases n,
{
    if n > 0 {
        lemma_row_sum_prefix(f, coef, ids, other, vals, vals2, (n - 1) as nat);
    }
}

/// The product of every row with the vector is zero.
pub open spec fn annihilated(
    f: Field,
    rows: Seq<spec_fn(u32) -> u8>,
    ids: Seq<u32>,
    vals: Seq<u8>,
) -> bool {
    forall|i: int|
        0 <= i < rows.len() ==> row_sum(f, #[trigger] rows[i], ids, vals, ids.len()) == 0
}

/// The rows tell the symbols of `ids` apart: no vector but zero is annihilated.
pub open spec fn separates(f: Field, rows: Seq<spec_fn(u32) -> u8>, ids: Seq<u32>) -> bool {
    forall|vals: Seq<u8>|
        vals.len() == ids.len() && all_in_field(f, vals) && #[trigger] annihilated(
            f,
            rows,
            ids,
            vals,
        ) ==> forall|j: int| 0 <= j < vals.len() ==> #[trigger] vals[j] == 0
}

/// The coefficient at position `j` is the one that `coef` gives, a field element.
pub open spec fn coef_is(f: Field, v: EvModel, coef: spec_fn(u32) -> u8, j: int) -> bool {
    v.coef(j) == coef(v.ids[j]) && algebra::in_field(f, v.coef(j))
}

/// The packets cover `cover`, with the coefficients of `rows`.
pub open spec fn have_rows(
    f: Field,
    packets: Seq<Taken>,
    cover: Seq<u32>,
    rows: Seq<spec_fn(u32) -> u8>,
) -> bool {
    &&& rows.len() == packets.len()
    &&& forall|i: int|
        0 <= i < packets.len() ==> {
            let v = (#[trigger] packets[i]).0;
            &&& v.ids == cover
            &&& forall|j: int| 0 <= j < cover.len() ==> #[trigger] coef_is(f, v, rows[i], j)
        }
}

/// Symbols that are zero where they are known: the combination of all of them is
/// the product of a row with the others.
proof fn lemma_listed_sum_row(
    m: DecoderModel,
    v: EvModel,
    coef: spec_fn(u32) -> u8,
    e: Symbols,
    k: int,
    high: bool,
    n: nat,
)
    requires
        n <= v.ids.len(),
        forall|i: int|
            0 <= i < v.ids.len() ==> #[trigger] coef_is(m.params.field, v, coef, i),
        forall|id: u32| #[trigger] m.known.contains_key(id) ==> e(id)[k] == 0,
    ensures
        ({
            let f = m.params.field;
            let ids = unknown(m, v.ids.take(n as int));
            element(f, listed_sum(f, v, e, k, n), high) == row_sum(
                f,
                coef,
                ids,
                ids.map_values(|id: u32| element(f, e(id)[k], high)),
                ids.len(),
            )
        }),
    decreases n,
{
    reveal(Seq::filter);
    let f = m.params.field;
    let ids = unknown(m, v.ids.take(n as int));
    let vals = ids.map_values(|id: u32| element(f, e(id)[k], high));
    lemma_element(f, 0, 0, 0, high);
    if n == 0 {
        assert(v.ids.take(0) =~= Seq::<u32>::empty());
        assert(ids =~= Seq::<u32>::empty());
    } else {
        let q = (n - 1) as nat;
        let id = v.ids[n - 1];
        let c = coef(id);
        let ids0 = unknown(m, v.ids.take(n - 1));
        let vals0 = ids0.map_values(|id: u32| element(f, e(id)[k], high));
        lemma_listed_sum_row(m, v, coef, e, k, high, q);
        assert(coef_is(f, v, coef, n - 1));
        algebra::lemma_reduce(f, c);
        let sum = listed_sum(f, v, e, k, q);
        let term = algebra::scale_byte(f, c, e(id)[k]);
        lemma_element(f, sum, term, c, high);
        lemma_element(f, e(id)[k], 0, c, high);
        assert(v.ids.take(n as int).drop_last() =~= v.ids.take(n - 1));
        assert(v.ids.take(n as int).last() == id);
        if m.known.contains_key(id) {
            assert(e(id)[k] == 0);
            algebra::lemma_fmul_units(f, c);
            algebra::lemma_xor(element(f, sum, high), 0, 0, 0);
            assert(ids == ids0);
        } else {
            assert(ids == ids0.push(id));
            lemma_row_sum_prefix(f, coef, ids, ids0, vals, vals0, ids0.len());
            assert(vals[ids0.len() as int] == element(f, e(id)[k], high));
        }
    }
}

/// Two possible families of symbols that satisfy packets which tell the unknown
/// symbols apart agree on the symbols that these cover.
proof fn lemma_packets_determine(
    m: DecoderModel,
    packets: Seq<Taken>,
    cover: Seq<u32>,
    rows: Seq<spec_fn(u32) -> u8>,
    s: Symbols,
    t: Symbols,
    id: u32,
)
    requires
        m.wf(),
        cover.no_duplicates(),
        have_rows(m.params.field, packets, cover, rows),
        separates(m.params.field, rows, unknown(m, cover)),
        packets_true(m.params.field, m.params.symbol_size as nat, packets, s),
        packets_true(m.params.field, m.params.symbol_size as nat, packets, t),
        recovery::possible(m, s),
        recovery::possible(m, t),
        cover.contains(id),
    ensures
        t(id) == s(id),
{
    let f = m.params.field;
    let size = m.params.symbol_size as nat;
    let u = unknown(m, cover);
    let e = recovery::difference(s, t, size);
    lemma_unknown_part(m, cover);
    assert(s(id).len() == size && t(id).len() == size);
    if m.known.contains_key(id) {
        assert(s(id) == m.known[id] && t(id) == m.known[id]);
    } else {
        assert(u.contains(id));
        let at = u.index_of(id);
        assert forall|k: int| 0 <= k < size implies #[trigger] t(id)[k] == s(id)[k] by {
            assert forall|x: u32| #[trigger] m.known.contains_key(x) implies e(x)[k] == 0 by {
                assert(s(x) == m.known[x] && t(x) == m.known[x]);
                algebra::lemma_xor(s(x)[k], 0, 0, 0);
            }
            assert forall|high: bool| #[trigger] element(f, e(id)[k], high) == 0 by {
                let vals = u.map_values(|x: u32| element(f, e(x)[k], high));
                assert forall|i: int| 0 <= i < rows.len() implies row_sum(
                    f,
                    #[trigger] rows[i],
                    u,
                    vals,
                    u.len(),
                ) == 0 by {
                    let v = packets[i].0;
                    let eq = matrix::ev_equation(f, v, packets[i].1);
                    matrix::lemma_ev_equation_wf(f, v, packets[i].1);
                    recovery::lemma_difference(f, eq, s, t, size, k);
                    session::lemma_listed_sum(f, v, e, k, cover.len());
                    lemma_listed_sum_row(m, v, rows[i], e, k, high, cover.len());
                    assert(v.ids.take(cover.len() as int) =~= cover);
                    lemma_element(f, 0, 0, 0, high);
                }
                assert forall|i: int| 0 <= i < vals.len() implies algebra::in_field(
                    f,
                    #[trigger] vals[i],
                ) by {
                    lemma_element(f, e(u[i])[k], 0, 0, high);
                }
                assert(annihilated(f, rows, u, vals));
                assert(vals[at] == 0);
            }
            assert(element(f, e(id)[k], true) == 0 && element(f, e(id)[k], false) == 0);
            lemma_element(f, e(id)[k], 0, 0, true);
            algebra::lemma_xor(s(id)[k], t(id)[k], 0, 0);
        }
        assert(t(id) =~= s(id));
    }
}

/// After the packets, every symbol that they cover is known.
pub open spec fn all_recovered(
    m: DecoderModel,
    packets: Seq<Taken>,
    cover: Seq<u32>,
    s: Symbols,
) -> bool {
    forall|id: u32|
        cover.contains(id) ==> (#[trigger] taken(m, packets, packets.len()).known.contains_key(id))
            && taken(m, packets, packets.len()).known[id] == s(id)
}

/// Packets that tell the unknown symbols apart recover them.
///
/// There has to be room for their equations.
pub proof fn lemma_recovery(
    m: DecoderModel,
    packets: Seq<Taken>,
    cover: Seq<u32>,
    rows: Seq<spec_fn(u32) -> u8>,
    s: Symbols,
)
    requires
        m.wf(),
        m.consistent(s),
        laws::all_sized(s, m.params.symbol_size as nat),
        cover.no_duplicates(),
        have_rows(m.params.field, packets, cover, rows),
        separates(m.params.field, rows, unknown(m, cover)),
        packets_true(m.params.field, m.params.symbol_size as nat, packets, s),
        m.rows.len() + packets.len() <= m.params.max_matrix_rows,
    ensures
        all_recovered(m, packets, cover, s),
{
    let n = packets.len();
    let out = taken(m, packets, n);
    lemma_taken(m, packets, n, s);
    recovery::lemma_consistent_possible(m, s);
    recovery::lemma_consistent_possible(out, s);
    assert forall|id: u32| cover.contains(id) implies (#[trigger] out.known.contains_key(id))
        && out.known[id] == s(id) by {
        assert forall|t: Symbols| #[trigger] recovery::possible(out, t) implies t(id) == s(id) by {
            lemma_possible_after(m, packets, n, s, t);
            lemma_packets_determine(m, packets, cover, rows, s, t, id);
        }
        recovery::lemma_determined_is_known(out, s, id);
    }
}

// ── Cauchy packets ───────────────────────────────────────────────────────

/// The points of `ids` differ.
pub open spec fn points_differ(f: Field, ids: Seq<u32>) -> bool {
    forall|i: int, j: int|
        0 <= i < j < ids.len() ==> !coef_gen::same_point(
            f,
            #[trigger] ids[i],
            #[trigger] ids[j],
        )
}

/// Different ids of a range no longer than the cycle have different points.
pub proof fn lemma_points_differ(f: Field, ids: Seq<u32>, first: u32)
    requires
        ids.no_duplicates(),
        forall|i: int|
            0 <= i < ids.len() ==> first <= #[trigger] ids[i] < first + coef_gen::cauchy_cycle(f),
    ensures
        points_differ(f, ids),
{
    assert forall|i: int, j: int| 0 <= i < j < ids.len() implies !coef_gen::same_point(
        f,
        #[trigger] ids[i],
        #[trigger] ids[j],
    ) by {
        assert(ids[i] != ids[j]);
        let a = ids[i] as int;
        let b = ids[j] as int;
        match f {
            Field::Gf2_8 => {
                assert(a / 128 - b / 128 <= 1 && b / 128 - a / 128 <= 1);
            },
            Field::Gf2_4 => {
                assert(a / 7 - b / 7 <= 1 && b / 7 - a / 7 <= 1);
            },
        }
    }
}

/// What is unknown among different ids differs, and is all of it.
proof fn lemma_unknown_part(m: DecoderModel, ids: Seq<u32>)
    requires
        ids.no_duplicates(),
    ensures
        unknown(m, ids).no_duplicates(),
        points_differ(m.params.field, ids) ==> points_differ(m.params.field, unknown(m, ids)),
        forall|id: u32| ids.contains(id) && !m.known.contains_key(id) ==> #[trigger] unknown(
            m,
            ids,
        ).contains(id),
{
    let keep = |id: u32| !m.known.contains_key(id);
    let u = unknown(m, ids);
    let f = m.params.field;
    session::lemma_filter_covers(ids, keep);
    if points_differ(f, ids) {
        assert forall|i: int, j: int| 0 <= i < j < u.len() implies !coef_gen::same_point(
            f,
            #[trigger] u[i],
            #[trigger] u[j],
        ) by {
            let a = ids.index_of(u[i]);
            let b = ids.index_of(u[j]);
            assert(ids.contains(u[i]) && ids.contains(u[j]));
            assert(ids[a] == u[i] && ids[b] == u[j]);
            assert(u[i] != u[j]);
            if a < b {
                assert(!coef_gen::same_point(f, ids[a], ids[b]));
            } else {
                assert(!coef_gen::same_point(f, ids[b], ids[a]));
            }
        }
    }
    assert forall|id: u32| ids.contains(id) && !m.known.contains_key(id) implies #[trigger] u.contains(
        id,
    ) by {
        ids.lemma_filter_contains(keep, ids.index_of(id));
    }
}

/// Packets of one Cauchy generation over the same ids, with different coded ids.
pub open spec fn cauchy_packets(
    f: Field,
    packets: Seq<Taken>,
    cover: Seq<u32>,
    generation: u8,
) -> bool {
    &&& forall|i: int|
        0 <= i < packets.len() ==> {
            let v = (#[trigger] packets[i]).0;
            &&& v.ids == cover
            &&& v.coded_id < coef_gen::cauchy_cycle(f)
            &&& forall|j: int|
                0 <= j < cover.len() ==> v.coef(j) == coef_gen::cauchy(
                    f,
                    #[trigger] cover[j],
                    v.coded_id,
                    generation,
                )
        }
    &&& forall|i: int, j: int|
        0 <= i < j < packets.len() ==> (#[trigger] packets[i]).0.coded_id != (
        #[trigger] packets[j]).0.coded_id
}

/// The rows of these packets.
spec fn cauchy_rows(
    f: Field,
    packets: Seq<Taken>,
    generation: u8,
) -> Seq<spec_fn(u32) -> u8> {
    Seq::new(
        packets.len(),
        |i: int| |id: u32| coef_gen::cauchy(f, id, packets[i].0.coded_id, generation),
    )
}

proof fn lemma_cauchy_row(
    f: Field,
    ids: Seq<u32>,
    coded_id: u32,
    generation: u8,
    vals: Seq<u8>,
    n: nat,
)
    requires
        n <= ids.len(),
        n <= vals.len(),
    ensures
        row_sum(f, |id: u32| coef_gen::cauchy(f, id, coded_id, generation), ids, vals, n)
            == cauchy::row_product(
            f,
            ids.map_values(|s: u32| coef_gen::cauchy_x(f, s)),
            coef_gen::cauchy_y(f, coded_id, generation),
            vals,
            n,
        ),
    decreases n,
{
    if n > 0 {
        lemma_cauchy_row(f, ids, coded_id, generation, vals, (n - 1) as nat);
    }
}

/// Cauchy packets tell as many symbols apart.
proof fn lemma_cauchy_separates(
    f: Field,
    packets: Seq<Taken>,
    cover: Seq<u32>,
    generation: u8,
    ids: Seq<u32>,
)
    requires
        cauchy_packets(f, packets, cover, generation),
        points_differ(f, ids),
        ids.len() <= packets.len(),
    ensures
        separates(f, cauchy_rows(f, packets, generation), ids),
{
    let rows = cauchy_rows(f, packets, generation);
    assert forall|vals: Seq<u8>|
        vals.len() == ids.len() && all_in_field(f, vals) && #[trigger] annihilated(
            f,
            rows,
            ids,
            vals,
        ) implies forall|j: int| 0 <= j < vals.len() ==> #[trigger] vals[j] == 0 by {
        let coded = Seq::new(ids.len(), |i: int| packets[i].0.coded_id);
        assert forall|i: int| 0 <= i < coded.len() implies #[trigger] coef_gen::cauchy_row_product(
            f,
            ids,
            coded[i],
            generation,
            vals,
        ) == 0 by {
            assert(row_sum(f, rows[i], ids, vals, ids.len()) == 0);
            lemma_cauchy_row(f, ids, coded[i], generation, vals, ids.len());
            assert(rows[i] =~= (|id: u32| coef_gen::cauchy(f, id, coded[i], generation)));
        }
        assert forall|i: int| 0 <= i < coded.len() implies #[trigger] coded[i]
            < coef_gen::cauchy_cycle(f) by {
            assert(packets[i].0.coded_id < coef_gen::cauchy_cycle(f));
        }
        assert forall|i: int, j: int| 0 <= i < j < coded.len() implies coded[i] != coded[j] by {
            assert(packets[i].0.coded_id != packets[j].0.coded_id);
        }
        coef_gen::lemma_cauchy_mds(f, ids, coded, generation, vals);
    }
}

/// Recovery from any pattern of `k` erasures: `k` coded packets of one Cauchy
/// generation recover any `k` missing symbols that they cover.
///
/// The packets have different coded ids, the points of the covered ids differ, and
/// there is room for the equations.
pub proof fn lemma_cauchy_recovery(
    m: DecoderModel,
    packets: Seq<Taken>,
    cover: Seq<u32>,
    generation: u8,
    s: Symbols,
)
    requires
        m.wf(),
        m.consistent(s),
        laws::all_sized(s, m.params.symbol_size as nat),
        cover.no_duplicates(),
        points_differ(m.params.field, cover),
        cauchy_packets(m.params.field, packets, cover, generation),
        packets_true(m.params.field, m.params.symbol_size as nat, packets, s),
        unknown(m, cover).len() <= packets.len(),
        m.rows.len() + packets.len() <= m.params.max_matrix_rows,
    ensures
        all_recovered(m, packets, cover, s),
{
    let f = m.params.field;
    let rows = cauchy_rows(f, packets, generation);
    lemma_unknown_part(m, cover);
    lemma_cauchy_separates(f, packets, cover, generation, unknown(m, cover));
    assert forall|i: int| 0 <= i < packets.len() implies {
        let v = (#[trigger] packets[i]).0;
        &&& v.ids == cover
        &&& forall|j: int| 0 <= j < cover.len() ==> #[trigger] coef_is(f, v, rows[i], j)
    } by {
        let v = packets[i].0;
        assert forall|j: int| 0 <= j < cover.len() implies #[trigger] coef_is(f, v, rows[i], j) by {
            coef_gen::lemma_cauchy_coef(f, cover[j], v.coded_id, generation);
            assert(v.ids[j] == cover[j]);
        }
    }
    lemma_recovery(m, packets, cover, rows, s);
}

/// The packets that an encoder sends one after the other over the same ids.
pub open spec fn sent(m: EncoderModel, cover: Seq<u32>, n: nat) -> Seq<Taken> {
    Seq::new(
        n,
        |i: int|
            (
                m.after_coded_n(i as nat).vector(cover),
                m.after_coded_n(i as nat).payload(cover),
                m.after_coded_n(i as nat).told(cover),
            ),
    )
}

/// From encoder to decoder: where a Cauchy encoder sends `n` coded packets inside a
/// cycle, a decoder that misses at most `n` of the covered symbols knows all of
/// them after it has taken in these packets.
pub proof fn lemma_cauchy_session(
    enc: EncoderModel,
    dec: DecoderModel,
    cover: Seq<u32>,
    n: nat,
    s: Symbols,
)
    requires
        enc.wf(),
        dec.wf(),
        enc.params.matrix_strategy == MatrixStrategy::Cauchy,
        enc.params.field == dec.params.field,
        enc.params.symbol_size == dec.params.symbol_size,
        laws::all_sized(s, dec.params.symbol_size as nat),
        window_true(enc, s),
        dec.consistent(s),
        covers(enc, cover),
        points_differ(enc.params.field, cover),
        enc.next_coded_id + n <= model::cycle_of(enc.params),
        unknown(dec, cover).len() <= n,
        dec.rows.len() + n <= dec.params.max_matrix_rows,
    ensures
        all_recovered(dec, sent(enc, cover, n), cover, s),
{
    let f = enc.params.field;
    let packets = sent(enc, cover, n);
    assert forall|i: int| 0 <= i < n implies {
        let v = (#[trigger] packets[i]).0;
        &&& v.ids == cover
        &&& v.coded_id == enc.next_coded_id + i
        &&& packets[i].1.len() == dec.params.symbol_size
        &&& matrix::ev_equation(f, v, packets[i].1).holds(f, s)
        &&& forall|j: int|
            0 <= j < cover.len() ==> v.coef(j) == coef_gen::cauchy(
                f,
                #[trigger] cover[j],
                v.coded_id,
                enc.generation,
            )
    } by {
        let e = enc.after_coded_n(i as nat);
        session::lemma_after_coded_n(enc, i as nat);
        session::lemma_coded_id_cycle(enc, i as nat);
        session::lemma_coded_packet_true(e, cover, s);
        assert forall|j: int| 0 <= j < cover.len() implies e.vector(cover).coef(j)
            == coef_gen::cauchy(f, #[trigger] cover[j], e.next_coded_id, enc.generation) by {
            session::lemma_vector_coefs(e, cover, j);
        }
    }
    assert(cauchy_packets(f, packets, cover, enc.generation));
    lemma_cauchy_recovery(dec, packets, cover, enc.generation, s);
}

// ── Vandermonde packets ──────────────────────────────────────────────────

/// Packets with Vandermonde coefficients over the same ids.
pub open spec fn vandermonde_packets(
    f: Field,
    packets: Seq<Taken>,
    cover: Seq<u32>,
) -> bool {
    forall|i: int|
        0 <= i < packets.len() ==> {
            let v = (#[trigger] packets[i]).0;
            &&& v.ids == cover
            &&& forall|j: int|
                0 <= j < cover.len() ==> v.coef(j) == coef_gen::vandermonde(
                    f,
                    #[trigger] cover[j],
                    v.coded_id,
                )
        }
}

/// The rows of these packets.
spec fn vandermonde_rows(f: Field, packets: Seq<Taken>) -> Seq<spec_fn(u32) -> u8> {
    Seq::new(
        packets.len(),
        |i: int| |id: u32| coef_gen::vandermonde(f, id, packets[i].0.coded_id),
    )
}

/// The ids as natural numbers.
pub open spec fn numbers(ids: Seq<u32>) -> Seq<nat> {
    ids.map_values(|id: u32| id as nat)
}

/// The coded ids of packets.
pub open spec fn coded_ids(packets: Seq<Taken>) -> Seq<u32> {
    packets.map_values(|p: Taken| p.0.coded_id)
}

proof fn lemma_vandermonde_row(f: Field, ids: Seq<u32>, coded_id: u32, vals: Seq<u8>, n: nat)
    requires
        n <= ids.len(),
        n <= vals.len(),
    ensures
        row_sum(f, |id: u32| coef_gen::vandermonde(f, id, coded_id), ids, vals, n)
            == vandermonde::row_product(f, numbers(ids), coded_id as nat, vals, n),
    decreases n,
{
    if n > 0 {
        lemma_vandermonde_row(f, ids, coded_id, vals, (n - 1) as nat);
    }
}

proof fn lemma_annihilated_vandermonde(
    f: Field,
    packets: Seq<Taken>,
    ids: Seq<u32>,
    vals: Seq<u8>,
    i: int,
)
    requires
        vals.len() == ids.len(),
        annihilated(f, vandermonde_rows(f, packets), ids, vals),
        0 <= i < packets.len(),
    ensures
        vandermonde::row_product(
            f,
            numbers(ids),
            packets[i].0.coded_id as nat,
            vals,
            ids.len(),
        ) == 0,
{
    let rows = vandermonde_rows(f, packets);
    let c = packets[i].0.coded_id;
    assert(row_sum(f, rows[i], ids, vals, ids.len()) == 0);
    lemma_vandermonde_row(f, ids, c, vals, ids.len());
    assert(rows[i] =~= (|id: u32| coef_gen::vandermonde(f, id, c)));
}

proof fn lemma_vandermonde_have_rows(
    f: Field,
    packets: Seq<Taken>,
    cover: Seq<u32>,
)
    requires
        vandermonde_packets(f, packets, cover),
    ensures
        have_rows(f, packets, cover, vandermonde_rows(f, packets)),
{
    let rows = vandermonde_rows(f, packets);
    assert forall|i: int| 0 <= i < packets.len() implies {
        let v = (#[trigger] packets[i]).0;
        &&& v.ids == cover
        &&& forall|j: int| 0 <= j < cover.len() ==> #[trigger] coef_is(f, v, rows[i], j)
    } by {
        let v = packets[i].0;
        assert forall|j: int| 0 <= j < cover.len() implies #[trigger] coef_is(f, v, rows[i], j) by {
            algebra::lemma_alpha_pow_range(f, cover[j] as nat * v.coded_id as nat);
            assert(v.ids[j] == cover[j]);
        }
    }
}

/// Recovery from any pattern of `k` erasures: `k` consecutive Vandermonde packets
/// recover any `k` missing symbols that they cover.
///
/// No two of the missing ids agree modulo the order of the multiplicative group, and
/// there is room for the equations.
pub proof fn lemma_vandermonde_recovery(
    m: DecoderModel,
    packets: Seq<Taken>,
    cover: Seq<u32>,
    first: u32,
    s: Symbols,
)
    requires
        m.wf(),
        m.consistent(s),
        laws::all_sized(s, m.params.symbol_size as nat),
        cover.no_duplicates(),
        vandermonde::powers_differ(m.params.field, numbers(unknown(m, cover))),
        vandermonde_packets(m.params.field, packets, cover),
        forall|i: int| 0 <= i < packets.len() ==> (#[trigger] packets[i]).0.coded_id == first + i,
        packets_true(m.params.field, m.params.symbol_size as nat, packets, s),
        unknown(m, cover).len() <= packets.len(),
        m.rows.len() + packets.len() <= m.params.max_matrix_rows,
    ensures
        all_recovered(m, packets, cover, s),
{
    let f = m.params.field;
    let rows = vandermonde_rows(f, packets);
    let u = unknown(m, cover);
    assert forall|vals: Seq<u8>|
        vals.len() == u.len() && all_in_field(f, vals) && #[trigger] annihilated(
            f,
            rows,
            u,
            vals,
        ) implies forall|j: int| 0 <= j < vals.len() ==> #[trigger] vals[j] == 0 by {
        assert forall|i: nat| i < u.len() implies #[trigger] vandermonde::row_product(
            f,
            numbers(u),
            first as nat + i,
            vals,
            u.len(),
        ) == 0 by {
            assert(packets[i as int].0.coded_id == first + i);
            lemma_annihilated_vandermonde(f, packets, u, vals, i as int);
        }
        vandermonde::lemma_rows_regular(f, numbers(u), first as nat, vals);
    }
    lemma_vandermonde_have_rows(f, packets, cover);
    lemma_recovery(m, packets, cover, rows, s);
}

/// Recovery from bursts: any `k` Vandermonde packets recover `k` missing symbols in a
/// row.
///
/// No two of the coded ids agree modulo the order of the multiplicative group, and
/// there is room for the equations.
pub proof fn lemma_burst_recovery(
    m: DecoderModel,
    packets: Seq<Taken>,
    cover: Seq<u32>,
    first: u32,
    s: Symbols,
)
    requires
        m.wf(),
        m.consistent(s),
        laws::all_sized(s, m.params.symbol_size as nat),
        cover.no_duplicates(),
        forall|j: int|
            0 <= j < unknown(m, cover).len() ==> #[trigger] unknown(m, cover)[j] == first + j,
        vandermonde_packets(m.params.field, packets, cover),
        vandermonde::powers_differ(m.params.field, numbers(coded_ids(packets))),
        packets_true(m.params.field, m.params.symbol_size as nat, packets, s),
        unknown(m, cover).len() <= packets.len(),
        m.rows.len() + packets.len() <= m.params.max_matrix_rows,
    ensures
        all_recovered(m, packets, cover, s),
{
    let f = m.params.field;
    let rows = vandermonde_rows(f, packets);
    let u = unknown(m, cover);
    assert forall|vals: Seq<u8>|
        vals.len() == u.len() && all_in_field(f, vals) && #[trigger] annihilated(
            f,
            rows,
            u,
            vals,
        ) implies forall|j: int| 0 <= j < vals.len() ==> #[trigger] vals[j] == 0 by {
        let coded = numbers(coded_ids(packets)).take(u.len() as int);
        assert(numbers(u) =~= vandermonde::numbers_from(first as nat, vals.len()));
        assert forall|i: int| 0 <= i < coded.len() implies vandermonde::row_product(
            f,
            vandermonde::numbers_from(first as nat, vals.len()),
            #[trigger] coded[i],
            vals,
            vals.len(),
        ) == 0 by {
            lemma_annihilated_vandermonde(f, packets, u, vals, i);
            assert(coded[i] == packets[i].0.coded_id as nat);
        }
        assert(vandermonde::powers_differ(f, coded)) by {
            let all = numbers(coded_ids(packets));
            assert forall|i: int, j: int| 0 <= i < j < coded.len() implies (#[trigger] coded[i])
                % algebra::group_order(f) != (#[trigger] coded[j]) % algebra::group_order(f) by {
                assert(all[i] % algebra::group_order(f) != all[j] % algebra::group_order(f));
            }
        }
        vandermonde::lemma_columns_regular(f, first as nat, coded, vals);
    }
    lemma_vandermonde_have_rows(f, packets, cover);
    lemma_recovery(m, packets, cover, rows, s);
}

/// Different ids of a range no longer than the order of the multiplicative group
/// have different powers.
pub proof fn lemma_powers_differ(f: Field, ids: Seq<u32>, first: u32)
    requires
        ids.no_duplicates(),
        forall|i: int|
            0 <= i < ids.len() ==> first <= #[trigger] ids[i] < first + algebra::group_order(f),
    ensures
        vandermonde::powers_differ(f, numbers(ids)),
{
    let g = algebra::group_order(f) as int;
    assert forall|i: int, j: int| 0 <= i < j < ids.len() implies (#[trigger] numbers(ids)[i])
        % algebra::group_order(f) != (#[trigger] numbers(ids)[j]) % algebra::group_order(f) by {
        let a = ids[i] as int;
        let b = ids[j] as int;
        assert(a != b);
        if a % g == b % g {
            assert(a == b) by (nonlinear_arith)
                requires
                    g > 0,
                    a % g == b % g,
                    -g < a - b < g,
            ;
        }
    }
}

/// From encoder to decoder: where a Vandermonde encoder sends `n` coded packets inside
/// a cycle, a decoder that misses at most `n` of the covered symbols knows all of
/// them after it has taken in these packets.
pub proof fn lemma_vandermonde_session(
    enc: EncoderModel,
    dec: DecoderModel,
    cover: Seq<u32>,
    n: nat,
    s: Symbols,
)
    requires
        enc.wf(),
        dec.wf(),
        enc.params.matrix_strategy == MatrixStrategy::Vandermonde,
        enc.params.field == dec.params.field,
        enc.params.symbol_size == dec.params.symbol_size,
        laws::all_sized(s, dec.params.symbol_size as nat),
        window_true(enc, s),
        dec.consistent(s),
        covers(enc, cover),
        vandermonde::powers_differ(enc.params.field, numbers(unknown(dec, cover))),
        enc.next_coded_id + n <= model::cycle_of(enc.params) + 1,
        unknown(dec, cover).len() <= n,
        dec.rows.len() + n <= dec.params.max_matrix_rows,
    ensures
        all_recovered(dec, sent(enc, cover, n), cover, s),
{
    let f = enc.params.field;
    let packets = sent(enc, cover, n);
    assert forall|i: int| 0 <= i < n implies {
        let v = (#[trigger] packets[i]).0;
        &&& v.ids == cover
        &&& v.coded_id == enc.next_coded_id + i
        &&& packets[i].1.len() == dec.params.symbol_size
        &&& matrix::ev_equation(f, v, packets[i].1).holds(f, s)
        &&& forall|j: int|
            0 <= j < cover.len() ==> v.coef(j) == coef_gen::vandermonde(
                f,
                #[trigger] cover[j],
                v.coded_id,
            )
    } by {
        let e = enc.after_coded_n(i as nat);
        session::lemma_after_coded_n(enc, i as nat);
        session::lemma_coded_id_cycle(enc, i as nat);
        session::lemma_coded_packet_true(e, cover, s);
    }
    assert(vandermonde_packets(f, packets, cover));
    lemma_vandermonde_recovery(dec, packets, cover, enc.next_coded_id, s);
}

// ── One loss ─────────────────────────────────────────────────────────────

/// A single loss is recovered by either strategy: the next coded packet of the
/// encoder recovers the only symbol that the decoder misses of those it covers.
pub proof fn lemma_single_loss(
    enc: EncoderModel,
    dec: DecoderModel,
    cover: Seq<u32>,
    id: u32,
    s: Symbols,
)
    requires
        enc.wf(),
        dec.wf(),
        enc.params.field == dec.params.field,
        enc.params.symbol_size == dec.params.symbol_size,
        laws::all_sized(s, dec.params.symbol_size as nat),
        window_true(enc, s),
        dec.consistent(s),
        covers(enc, cover),
        cover.contains(id),
        forall|i: int|
            0 <= i < cover.len() && cover[i] != id ==> dec.known.contains_key(#[trigger] cover[i]),
        dec.rows.len() < dec.params.max_matrix_rows,
    ensures
        ({
            let out = dec.coded_taken(enc.vector(cover), enc.payload(cover), enc.told(cover));
            out.known.contains_key(id) && out.known[id] == s(id)
        }),
{
    let f = enc.params.field;
    let v = enc.vector(cover);
    let eq = matrix::ev_equation(f, v, enc.payload(cover));
    session::lemma_coded_packet_true(enc, cover, s);
    let at = cover.index_of(id);
    assert(eq.at(id) != 0) by {
        session::lemma_ev_coefs_present(f, enc, cover, cover.len(), at);
    }
    assert forall|i: u32| #[trigger] eq.at(i) != 0 && i != id implies dec.known.contains_key(i) by {
        if !cover.contains(i) {
            assert forall|j: int| 0 <= j < v.ids.len() implies #[trigger] v.ids[j] != i by {
                assert(cover.contains(cover[j]));
            }
            session::lemma_ev_coefs_absent(f, v, v.ids.len(), i);
        } else {
            assert(dec.known.contains_key(cover[cover.index_of(i)]));
        }
    }
    recovery::lemma_single_erasure(dec, v, enc.payload(cover), enc.told(cover), s, id);
}

} // verus!
