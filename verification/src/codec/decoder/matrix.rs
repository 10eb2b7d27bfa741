//! The decoding matrix: incremental Gaussian elimination.
use std::collections::BTreeMap;
use vstd::prelude::*;

use bytes::Bytes;

use crate::buffers;
use crate::buffers::{bytes_as_slice, bytes_from_vec};
use crate::codec::decoder::dense::{DenseCoefs, MatrixRow};
use crate::codec::decoder::linear;
use crate::codec::decoder::linear::Equation;
use crate::codec::decoder::system;
use crate::codec::decoder::system::Rows;
use crate::config::Field;
use crate::error::{DelpError, Result};
use crate::gf::algebra;
use crate::gf::kernel::reduce;
use crate::ordered;
use crate::ordered::sorted_keys;
use crate::wire::ev::coef_gen::vandermonde_coef;
use crate::wire::ev::{EncodingVector, EvModel};

verus! {

broadcast use {
    vstd::std_specs::btree::group_btree_axioms,
    vstd::laws_cmp::group_laws_cmp,
};

/// The values of the symbols in a map.
pub open spec fn values_of(m: Map<u32, Bytes>) -> Map<u32, Seq<u8>> {
    m.map_values(|b: Bytes| buffers::bytes_view(b))
}

/// `out` lists the symbols of `m` in ascending order.
pub open spec fn lists_symbols(out: Seq<(u32, Bytes)>, m: Map<u32, Seq<u8>>) -> bool {
    &&& forall|i: int, j: int| 0 <= i < j < out.len() ==> out[i].0 < out[j].0
    &&& forall|i: int|
        0 <= i < out.len() ==> m.contains_key((#[trigger] out[i]).0) && buffers::bytes_view(
            out[i].1,
        ) == m[out[i].0]
    &&& forall|id: u32| #[trigger]
        m.contains_key(id) ==> exists|i: int| 0 <= i < out.len() && (#[trigger] out[i]).0 == id
}

/// The coefficients that the first `n` entries of an encoding vector give in the
/// field `f`.  Where an id occurs twice, its last non-zero coefficient counts.
pub open spec fn ev_coefs(f: Field, ev: EvModel, n: nat) -> spec_fn(u32) -> u8
    decreases n,
{
    if n == 0 {
        |id: u32| 0u8
    } else {
        let g = ev_coefs(f, ev, (n - 1) as nat);
        let c = algebra::reduce(f, ev.coef(n - 1));
        if c != 0 {
            |id: u32|
                if id == ev.ids[n - 1] {
                    c
                } else {
                    g(id)
                }
        } else {
            g
        }
    }
}

/// The equation that a coded packet states.
pub open spec fn ev_equation(f: Field, ev: EvModel, payload: Seq<u8>) -> Equation {
    Equation { coef: ev_coefs(f, ev, ev.ids.len()), payload }
}

/// The coefficients that an encoding vector gives are in the field.
pub proof fn lemma_ev_coefs(f: Field, ev: EvModel, n: nat, id: u32)
    ensures
        algebra::in_field(f, ev_coefs(f, ev, n)(id)),
    decreases n,
{
    if n > 0 {
        lemma_ev_coefs(f, ev, (n - 1) as nat, id);
        algebra::lemma_reduce(f, ev.coef(n - 1));
    }
}

/// The equation that a coded packet states is one over the field.
pub proof fn lemma_ev_equation_wf(f: Field, ev: EvModel, payload: Seq<u8>)
    ensures
        ev_equation(f, ev, payload).wf(f, payload.len()),
{
    assert forall|id: u32| algebra::in_field(
        f,
        #[trigger] ev_equation(f, ev, payload).at(id),
    ) by {
        lemma_ev_coefs(f, ev, ev.ids.len(), id);
    }
}

/// Incremental Gaussian elimination.
///
/// The rows are kept in reduced row-echelon form, keyed by their pivots.  An
/// equation is worked in as soon as it is added, so that every symbol is
/// recovered as early as the equations determine it.
#[derive(Debug)]
pub struct DecodingMatrix {
    rows: BTreeMap<u32, MatrixRow>,
    field: Field,
    symbol_size: usize,
    max_rows: usize,
}

spec fn rows_of(m: Map<u32, MatrixRow>) -> Rows {
    m.map_values(|r: MatrixRow| r@)
}

spec fn rows_wf(m: Map<u32, MatrixRow>, f: Field, size: nat) -> bool {
    &&& m.dom().finite()
    &&& forall|k: u32| #[trigger] m.contains_key(k) ==> m[k].wf(f, size)
}

/// Eliminates the pivots of `rows` from `row`.
fn forward_eliminate(
    rows: &BTreeMap<u32, MatrixRow>,
    row: &mut MatrixRow,
    field: Field,
    Ghost(size): Ghost<nat>,
)
    requires
        rows_wf(rows@, field, size),
        old(row).wf(field, size),
    ensures
        final(row).wf(field, size),
        final(row)@ == system::eliminated(field, old(row)@, rows_of(rows@), linear::id_count()),
{
    let ks = sorted_keys(rows);
    let ghost rs = rows_of(rows@);
    let mut i: usize = 0;
    let ghost mut done: nat = 0;
    while i < ks.len()
        invariant
            i <= ks@.len(),
            ordered::lists_keys(ks@, rows@),
            rows_wf(rows@, field, size),
            rs == rows_of(rows@),
            row.wf(field, size),
            done <= linear::id_count(),
            done == (if i == 0 { 0 } else { ks@[i - 1] as nat + 1 }),
            row@ == system::eliminated(field, old(row)@, rs, done),
        decreases ks@.len() - i,
    {
        let pid: u32 = ks[i];
        proof {
            lemma_no_key_between(ks@, rs, i as int);
            system::lemma_eliminated_gap(field, old(row)@, rs, done, pid as nat);
            assert(ks@.contains(pid));
            assert(rs.contains_key(pid) && rs[pid] == rows@[pid]@);
            assert(((pid as nat + 1) - 1) as u32 == pid);
        }
        let c: u8 = row.coefs.get(pid);
        assert(c == row@.at(pid));
        assert(algebra::in_field(field, row@.at(pid)));
        if let Some(existing) = rows.get(&pid) {
            if c != 0 {
                row.subtract_scaled(existing, c, field, Ghost(size));
            } else {
                proof {
                    linear::lemma_plus_scaled_zero(field, row@, existing@, size);
                }
            }
        }
        proof {
            done = pid as nat + 1;
        }
        i += 1;
    }
    proof {
        lemma_no_key_after(ks@, rs);
        system::lemma_eliminated_gap(field, old(row)@, rs, done, linear::id_count());
    }
}

proof fn lemma_no_key_between<V>(ks: Seq<u32>, m: Map<u32, V>, i: int)
    requires
        ordered::lists_keys(ks, m),
        0 <= i < ks.len(),
    ensures
        forall|id: u32|
            (if i == 0 { 0 } else { ks[i - 1] + 1 }) <= id < ks[i] ==> !#[trigger] m.contains_key(
                id,
            ),
{
    assert forall|id: u32|
        (if i == 0 { 0 } else { ks[i - 1] + 1 }) <= id < ks[i] implies !#[trigger] m.contains_key(
        id,
    ) by {
        if m.contains_key(id) {
            assert(ks.contains(id));
            let j = ks.index_of(id);
            if j > i {
                assert(ks[i] < ks[j]);
            }
            if j < i - 1 {
                assert(ks[j] < ks[i - 1]);
            }
        }
    }
}

proof fn lemma_no_key_after<V>(ks: Seq<u32>, m: Map<u32, V>)
    requires
        ordered::lists_keys(ks, m),
    ensures
        forall|id: u32|
            (if ks.len() == 0 { 0 } else { ks[ks.len() - 1] + 1 }) <= id
                ==> !#[trigger] m.contains_key(id),
{
    assert forall|id: u32|
        (if ks.len() == 0 { 0 } else { ks[ks.len() - 1] + 1 }) <= id implies !#[trigger] m.contains_key(
        id,
    ) by {
        if m.contains_key(id) {
            assert(ks.contains(id));
            let j = ks.index_of(id);
            if j < ks.len() - 1 {
                assert(ks[j] < ks[ks.len() - 1]);
            }
        }
    }
}

/// Eliminates the pivot `new_pivot` of `new_row` from every row.
fn back_substitute(
    rows: &mut BTreeMap<u32, MatrixRow>,
    new_pivot: u32,
    new_row: &MatrixRow,
    field: Field,
    Ghost(size): Ghost<nat>,
)
    requires
        rows_wf(old(rows)@, field, size),
        new_row.wf(field, size),
    ensures
        rows_wf(final(rows)@, field, size),
        rows_of(final(rows)@) == system::back_substituted(
            field,
            rows_of(old(rows)@),
            new_pivot,
            new_row@,
        ),
        final(rows)@.dom() == old(rows)@.dom(),
{
    let ks = sorted_keys(rows);
    let ghost before = rows@;
    let mut i: usize = 0;
    while i < ks.len()
        invariant
            i <= ks@.len(),
            ordered::lists_keys(ks@, before),
            rows_wf(before, field, size),
            rows_wf(rows@, field, size),
            new_row.wf(field, size),
            rows@.dom() == before.dom(),
            forall|j: int|
                0 <= j < i ==> rows@[#[trigger] ks@[j]]@ == before[ks@[j]]@.plus_scaled(
                    field,
                    before[ks@[j]]@.at(new_pivot),
                    new_row@,
                ),
            forall|j: int| i <= j < ks@.len() ==> rows@[#[trigger] ks@[j]] == before[ks@[j]],
        decreases ks@.len() - i,
    {
        let pid: u32 = ks[i];
        assert(ks@.contains(pid));
        assert(before.contains_key(pid));
        assert(rows@.dom().contains(pid));
        assert(rows@.contains_key(pid));
        let ghost cur = rows@;
        if let Some(r) = rows.remove(&pid) {
            let mut row = r;
            let c: u8 = row.coefs.get(new_pivot);
            assert(c == row@.at(new_pivot));
            assert(algebra::in_field(field, row@.at(new_pivot)));
            if c != 0 {
                row.subtract_scaled(new_row, c, field, Ghost(size));
            } else {
                proof {
                    linear::lemma_plus_scaled_zero(field, row@, new_row@, size);
                }
            }
            let ghost updated = row;
            rows.insert(pid, row);
            proof {
                assert(rows@ =~= cur.insert(pid, updated));
                assert(rows@.dom() =~= before.dom());
                assert forall|j: int| 0 <= j < ks@.len() && j != i implies rows@[#[trigger] ks@[j]]
                    == cur[ks@[j]] by {
                    if j < i {
                        assert(ks@[j] < ks@[i as int]);
                    } else {
                        assert(ks@[i as int] < ks@[j]);
                    }
                }
            }
        }
        i += 1;
    }
    proof {
        let want = system::back_substituted(field, rows_of(before), new_pivot, new_row@);
        let got = rows_of(rows@);
        assert(got.dom() =~= want.dom());
        assert forall|k: u32| #[trigger] got.contains_key(k) implies got[k] == want[k] by {
            assert(before.contains_key(k));
            assert(ks@.contains(k));
            let j = ks@.index_of(k);
            assert(rows@[ks@[j]]@ == before[ks@[j]]@.plus_scaled(
                field,
                before[ks@[j]]@.at(new_pivot),
                new_row@,
            ));
        }
        assert(got =~= want);
    }
}

/// Puts in the value of the symbol `id` in every row.
fn substitute_all(
    rows: &mut BTreeMap<u32, MatrixRow>,
    id: u32,
    data: &[u8],
    field: Field,
    Ghost(size): Ghost<nat>,
)
    requires
        rows_wf(old(rows)@, field, size),
        data@.len() == size,
    ensures
        rows_wf(final(rows)@, field, size),
        rows_of(final(rows)@) == system::put_in(field, rows_of(old(rows)@), id, data@),
        final(rows)@.dom() == old(rows)@.dom(),
{
    let ks = sorted_keys(rows);
    let ghost before = rows@;
    let mut i: usize = 0;
    while i < ks.len()
        invariant
            i <= ks@.len(),
            ordered::lists_keys(ks@, before),
            rows_wf(before, field, size),
            rows_wf(rows@, field, size),
            data@.len() == size,
            rows@.dom() == before.dom(),
            forall|j: int|
                0 <= j < i ==> rows@[#[trigger] ks@[j]]@ == before[ks@[j]]@.substituted(
                    field,
                    id,
                    data@,
                ),
            forall|j: int| i <= j < ks@.len() ==> rows@[#[trigger] ks@[j]] == before[ks@[j]],
        decreases ks@.len() - i,
    {
        let pid: u32 = ks[i];
        assert(ks@.contains(pid));
        assert(before.contains_key(pid));
        assert(rows@.dom().contains(pid));
        assert(rows@.contains_key(pid));
        let ghost cur = rows@;
        if let Some(r) = rows.remove(&pid) {
            let mut row = r;
            row.substitute(id, data, field, Ghost(size));
            let ghost updated = row;
            rows.insert(pid, row);
            proof {
                assert(rows@ =~= cur.insert(pid, updated));
                assert(rows@.dom() =~= before.dom());
                assert forall|j: int| 0 <= j < ks@.len() && j != i implies rows@[#[trigger] ks@[j]]
                    == cur[ks@[j]] by {
                    if j < i {
                        assert(ks@[j] < ks@[i as int]);
                    } else {
                        assert(ks@[i as int] < ks@[j]);
                    }
                }
            }
        }
        i += 1;
    }
    proof {
        let want = system::put_in(field, rows_of(before), id, data@);
        let got = rows_of(rows@);
        assert(got.dom() =~= want.dom());
        assert forall|k: u32| #[trigger] got.contains_key(k) implies got[k] == want[k] by {
            assert(before.contains_key(k));
            assert(ks@.contains(k));
            let j = ks@.index_of(k);
            assert(rows@[ks@[j]]@ == before[ks@[j]]@.substituted(field, id, data@));
        }
        assert(got =~= want);
    }
}

/// Normalises a row and adds it, with its pivot eliminated from the others.
fn add_row(
    rows: &mut BTreeMap<u32, MatrixRow>,
    row: MatrixRow,
    field: Field,
    Ghost(size): Ghost<nat>,
) -> (r: Result<()>)
    requires
        rows_wf(old(rows)@, field, size),
        row.wf(field, size),
        !row@.is_zero(),
    ensures
        r is Ok,
        rows_wf(final(rows)@, field, size),
        rows_of(final(rows)@) == system::with_row(field, rows_of(old(rows)@), row@),
{
    let mut new_row = row;
    new_row.normalize(field, Ghost(size))?;
    proof {
        system::lemma_normalized(field, row@, size);
    }
    match new_row.coefs.pivot_id() {
        Some(p) => {
            proof {
                assert forall|id: u32| id < p implies #[trigger] new_row@.at(id) == 0 by {
                    assert(new_row.coefs.at(id) == 0);
                }
                assert(new_row@.at(p) != 0);
                linear::lemma_pivot_unique(new_row@, p, row@.pivot());
            }
            back_substitute(rows, p, &new_row, field, Ghost(size));
            let ghost mid = rows@;
            let ghost added = new_row;
            rows.insert(p, new_row);
            proof {
                assert(rows@ =~= mid.insert(p, added));
                assert(rows_of(rows@) =~= rows_of(mid).insert(p, added@));
            }
            Ok(())
        },
        None => {
            proof {
                assert(new_row.coefs.at(row@.pivot()) == 0);
                assert(new_row@.at(row@.pivot()) == 1);
            }
            Err(DelpError::MalformedEncodingVector { reason: "no pivot after elimination" })
        },
    }
}

/// Takes out the rows that determine a symbol, in ascending order.
fn extract_solved(
    rows: &mut BTreeMap<u32, MatrixRow>,
    field: Field,
    Ghost(size): Ghost<nat>,
) -> (out: Vec<(u32, Bytes)>)
    requires
        rows_wf(old(rows)@, field, size),
        system::reduced(field, rows_of(old(rows)@), size),
    ensures
        rows_wf(final(rows)@, field, size),
        rows_of(final(rows)@) == system::unsolved_part(rows_of(old(rows)@)),
        lists_symbols(out@, system::solved_part(rows_of(old(rows)@))),
{
    let ks = sorted_keys(rows);
    let ghost before = rows@;
    let ghost rs = rows_of(before);
    let mut out: Vec<(u32, Bytes)> = Vec::new();
    let mut i: usize = 0;
    while i < ks.len()
        invariant
            i <= ks@.len(),
            ordered::lists_keys(ks@, before),
            rs == rows_of(before),
            rows_wf(before, field, size),
            rows_wf(rows@, field, size),
            system::reduced(field, rs, size),
            forall|k: u32| #[trigger]
                rows@.contains_key(k) <==> before.contains_key(k) && !(system::solves(rs, k)
                    && exists|j: int| 0 <= j < i && #[trigger] ks@[j] == k),
            forall|k: u32| #[trigger] rows@.contains_key(k) ==> rows@[k] == before[k],
            forall|a: int, b: int| 0 <= a < b < out@.len() ==> out@[a].0 < out@[b].0,
            forall|a: int|
                0 <= a < out@.len() ==> system::solves(rs, (#[trigger] out@[a]).0)
                    && buffers::bytes_view(out@[a].1) == rs[out@[a].0].payload && (i == 0
                    || out@[a].0 <= ks@[i - 1]),
            out@.len() > 0 ==> i > 0,
            forall|j: int|
                0 <= j < i && system::solves(rs, #[trigger] ks@[j]) ==> exists|a: int|
                    0 <= a < out@.len() && (#[trigger] out@[a]).0 == ks@[j],
        decreases ks@.len() - i,
    {
        let pid: u32 = ks[i];
        let ghost cur = rows@;
        let ghost cur_out = out@;
        proof {
            assert(ks@.contains(pid));
            assert(before.contains_key(pid));
            assert(forall|j: int| 0 <= j < i ==> #[trigger] ks@[j] < pid);
            assert(rows@.contains_key(pid));
            assert(rs.contains_key(pid) && rs[pid] == before[pid]@);
            assert(rs[pid].is_pivot(pid));
        }
        let mut solved: bool = false;
        if let Some(row) = rows.get(&pid) {
            match row.coefs.is_solved() {
                Some(q) => {
                    proof {
                        assert(rs[pid].at(pid) == 1);
                        assert(row.coefs.at(pid) == 1);
                        assert(q == pid);
                        assert forall|id: u32| id != pid implies #[trigger] rs[pid].at(id) == 0 by {
                            assert(row.coefs.at(id) == 0);
                        }
                        assert(system::solves(rs, pid));
                    }
                    solved = true;
                },
                None => {
                    proof {
                        assert(rs[pid].at(pid) == 1);
                        assert(row.coefs.at(pid) != 0);
                        let w = choose|id: u32| id != pid && #[trigger] row.coefs.at(id) != 0;
                        assert(rs[pid].at(w) != 0);
                        assert(!system::solves(rs, pid));
                    }
                },
            }
        }
        if solved {
            if let Some(row) = rows.remove(&pid) {
                let sym = bytes_from_vec(row.payload);
                out.push((pid, sym));
                proof {
                    assert(rows@ =~= cur.remove(pid));
                    assert(out@ == cur_out.push((pid, sym)));
                    assert(out@[cur_out.len() as int].0 == pid);
                    assert forall|a: int, b: int| 0 <= a < b < out@.len() implies out@[a].0
                        < out@[b].0 by {
                        if b == cur_out.len() {
                            assert(cur_out[a].0 <= ks@[i - 1]);
                        }
                    }
                }
            }
        }
        proof {
            assert forall|k: u32| #[trigger] rows@.contains_key(k) <==> before.contains_key(k)
                && !(system::solves(rs, k) && exists|j: int|
                0 <= j < i + 1 && #[trigger] ks@[j] == k) by {
                if k == pid {
                    assert(ks@[i as int] == k);
                } else if exists|j: int| 0 <= j < i + 1 && #[trigger] ks@[j] == k {
                    let j = choose|j: int| 0 <= j < i + 1 && #[trigger] ks@[j] == k;
                    assert(j < i);
                }
            }
            assert forall|j: int|
                0 <= j < i + 1 && system::solves(rs, #[trigger] ks@[j]) implies exists|a: int|
                0 <= a < out@.len() && (#[trigger] out@[a]).0 == ks@[j] by {
                if j < i {
                    let a = choose|a: int|
                        0 <= a < cur_out.len() && (#[trigger] cur_out[a]).0 == ks@[j];
                    assert(out@[a] == cur_out[a]);
                } else {
                    assert(out@[cur_out.len() as int].0 == pid);
                }
            }
            assert forall|a: int| 0 <= a < out@.len() implies system::solves(
                rs,
                (#[trigger] out@[a]).0,
            ) && buffers::bytes_view(out@[a].1) == rs[out@[a].0].payload && out@[a].0
                <= ks@[i as int] by {
                if a < cur_out.len() {
                    assert(out@[a] == cur_out[a]);
                    if i > 0 {
                        assert(ks@[i - 1] < ks@[i as int]);
                    }
                }
            }
        }
        i += 1;
    }
    proof {
        let want = system::unsolved_part(rs);
        let got = rows_of(rows@);
        assert forall|k: u32| got.contains_key(k) <==> want.contains_key(k) by {
            if before.contains_key(k) {
                assert(ks@.contains(k));
                let j = ks@.index_of(k);
                assert(ks@[j] == k);
                assert(rs.contains_key(k));
            }
            assert(got.contains_key(k) <==> rows@.contains_key(k));
        }
        assert(got =~= want) by {
            assert forall|k: u32| #[trigger] got.contains_key(k) implies got[k] == want[k] by {
                assert(rows@.contains_key(k));
            }
        }
        let sp = system::solved_part(rs);
        assert forall|id: u32| #[trigger] sp.contains_key(id) implies exists|a: int|
            0 <= a < out@.len() && (#[trigger] out@[a]).0 == id by {
            assert(rs.contains_key(id));
            assert(before.contains_key(id));
            assert(ks@.contains(id));
            let j = ks@.index_of(id);
            assert(system::solves(rs, ks@[j]));
        }
        assert(lists_symbols(out@, sp));
    }
    out
}

impl DecodingMatrix {
    /// The rows, keyed by their pivots.
    pub closed spec fn rows(&self) -> Rows {
        rows_of(self.rows@)
    }

    /// The field of the coefficients.
    pub closed spec fn kind(&self) -> Field {
        self.field
    }

    /// The length of the payloads.
    pub closed spec fn size(&self) -> nat {
        self.symbol_size as nat
    }

    /// The number of rows beyond which rows are evicted.
    pub closed spec fn limit(&self) -> nat {
        self.max_rows as nat
    }

    /// The rows are in reduced row-echelon form, and none determines a symbol.
    pub closed spec fn wf(&self) -> bool {
        &&& rows_wf(self.rows@, self.field, self.symbol_size as nat)
        &&& system::reduced(self.kind(), self.rows(), self.size())
        &&& system::unsolved(self.rows())
    }

    /// What a well-formed matrix guarantees.
    pub proof fn lemma_wf(&self)
        requires
            self.wf(),
        ensures
            system::reduced(self.kind(), self.rows(), self.size()),
            system::unsolved(self.rows()),
    {
    }

    /// An empty matrix.
    pub fn new(field: Field, symbol_size: usize, max_rows: usize) -> (r: Self)
        ensures
            r.wf(),
            r.rows() == Map::<u32, Equation>::empty(),
            r.kind() == field,
            r.size() == symbol_size,
            r.limit() == max_rows,
    {
        let r = Self { rows: BTreeMap::new(), field, symbol_size, max_rows };
        assert(r.rows() =~= Map::<u32, Equation>::empty());
        r
    }

    /// Adds a coded equation.
    ///
    /// Returns the source symbols that it determines, together with the rows so
    /// far, in ascending order.
    pub fn add_coded(
        &mut self,
        ev: &EncodingVector,
        payload: &[u8],
        known_sources: &BTreeMap<u32, Bytes>,
    ) -> (r: Result<Vec<(u32, Bytes)>>)
        requires
            old(self).wf(),
            ev@.complete(),
            payload@.len() == old(self).size(),
            system::sized(values_of(known_sources@), old(self).size()),
        ensures
            final(self).wf(),
            final(self).kind() == old(self).kind(),
            final(self).size() == old(self).size(),
            final(self).limit() == old(self).limit(),
            r is Ok,
            ({
                let next = system::after_coded(
                    old(self).kind(),
                    old(self).rows(),
                    ev_equation(old(self).kind(), ev@, payload@),
                    values_of(known_sources@),
                    old(self).limit(),
                );
                &&& final(self).rows() == system::unsolved_part(next)
                &&& lists_symbols(r->Ok_0@, system::solved_part(next))
            }),
    {
        let ghost f = self.field;
        let ghost size = self.symbol_size as nat;
        let ghost before = self.rows();
        let ghost eq = ev_equation(f, ev@, payload@);
        let ghost known = values_of(known_sources@);
        let ids: &[u32] = ev.source_ids.as_slice();
        let explicit: &[u8] = ev.coefficients.as_slice();

        let mut coef_map: BTreeMap<u32, u8> = BTreeMap::new();
        let mut i: usize = 0;
        while i < ids.len()
            invariant
                i <= ids@.len(),
                ids@ == ev@.ids,
                explicit@ == ev@.coefs,
                ev@.complete(),
                f == self.field,
                forall|id: u32|
                    (if coef_map@.contains_key(id) { coef_map@[id] } else { 0 })
                        == #[trigger] ev_coefs(f, ev@, i as nat)(id),
                forall|id: u32|
                    algebra::in_field(f, #[trigger] ev_coefs(f, ev@, i as nat)(id)),
                *self == *old(self),
                self.wf(),
            decreases ids@.len() - i,
        {
            let id: u32 = ids[i];
            let raw: u8 = if explicit.len() > 0 {
                explicit[i]
            } else if ev.coded_id == 0 {
                assert(id as nat * 0 == 0) by (nonlinear_arith);
                1
            } else {
                vandermonde_coef(ev.field, id, ev.coded_id)
            };
            let c: u8 = reduce(self.field, raw);
            let ghost prev = coef_map@;
            let ghost g = ev_coefs(f, ev@, i as nat);
            if c != 0 {
                coef_map.insert(id, c);
            }
            proof {
                let g2 = ev_coefs(f, ev@, (i + 1) as nat);
                assert(c == algebra::reduce(f, ev@.coef(i as int)));
                assert forall|x: u32|
                    (if coef_map@.contains_key(x) { coef_map@[x] } else { 0 }) == #[trigger] g2(x)
                        && algebra::in_field(f, g2(x)) by {
                    assert((if prev.contains_key(x) { prev[x] } else { 0 }) == g(x));
                    assert(algebra::in_field(f, g(x)));
                }
            }
            i += 1;
        }
        let coefs = DenseCoefs::from_map(&coef_map);
        let mut row = MatrixRow { coefs, payload: vstd::slice::slice_to_vec(payload) };
        proof {
            assert forall|id: u32| #[trigger] (row@.coef)(id) == (eq.coef)(id) by {
                assert(row.coefs.at(id) == (if coef_map@.contains_key(id) {
                    coef_map@[id]
                } else {
                    0
                }));
                assert(ev_coefs(f, ev@, ids@.len())(id) == row.coefs.at(id));
            }
            assert(row@.coef =~= eq.coef);
            assert(row@ == eq);
            assert forall|id: u32| algebra::in_field(f, #[trigger] eq.at(id)) by {
                assert(algebra::in_field(f, ev_coefs(f, ev@, ids@.len())(id)));
            }
        }

        // put in the known symbols
        let ks = sorted_keys(known_sources);
        let mut i: usize = 0;
        let ghost mut done: nat = 0;
        while i < ks.len()
            invariant
                i <= ks@.len(),
                ordered::lists_keys(ks@, known_sources@),
                known == values_of(known_sources@),
                system::sized(known, size),
                f == self.field,
                row.wf(f, size),
                done <= linear::id_count(),
                done == (if i == 0 { 0 } else { ks@[i - 1] as nat + 1 }),
                row@ == system::known_put_in(f, eq, known, done),
                *self == *old(self),
            decreases ks@.len() - i,
        {
            let id: u32 = ks[i];
            proof {
                lemma_no_key_between(ks@, known, i as int);
                system::lemma_known_gap(f, eq, known, done, id as nat);
                assert(ks@.contains(id));
                assert(known.contains_key(id));
                assert(((id as nat + 1) - 1) as u32 == id);
            }
            if let Some(data) = known_sources.get(&id) {
                row.substitute(id, bytes_as_slice(data), self.field, Ghost(size));
            }
            proof {
                done = id as nat + 1;
            }
            i += 1;
        }
        proof {
            lemma_no_key_after(ks@, known);
            system::lemma_known_gap(f, eq, known, done, linear::id_count());
        }

        forward_eliminate(&self.rows, &mut row, self.field, Ghost(size));
        let ghost e = row@;
        proof {
            system::lemma_after_coded_reduced(f, before, eq, known, self.max_rows as nat, size);
        }
        if row.coefs.is_zero() {
            proof {
                assert forall|id: u32| #[trigger] e.at(id) == 0 by {
                    assert(row.coefs.at(id) == 0);
                }
                assert(system::unsolved_part(before) =~= before);
            }
            return Ok(Vec::new());
        }
        assert(!e.is_zero()) by {
            let w = choose|id: u32| #[trigger] row.coefs.at(id) != 0;
            assert(e.at(w) != 0);
        }
        assert(self.rows().dom() =~= self.rows@.dom());
        if self.rows.len() >= self.max_rows {
            self.evict_first();
        }
        add_row(&mut self.rows, row, self.field, Ghost(size))?;
        let recovered = extract_solved(&mut self.rows, self.field, Ghost(size));
        proof {
            let next = system::after_coded(f, before, eq, known, self.max_rows as nat);
            system::lemma_unsolved_part(f, next, size);
        }
        Ok(recovered)
    }

    /// Removes the row of the smallest pivot, if there is any row.
    fn evict_first(&mut self)
        requires
            old(self).wf(),
            old(self).rows().len() >= old(self).limit(),
        ensures
            rows_wf(final(self).rows@, final(self).field, final(self).size()),
            final(self).field == old(self).field,
            final(self).symbol_size == old(self).symbol_size,
            final(self).max_rows == old(self).max_rows,
            final(self).rows() == system::evicted(old(self).rows(), old(self).limit()),
    {
        let ks = sorted_keys(&self.rows);
        let ghost before = self.rows@;
        proof {
            assert(rows_of(before).dom() =~= before.dom());
        }
        if ks.len() > 0 {
            let oldest: u32 = ks[0];
            proof {
                assert(ks@.contains(oldest));
                let rs = rows_of(before);
                assert forall|p: u32| #[trigger] rs.contains_key(p) implies oldest <= p by {
                    assert(before.contains_key(p));
                    assert(ks@.contains(p));
                    let j = ks@.index_of(p);
                    if j > 0 {
                        assert(ks@[0] < ks@[j]);
                    }
                }
                assert(system::is_first(rs, oldest));
                let k = choose|k: u32| system::is_first(rs, k);
                assert(system::is_first(rs, k));
                assert(rs.contains_key(k) && rs.contains_key(oldest));
                assert(k == oldest);
            }
            self.rows.remove(&oldest);
            proof {
                assert(self.rows@ =~= before.remove(oldest));
                assert(rows_of(self.rows@) =~= rows_of(before).remove(oldest));
            }
        }
    }

    /// Tells the matrix that a source symbol has been received or recovered.
    ///
    /// Its value is put in everywhere.  Returns the source symbols that the rows
    /// determine thereby, in ascending order.  The symbols known before have been
    /// put in already, so that nothing has to be read from them.
    pub fn add_known_source(
        &mut self,
        id: u32,
        data: Bytes,
        _known_sources: &BTreeMap<u32, Bytes>,
    ) -> (r: Result<Vec<(u32, Bytes)>>)
        requires
            old(self).wf(),
            buffers::bytes_view(data).len() == old(self).size(),
        ensures
            final(self).wf(),
            final(self).kind() == old(self).kind(),
            final(self).size() == old(self).size(),
            final(self).limit() == old(self).limit(),
            r is Ok,
            ({
                let next = system::after_source(
                    old(self).kind(),
                    old(self).rows(),
                    id,
                    buffers::bytes_view(data),
                );
                &&& final(self).rows() == system::unsolved_part(next)
                &&& lists_symbols(r->Ok_0@, system::solved_part(next))
            }),
    {
        let ghost f = self.field;
        let ghost size = self.symbol_size as nat;
        let ghost before = self.rows();
        let ghost value = buffers::bytes_view(data);
        let ghost next = system::after_source(f, before, id, value);
        proof {
            system::lemma_after_source_reduced(f, before, id, value, size);
            assert(before.contains_key(id) <==> self.rows@.contains_key(id));
        }
        substitute_all(&mut self.rows, id, bytes_as_slice(&data), self.field, Ghost(size));
        let ghost mid = self.rows@;
        assert(mid.contains_key(id) <==> before.contains_key(id)) by {
            assert(mid.dom().contains(id) <==> old(self).rows@.dom().contains(id));
        }
        if let Some(row) = self.rows.remove(&id) {
            proof {
                assert(self.rows@ =~= mid.remove(id));
                assert(rows_of(self.rows@) =~= rows_of(mid).remove(id));
                assert(rows_of(mid)[id] == row@);
            }
            if !row.coefs.is_zero() {
                proof {
                    let w = choose|x: u32| #[trigger] row.coefs.at(x) != 0;
                    assert(row@.at(w) != 0);
                }
                add_row(&mut self.rows, row, self.field, Ghost(size))?;
            } else {
                proof {
                    assert forall|x: u32| #[trigger] row@.at(x) == 0 by {
                        assert(row.coefs.at(x) == 0);
                    }
                }
            }
        } else {
            proof {
                assert(self.rows@ =~= mid);
            }
        }
        assert(rows_of(self.rows@) == next);
        let recovered = extract_solved(&mut self.rows, self.field, Ghost(size));
        proof {
            system::lemma_unsolved_part(f, next, size);
        }
        Ok(recovered)
    }

    /// The number of rows.
    pub fn row_count(&self) -> (r: usize)
        ensures
            r == self.rows().len(),
    {
        proof {
            assert(self.rows().dom() =~= self.rows@.dom());
        }
        self.rows.len()
    }
}

} // verus!
