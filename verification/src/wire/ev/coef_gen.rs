//! Generation of the coefficients of coded packets.
//!
//! A coefficient is a function of the source id and the coded id, by one of two
//! constructions: Vandermonde, `alpha^(source_id * coded_id)`, or Cauchy,
//! `1 / (x + y)` with a point `x` per source id and a point `y` per coded id.
use vstd::prelude::*;

use crate::buffers::CoefList;
use crate::config::Field;
use crate::gf::algebra;
use crate::gf::cauchy;
use crate::gf::{Field as GfField, Gf2_4, Gf2_8};

verus! {

// ── Vandermonde ──────────────────────────────────────────────────────────

/// The Vandermonde coefficient of a source id in a coded packet.
pub open spec fn vandermonde(f: Field, src_id: u32, coded_id: u32) -> u8 {
    algebra::alpha_pow(f, src_id as nat * coded_id as nat)
}

/// One Vandermonde coefficient in the selected field.
///
/// A `coded_id` of zero would make every coefficient one.
pub fn vandermonde_coef(field: Field, src_id: u32, coded_id: u32) -> (r: u8)
    requires
        coded_id >= 1,
    ensures
        r == vandermonde(field, src_id, coded_id),
        algebra::in_field(field, r),
        r != 0,
{
    proof {
        algebra::lemma_alpha_pow_range(field, src_id as nat * coded_id as nat);
    }
    match field {
        Field::Gf2_8 => Gf2_8::vandermonde(src_id, coded_id).to_u8(),
        Field::Gf2_4 => Gf2_4::vandermonde(src_id, coded_id).to_u8(),
    }
}

/// The GF(2^4) coefficients of two source ids, packed into one byte.
pub fn vandermonde_packed_gf2_4(src_id_hi: u32, src_id_lo: u32, coded_id: u32) -> (r: u8)
    requires
        coded_id >= 1,
    ensures
        r == algebra::pack(
            vandermonde(Field::Gf2_4, src_id_hi, coded_id),
            vandermonde(Field::Gf2_4, src_id_lo, coded_id),
        ),
{
    let hi: u8 = vandermonde_coef(Field::Gf2_4, src_id_hi, coded_id);
    let lo: u8 = vandermonde_coef(Field::Gf2_4, src_id_lo, coded_id);
    (hi << 4) | lo
}

/// The Vandermonde coefficients of a list of source ids, one byte per id.
///
/// In GF(2^4) the coefficient is the low nibble of its byte.
pub fn vandermonde_batch(field: Field, source_ids: &[u32], coded_id: u32) -> (r: CoefList)
    requires
        coded_id >= 1,
    ensures
        r@ == Seq::new(
            source_ids@.len(),
            |i: int| vandermonde(field, source_ids@[i], coded_id),
        ),
{
    let mut out = CoefList::new();
    let mut i: usize = 0;
    while i < source_ids.len()
        invariant
            i <= source_ids@.len(),
            coded_id >= 1,
            out@.len() == i,
            forall|k: int|
                0 <= k < i ==> #[trigger] out@[k] == vandermonde(field, source_ids@[k], coded_id),
        decreases source_ids@.len() - i,
    {
        out.push(vandermonde_coef(field, source_ids[i], coded_id));
        i += 1;
    }
    assert(out@ =~= Seq::new(
        source_ids@.len(),
        |i: int| vandermonde(field, source_ids@[i], coded_id),
    ));
    out
}

/// The row of a Vandermonde matrix that belongs to one coded id.
pub struct VandermondeRow {
    field: Field,
    coded_id: u32,
}

impl VandermondeRow {
    #[verifier::type_invariant]
    spec fn positive(self) -> bool {
        self.coded_id >= 1
    }

    /// The field of the row.
    pub closed spec fn row_field(self) -> Field {
        self.field
    }

    /// The coded id of the row.
    pub closed spec fn row_id(self) -> u32 {
        self.coded_id
    }

    /// The row of `coded_id`.
    pub fn new(field: Field, coded_id: u32) -> (r: Self)
        requires
            coded_id >= 1,
        ensures
            r.row_field() == field,
            r.row_id() == coded_id,
    {
        Self { field, coded_id }
    }

    /// The coefficient of a source id in this row.
    pub fn coef(&self, src_id: u32) -> (r: u8)
        ensures
            r == vandermonde(self.row_field(), src_id, self.row_id()),
    {
        proof {
            use_type_invariant(self);
        }
        vandermonde_coef(self.field, src_id, self.coded_id)
    }
}

/// The determinant of the 2x2 Vandermonde matrix over the source ids `s0`, `s1`
/// and the coded ids `c0`, `c1`.
pub open spec fn vandermonde_det(f: Field, s0: u32, s1: u32, c0: u32, c1: u32) -> u8 {
    algebra::fmul(f, vandermonde(f, s0, c0), vandermonde(f, s1, c1)) ^ algebra::fmul(
        f,
        vandermonde(f, s1, c0),
        vandermonde(f, s0, c1),
    )
}

/// A 2x2 Vandermonde matrix is singular exactly where the product of the
/// difference of the source ids and the difference of the coded ids is a
/// multiple of the order of the multiplicative group.
pub proof fn lemma_vandermonde_2x2(f: Field, s0: u32, s1: u32, c0: u32, c1: u32)
    ensures
        vandermonde_det(f, s0, s1, c0, c1) == 0 <==> ((s1 - s0) * (c1 - c0)) % (
        algebra::group_order(f) as int) == 0,
{
    let m = algebra::group_order(f);
    let a = s0 as nat * c0 as nat + s1 as nat * c1 as nat;
    let b = s1 as nat * c0 as nat + s0 as nat * c1 as nat;
    algebra::lemma_alpha_pow_add(f, s0 as nat * c0 as nat, s1 as nat * c1 as nat);
    algebra::lemma_alpha_pow_add(f, s1 as nat * c0 as nat, s0 as nat * c1 as nat);
    algebra::lemma_xor(algebra::alpha_pow(f, a), algebra::alpha_pow(f, b), 0, 0);
    algebra::lemma_alpha_pow_period(f, a);
    algebra::lemma_alpha_pow_period(f, b);
    if algebra::alpha_pow(f, a) == algebra::alpha_pow(f, b) {
        crate::gf::tables::lemma_alpha_pow_injective(f, a % m, b % m);
    }
    assert((s1 - s0) * (c1 - c0) == a - b) by (nonlinear_arith)
        requires
            a == s0 as nat * c0 as nat + s1 as nat * c1 as nat,
            b == s1 as nat * c0 as nat + s0 as nat * c1 as nat,
    ;
    vstd::arithmetic::div_mod::lemma_mod_equivalence(a as int, b as int, m as int);
}

// ── Cauchy ───────────────────────────────────────────────────────────────

/// The number of coded ids of one generation of a Cauchy matrix.
pub open spec fn cauchy_cycle(f: Field) -> nat {
    match f {
        Field::Gf2_8 => 128,
        Field::Gf2_4 => 7,
    }
}

/// The point of a source id.
pub open spec fn cauchy_x(f: Field, src_id: u32) -> u8 {
    match f {
        Field::Gf2_8 => (src_id % 128) as u8,
        Field::Gf2_4 => (src_id % 7) as u8,
    }
}

/// The point of a coded id; each generation rotates the points.
pub open spec fn cauchy_y(f: Field, coded_id: u32, generation: u8) -> u8 {
    match f {
        Field::Gf2_8 => (128 + (coded_id + 7 * generation) % 128) as u8,
        Field::Gf2_4 => (8 + (coded_id + 3 * generation) % 7) as u8,
    }
}

/// The Cauchy coefficient of a source id in a coded packet.
pub open spec fn cauchy(f: Field, src_id: u32, coded_id: u32, generation: u8) -> u8 {
    cauchy::entry(f, cauchy_x(f, src_id), cauchy_y(f, coded_id, generation))
}

/// A source point and a coded point never coincide, so that every coefficient is
/// a non-zero field element.
pub proof fn lemma_cauchy_coef(f: Field, src_id: u32, coded_id: u32, generation: u8)
    ensures
        algebra::in_field(f, cauchy_x(f, src_id)),
        algebra::in_field(f, cauchy_y(f, coded_id, generation)),
        cauchy_x(f, src_id) != cauchy_y(f, coded_id, generation),
        algebra::in_field(f, cauchy(f, src_id, coded_id, generation)),
        cauchy(f, src_id, coded_id, generation) != 0,
{
    cauchy::lemma_entry(f, cauchy_x(f, src_id), cauchy_y(f, coded_id, generation));
}

/// Cauchy coefficient in GF(2^8).
///
/// The source id may be any number: its point is the id modulo 128, so that the
/// points differ inside a window of 128 consecutive ids.
pub fn cauchy_coef_gf2_8(src_id: u32, coded_id: u32, generation: u8) -> (r: u8)
    requires
        coded_id < 128,
    ensures
        r == cauchy(Field::Gf2_8, src_id, coded_id, generation),
        r != 0,
{
    proof {
        lemma_cauchy_coef(Field::Gf2_8, src_id, coded_id, generation);
        cauchy::lemma_entry(
            Field::Gf2_8,
            cauchy_x(Field::Gf2_8, src_id),
            cauchy_y(Field::Gf2_8, coded_id, generation),
        );
    }
    let x: u8 = (src_id % 128) as u8;
    let y_offset: u32 = (coded_id + (generation as u32) * 7) % 128;
    let y: u8 = 128 + y_offset as u8;
    let denom = Gf2_8::from_u8(x ^ y);
    denom.inv().to_u8()
}

/// Cauchy coefficient in GF(2^4).
///
/// The source id may be any number: its point is the id modulo 7, so that the
/// points differ inside a window of 7 consecutive ids.
pub fn cauchy_coef_gf2_4(src_id: u32, coded_id: u32, generation: u8) -> (r: u8)
    requires
        coded_id < 7,
    ensures
        r == cauchy(Field::Gf2_4, src_id, coded_id, generation),
        r != 0,
        r < 16,
{
    proof {
        lemma_cauchy_coef(Field::Gf2_4, src_id, coded_id, generation);
        cauchy::lemma_entry(
            Field::Gf2_4,
            cauchy_x(Field::Gf2_4, src_id),
            cauchy_y(Field::Gf2_4, coded_id, generation),
        );
        algebra::lemma_reduce(
            Field::Gf2_4,
            cauchy_x(Field::Gf2_4, src_id) ^ cauchy_y(Field::Gf2_4, coded_id, generation),
        );
    }
    let x: u8 = (src_id % 7) as u8;
    let y_offset: u8 = ((coded_id + (generation as u32) * 3) % 7) as u8;
    let y: u8 = 8 + y_offset;
    let denom = Gf2_4::from_u8(x ^ y);
    denom.inv().to_u8()
}

/// GF(2^8) Cauchy coefficients of a list of source ids.
pub fn cauchy_batch_gf2_8(source_ids: &[u32], coded_id: u32, generation: u8) -> (r: CoefList)
    requires
        coded_id < 128,
    ensures
        r@ == Seq::new(
            source_ids@.len(),
            |i: int| cauchy(Field::Gf2_8, source_ids@[i], coded_id, generation),
        ),
{
    let mut out = CoefList::new();
    let mut i: usize = 0;
    while i < source_ids.len()
        invariant
            i <= source_ids@.len(),
            coded_id < 128,
            out@.len() == i,
            forall|k: int|
                0 <= k < i ==> #[trigger] out@[k] == cauchy(
                    Field::Gf2_8,
                    source_ids@[k],
                    coded_id,
                    generation,
                ),
        decreases source_ids@.len() - i,
    {
        out.push(cauchy_coef_gf2_8(source_ids[i], coded_id, generation));
        i += 1;
    }
    assert(out@ =~= Seq::new(
        source_ids@.len(),
        |i: int| cauchy(Field::Gf2_8, source_ids@[i], coded_id, generation),
    ));
    out
}

/// GF(2^4) Cauchy coefficients of a list of source ids.
pub fn cauchy_batch_gf2_4(source_ids: &[u32], coded_id: u32, generation: u8) -> (r: CoefList)
    requires
        coded_id < 7,
    ensures
        r@ == Seq::new(
            source_ids@.len(),
            |i: int| cauchy(Field::Gf2_4, source_ids@[i], coded_id, generation),
        ),
{
    let mut out = CoefList::new();
    let mut i: usize = 0;
    while i < source_ids.len()
        invariant
            i <= source_ids@.len(),
            coded_id < 7,
            out@.len() == i,
            forall|k: int|
                0 <= k < i ==> #[trigger] out@[k] == cauchy(
                    Field::Gf2_4,
                    source_ids@[k],
                    coded_id,
                    generation,
                ),
        decreases source_ids@.len() - i,
    {
        out.push(cauchy_coef_gf2_4(source_ids[i], coded_id, generation));
        i += 1;
    }
    assert(out@ =~= Seq::new(
        source_ids@.len(),
        |i: int| cauchy(Field::Gf2_4, source_ids@[i], coded_id, generation),
    ));
    out
}

/// The determinant of the 2x2 Cauchy matrix of generation 0 over the source ids
/// `s0`, `s1` and the coded ids `c0`, `c1`.
pub open spec fn cauchy_det(f: Field, s0: u32, s1: u32, c0: u32, c1: u32) -> u8 {
    algebra::fmul(f, cauchy(f, s0, c0, 0), cauchy(f, s1, c1, 0)) ^ algebra::fmul(
        f,
        cauchy(f, s0, c1, 0),
        cauchy(f, s1, c0, 0),
    )
}

/// Different coded ids of one generation have different points.
proof fn lemma_cauchy_y_injective(f: Field, c0: u32, c1: u32, generation: u8)
    requires
        c0 < cauchy_cycle(f),
        c1 < cauchy_cycle(f),
        c0 != c1,
    ensures
        cauchy_y(f, c0, generation) != cauchy_y(f, c1, generation),
{
    match f {
        Field::Gf2_8 => {
            let g = 7 * generation;
            assert((c0 + g) % 128 != (c1 + g) % 128) by (nonlinear_arith)
                requires
                    c0 < 128,
                    c1 < 128,
                    c0 != c1,
            ;
        },
        Field::Gf2_4 => {
            let g = 3 * generation;
            assert((c0 + g) % 7 != (c1 + g) % 7) by (nonlinear_arith)
                requires
                    c0 < 7,
                    c1 < 7,
                    c0 != c1,
            ;
        },
    }
}

/// Two source ids share a Cauchy point exactly where they agree modulo the
/// length of the cycle.
pub open spec fn same_point(f: Field, s0: u32, s1: u32) -> bool {
    s0 % (cauchy_cycle(f) as u32) == s1 % (cauchy_cycle(f) as u32)
}

/// The row of a Cauchy matrix that belongs to `coded_id`, times the vector `v`.
pub open spec fn cauchy_row_product(
    f: Field,
    srcs: Seq<u32>,
    coded_id: u32,
    generation: u8,
    v: Seq<u8>,
) -> u8 {
    cauchy::row_product(
        f,
        srcs.map_values(|s: u32| cauchy_x(f, s)),
        cauchy_y(f, coded_id, generation),
        v,
        srcs.len(),
    )
}

/// The Cauchy construction is MDS: over any source ids with different points,
/// as many coded packets of one generation determine the sources.  A combination
/// of the columns that vanishes in every one of these packets is zero.
pub proof fn lemma_cauchy_mds(
    f: Field,
    srcs: Seq<u32>,
    coded: Seq<u32>,
    generation: u8,
    v: Seq<u8>,
)
    requires
        srcs.len() == coded.len(),
        v.len() == srcs.len(),
        forall|i: int, j: int|
            0 <= i < j < srcs.len() ==> !same_point(f, #[trigger] srcs[i], #[trigger] srcs[j]),
        forall|i: int| 0 <= i < coded.len() ==> #[trigger] coded[i] < cauchy_cycle(f),
        forall|i: int, j: int| 0 <= i < j < coded.len() ==> coded[i] != coded[j],
        cauchy::all_in_field(f, v),
        forall|i: int|
            0 <= i < coded.len() ==> #[trigger] cauchy_row_product(
                f,
                srcs,
                coded[i],
                generation,
                v,
            ) == 0,
    ensures
        forall|j: int| 0 <= j < v.len() ==> #[trigger] v[j] == 0,
{
    let xs = srcs.map_values(|s: u32| cauchy_x(f, s));
    let ys = coded.map_values(|c: u32| cauchy_y(f, c, generation));
    assert forall|i: int| 0 <= i < xs.len() implies algebra::in_field(f, #[trigger] xs[i]) by {
        lemma_cauchy_coef(f, srcs[i], 0, 0);
    }
    assert forall|i: int| 0 <= i < ys.len() implies algebra::in_field(f, #[trigger] ys[i]) by {
        lemma_cauchy_coef(f, 0, coded[i], generation);
    }
    assert forall|i: int, j: int| 0 <= i < j < xs.len() implies xs[i] != xs[j] by {
        assert(!same_point(f, srcs[i], srcs[j]));
    }
    assert forall|i: int, j: int| 0 <= i < j < ys.len() implies ys[i] != ys[j] by {
        lemma_cauchy_y_injective(f, coded[i], coded[j], generation);
    }
    assert forall|i: int, j: int| 0 <= i < xs.len() && 0 <= j < ys.len() implies xs[i]
        != ys[j] by {
        lemma_cauchy_coef(f, srcs[i], coded[j], generation);
    }
    assert forall|i: int| 0 <= i < ys.len() implies #[trigger] cauchy::row_product(
        f,
        xs,
        ys[i],
        v,
        xs.len(),
    ) == 0 by {
        assert(cauchy_row_product(f, srcs, coded[i], generation, v) == 0);
    }
    cauchy::lemma_cauchy_regular(f, xs, ys, v);
}

/// Generations that differ modulo the length of the cycle rotate a coded id to
/// different points.
proof fn lemma_rotation(coded_id: int, k: int, g0: int, g1: int, cycle: int)
    requires
        cycle == 128 && k == 7 || cycle == 7 && k == 3,
        0 <= g0 < 256,
        0 <= g1 < 256,
        g0 % cycle != g1 % cycle,
    ensures
        (coded_id + k * g0) % cycle != (coded_id + k * g1) % cycle,
{
    if (coded_id + k * g0) % cycle == (coded_id + k * g1) % cycle {
        vstd::arithmetic::div_mod::lemma_mod_equivalence(
            coded_id + k * g0,
            coded_id + k * g1,
            cycle,
        );
        let d = g0 - g1;
        if cycle == 128 {
            assert((7 * d) % 128 == 0);
            assert(d % 128 == 0);
        } else {
            assert((3 * d) % 7 == 0);
            assert(d % 7 == 0);
        }
    }
}

/// A coded id gets different coefficients in generations that differ modulo the
/// length of the cycle, at every source id.
pub proof fn lemma_cauchy_generations_differ(f: Field, src_id: u32, coded_id: u32, g0: u8, g1: u8)
    requires
        g0 as nat % cauchy_cycle(f) != g1 as nat % cauchy_cycle(f),
    ensures
        cauchy(f, src_id, coded_id, g0) != cauchy(f, src_id, coded_id, g1),
{
    let x = cauchy_x(f, src_id);
    let y0 = cauchy_y(f, coded_id, g0);
    let y1 = cauchy_y(f, coded_id, g1);
    assert(y0 != y1) by {
        match f {
            Field::Gf2_8 => {
                lemma_rotation(coded_id as int, 7, g0 as int, g1 as int, 128);
            },
            Field::Gf2_4 => {
                lemma_rotation(coded_id as int, 3, g0 as int, g1 as int, 7);
            },
        }
    }
    lemma_cauchy_coef(f, src_id, coded_id, g0);
    lemma_cauchy_coef(f, src_id, coded_id, g1);
    cauchy::lemma_entry(f, x, y0);
    cauchy::lemma_entry(f, x, y1);
    let e = cauchy::entry(f, x, y0);
    if e == cauchy::entry(f, x, y1) {
        algebra::lemma_finv_unique(f, e, x ^ y0);
        algebra::lemma_finv_unique(f, e, x ^ y1);
        algebra::lemma_xor(x, y0, x, y1);
        algebra::lemma_xor(x, x, y0, y1);
        algebra::lemma_xor(y0, y1, 0, 0);
        algebra::lemma_xor(x ^ y0, x ^ y1, 0, 0);
        algebra::lemma_xor(y0 ^ y1, 0, 0, 0);
    }
}

/// A 2x2 Cauchy matrix is regular exactly where the source points differ and the
/// coded ids differ.
proof fn lemma_cauchy_2x2(f: Field, s0: u32, s1: u32, c0: u32, c1: u32)
    requires
        c0 < cauchy_cycle(f),
        c1 < cauchy_cycle(f),
    ensures
        cauchy_det(f, s0, s1, c0, c1) != 0 <==> !same_point(f, s0, s1) && c0 != c1,
{
    let a00 = cauchy(f, s0, c0, 0);
    let a01 = cauchy(f, s0, c1, 0);
    let a10 = cauchy(f, s1, c0, 0);
    let a11 = cauchy(f, s1, c1, 0);
    lemma_cauchy_coef(f, s0, c0, 0);
    lemma_cauchy_coef(f, s0, c1, 0);
    lemma_cauchy_coef(f, s1, c0, 0);
    lemma_cauchy_coef(f, s1, c1, 0);
    algebra::lemma_fmul_comm(f, a00, a11);
    algebra::lemma_fmul_comm(f, a01, a10);
    algebra::lemma_fmul_comm(f, a00, a10);
    algebra::lemma_xor(algebra::fmul(f, a00, a11), algebra::fmul(f, a01, a10), 0, 0);
    algebra::lemma_xor(algebra::fmul(f, a00, a10), algebra::fmul(f, a00, a10), 0, 0);
    if same_point(f, s0, s1) {
        assert(a00 == a10 && a01 == a11);
        algebra::lemma_fmul_comm(f, a00, a01);
    } else if c0 != c1 && cauchy_det(f, s0, s1, c0, c1) == 0 {
        let srcs = seq![s0, s1];
        let coded = seq![c0, c1];
        let v = seq![a10, a00];
        assert forall|i: int| 0 <= i < coded.len() implies #[trigger] cauchy_row_product(
            f,
            srcs,
            coded[i],
            0,
            v,
        ) == 0 by {
            reveal_with_fuel(cauchy::row_product, 3);
            let y = cauchy_y(f, coded[i], 0);
            let xs = srcs.map_values(|s: u32| cauchy_x(f, s));
            assert(xs[0] == cauchy_x(f, s0) && xs[1] == cauchy_x(f, s1));
            let p = algebra::fmul(f, cauchy(f, s0, coded[i], 0), a10);
            let q = algebra::fmul(f, cauchy(f, s1, coded[i], 0), a00);
            assert(cauchy::row_product(f, xs, y, v, 2) == (0 ^ p) ^ q);
            algebra::lemma_xor(p, q, 0, 0);
        }
        lemma_cauchy_mds(f, srcs, coded, 0, v);
        assert(v[0] == 0);
    }
}

/// Whether a 2x2 Cauchy matrix over GF(2^4) is regular: it is where the source
/// ids differ modulo 7 and the coded ids differ.
pub fn verify_cauchy_gf2_4_2x2_nonsingular(s0: u32, s1: u32, c0: u32, c1: u32) -> (r: bool)
    requires
        c0 < 7,
        c1 < 7,
    ensures
        r == (cauchy_det(Field::Gf2_4, s0, s1, c0, c1) != 0),
        r == (s0 % 7 != s1 % 7 && c0 != c1),
{
    let v00: u8 = cauchy_coef_gf2_4(s0, c0, 0);
    let v01: u8 = cauchy_coef_gf2_4(s0, c1, 0);
    let v10: u8 = cauchy_coef_gf2_4(s1, c0, 0);
    let v11: u8 = cauchy_coef_gf2_4(s1, c1, 0);
    proof {
        lemma_cauchy_2x2(Field::Gf2_4, s0, s1, c0, c1);
        algebra::lemma_reduce(Field::Gf2_4, v00);
        algebra::lemma_reduce(Field::Gf2_4, v01);
        algebra::lemma_reduce(Field::Gf2_4, v10);
        algebra::lemma_reduce(Field::Gf2_4, v11);
    }
    let a00 = Gf2_4::from_u8(v00);
    let a01 = Gf2_4::from_u8(v01);
    let a10 = Gf2_4::from_u8(v10);
    let a11 = Gf2_4::from_u8(v11);
    let det = a00.mul(a11).add(a01.mul(a10));
    det.to_u8() != 0
}

/// Whether a 2x2 Cauchy matrix over GF(2^8) is regular: it is where the source
/// ids differ modulo 128 and the coded ids differ.
pub fn verify_cauchy_2x2_nonsingular(s0: u32, s1: u32, c0: u32, c1: u32) -> (r: bool)
    requires
        c0 < 128,
        c1 < 128,
    ensures
        r == (cauchy_det(Field::Gf2_8, s0, s1, c0, c1) != 0),
        r == (s0 % 128 != s1 % 128 && c0 != c1),
{
    proof {
        lemma_cauchy_2x2(Field::Gf2_8, s0, s1, c0, c1);
    }
    let a00 = Gf2_8::from_u8(cauchy_coef_gf2_8(s0, c0, 0));
    let a01 = Gf2_8::from_u8(cauchy_coef_gf2_8(s0, c1, 0));
    let a10 = Gf2_8::from_u8(cauchy_coef_gf2_8(s1, c0, 0));
    let a11 = Gf2_8::from_u8(cauchy_coef_gf2_8(s1, c1, 0));
    let det = a00.mul(a11).add(a01.mul(a10));
    det.to_u8() != 0
}

} // verus!
