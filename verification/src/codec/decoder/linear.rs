//! Linear equations over source symbols, as mathematics.
//!
//! An equation states that a combination of source symbols, one coefficient per
//! source id, is a given payload.  The unknowns are all source ids at once; an
//! id that an equation does not mention has the coefficient zero.
use vstd::prelude::*;

use crate::config::Field;
use crate::gf::algebra;

verus! {

/// The number of source ids.
pub open spec fn id_count() -> nat {
    0x1_0000_0000
}

/// A value for every source symbol.
pub type Symbols = spec_fn(u32) -> Seq<u8>;

/// One linear equation.
#[verifier::ext_equal]
pub struct Equation {
    /// The coefficient of every source id.
    pub coef: spec_fn(u32) -> u8,
    /// What the combination amounts to.
    pub payload: Seq<u8>,
}

/// Byte `k` of the combination of the symbols below `n`.
pub open spec fn sum_upto(f: Field, c: spec_fn(u32) -> u8, s: Symbols, k: int, n: nat) -> u8
    decreases n,
{
    if n == 0 {
        0
    } else {
        let id = (n - 1) as u32;
        sum_upto(f, c, s, k, (n - 1) as nat) ^ algebra::scale_byte(f, c(id), s(id)[k])
    }
}

/// The payload `a` plus `k` times the payload `b`.
pub open spec fn payload_plus(f: Field, a: Seq<u8>, k: u8, b: Seq<u8>) -> Seq<u8> {
    Seq::new(a.len(), |i: int| a[i] ^ algebra::scale_byte(f, k, b[i]))
}

/// `k` times the payload `a`.
pub open spec fn payload_scaled(f: Field, k: u8, a: Seq<u8>) -> Seq<u8> {
    Seq::new(a.len(), |i: int| algebra::scale_byte(f, k, a[i]))
}

impl Equation {
    /// The coefficient of `id`.
    pub open spec fn at(self, id: u32) -> u8 {
        (self.coef)(id)
    }

    /// The coefficients are field elements and the payload has `size` bytes.
    pub open spec fn wf(self, f: Field, size: nat) -> bool {
        &&& self.payload.len() == size
        &&& forall|id: u32| algebra::in_field(f, #[trigger] self.at(id))
    }

    /// No id occurs.
    pub open spec fn is_zero(self) -> bool {
        forall|id: u32| #[trigger] self.at(id) == 0
    }

    /// `p` is the smallest id that occurs.
    pub open spec fn is_pivot(self, p: u32) -> bool {
        &&& self.at(p) != 0
        &&& forall|id: u32| id < p ==> #[trigger] self.at(id) == 0
    }

    /// The smallest id that occurs.
    pub open spec fn pivot(self) -> u32 {
        choose|p: u32| self.is_pivot(p)
    }

    /// `p` is the only id that occurs.
    pub open spec fn is_single(self, p: u32) -> bool {
        &&& self.at(p) != 0
        &&& forall|id: u32| id != p ==> #[trigger] self.at(id) == 0
    }

    /// This equation plus `k` times another.
    pub open spec fn plus_scaled(self, f: Field, k: u8, other: Equation) -> Equation {
        Equation {
            coef: |id: u32| self.at(id) ^ algebra::fmul(f, k, other.at(id)),
            payload: payload_plus(f, self.payload, k, other.payload),
        }
    }

    /// `k` times this equation.
    pub open spec fn scaled(self, f: Field, k: u8) -> Equation {
        Equation {
            coef: |id: u32| algebra::fmul(f, k, self.at(id)),
            payload: payload_scaled(f, k, self.payload),
        }
    }

    /// This equation with the value `data` put in for the symbol `id`.
    pub open spec fn substituted(self, f: Field, id: u32, data: Seq<u8>) -> Equation {
        Equation {
            coef: |i: u32| if i == id { 0 } else { self.at(i) },
            payload: payload_plus(f, self.payload, self.at(id), data),
        }
    }

    /// The multiple of this equation whose pivot has the coefficient one.
    pub open spec fn normalized(self, f: Field) -> Equation {
        self.scaled(f, algebra::finv(f, self.at(self.pivot())))
    }

    /// The symbols `s` satisfy this equation.
    pub open spec fn holds(self, f: Field, s: Symbols) -> bool {
        forall|k: int|
            0 <= k < self.payload.len() ==> #[trigger] sum_upto(f, self.coef, s, k, id_count())
                == self.payload[k]
    }
}

// ── Sums ─────────────────────────────────────────────────────────────────

proof fn lemma_sum_plus_scaled(f: Field, a: Equation, c: u8, b: Equation, s: Symbols, k: int, n: nat)
    requires
        forall|id: u32| algebra::in_field(f, #[trigger] a.at(id)),
        forall|id: u32| algebra::in_field(f, #[trigger] b.at(id)),
        algebra::in_field(f, c),
    ensures
        sum_upto(f, a.plus_scaled(f, c, b).coef, s, k, n) == sum_upto(f, a.coef, s, k, n)
            ^ algebra::scale_byte(f, c, sum_upto(f, b.coef, s, k, n)),
    decreases n,
{
    if n == 0 {
        algebra::lemma_scale_byte(f, c, c, 0, 0);
        algebra::lemma_xor(0, 0, 0, 0);
    } else {
        let m = (n - 1) as nat;
        let id = m as u32;
        let x = s(id)[k];
        lemma_sum_plus_scaled(f, a, c, b, s, k, m);
        let sa = sum_upto(f, a.coef, s, k, m);
        let sb = sum_upto(f, b.coef, s, k, m);
        let tb = algebra::scale_byte(f, b.at(id), x);
        assert(algebra::in_field(f, a.at(id)) && algebra::in_field(f, b.at(id)));
        algebra::lemma_fmul_closed(f, c, b.at(id));
        algebra::lemma_scale_byte(f, a.at(id), algebra::fmul(f, c, b.at(id)), x, x);
        algebra::lemma_scale_byte(f, c, b.at(id), x, x);
        algebra::lemma_scale_byte(f, c, c, sb, tb);
        algebra::lemma_xor(
            sa,
            algebra::scale_byte(f, c, sb),
            algebra::scale_byte(f, a.at(id), x),
            algebra::scale_byte(f, c, tb),
        );
    }
}

proof fn lemma_sum_scaled(f: Field, a: Equation, c: u8, s: Symbols, k: int, n: nat)
    requires
        forall|id: u32| algebra::in_field(f, #[trigger] a.at(id)),
        algebra::in_field(f, c),
    ensures
        sum_upto(f, a.scaled(f, c).coef, s, k, n) == algebra::scale_byte(
            f,
            c,
            sum_upto(f, a.coef, s, k, n),
        ),
    decreases n,
{
    if n == 0 {
        algebra::lemma_scale_byte(f, c, c, 0, 0);
    } else {
        let m = (n - 1) as nat;
        let id = m as u32;
        let x = s(id)[k];
        lemma_sum_scaled(f, a, c, s, k, m);
        assert(algebra::in_field(f, a.at(id)));
        algebra::lemma_scale_byte(f, c, a.at(id), x, x);
        algebra::lemma_scale_byte(
            f,
            c,
            c,
            sum_upto(f, a.coef, s, k, m),
            algebra::scale_byte(f, a.at(id), x),
        );
    }
}

pub proof fn lemma_sum_substituted(f: Field, a: Equation, p: u32, data: Seq<u8>, s: Symbols, k: int, n: nat)
    requires
        n <= id_count(),
        forall|id: u32| algebra::in_field(f, #[trigger] a.at(id)),
    ensures
        sum_upto(f, a.substituted(f, p, data).coef, s, k, n) == if n <= p {
            sum_upto(f, a.coef, s, k, n)
        } else {
            sum_upto(f, a.coef, s, k, n) ^ algebra::scale_byte(f, a.at(p), s(p)[k])
        },
    decreases n,
{
    if n > 0 {
        let m = (n - 1) as nat;
        let id = m as u32;
        assert(id as nat == m);
        let x = s(id)[k];
        lemma_sum_substituted(f, a, p, data, s, k, m);
        assert(algebra::in_field(f, a.at(id)) && algebra::in_field(f, a.at(p)));
        algebra::lemma_scale_byte(f, a.at(id), a.at(id), x, x);
        let sa = sum_upto(f, a.coef, s, k, m);
        let t = algebra::scale_byte(f, a.at(id), x);
        let r = algebra::scale_byte(f, a.at(p), s(p)[k]);
        algebra::lemma_xor(sa, t, t, 0);
        algebra::lemma_xor(sa, r, t, 0);
        algebra::lemma_xor(sa, t, r, 0);
        algebra::lemma_xor(r, t, 0, 0);
        algebra::lemma_xor(sa, 0, 0, 0);
    }
}

/// The sum over symbols of which at most `p` and `q` contribute.
pub proof fn lemma_sum_two(f: Field, c: spec_fn(u32) -> u8, s: Symbols, k: int, p: u32, q: u32, n: nat)
    requires
        n <= id_count(),
        p != q,
        forall|id: u32|
            id != p && id != q ==> algebra::scale_byte(f, #[trigger] c(id), s(id)[k]) == 0,
    ensures
        sum_upto(f, c, s, k, n) == (if p < n { algebra::scale_byte(f, c(p), s(p)[k]) } else { 0 })
            ^ (if q < n { algebra::scale_byte(f, c(q), s(q)[k]) } else { 0 }),
    decreases n,
{
    let tp = algebra::scale_byte(f, c(p), s(p)[k]);
    let tq = algebra::scale_byte(f, c(q), s(q)[k]);
    algebra::lemma_xor(tp, tq, 0, 0);
    algebra::lemma_xor(tq, tp, 0, 0);
    algebra::lemma_xor(0, 0, 0, 0);
    if n > 0 {
        let m = (n - 1) as nat;
        let id = m as u32;
        assert(id as nat == m);
        lemma_sum_two(f, c, s, k, p, q, m);
        algebra::lemma_xor(tp ^ tq, 0, 0, 0);
    }
}

/// The sum is linear in the symbols too.
pub proof fn lemma_sum_symbols(f: Field, c: spec_fn(u32) -> u8, s: Symbols, e: Symbols, t: Symbols, k: int, n: nat)
    requires
        n <= id_count(),
        forall|id: u32| algebra::in_field(f, #[trigger] c(id)),
        forall|id: u32| #[trigger] t(id)[k] == s(id)[k] ^ e(id)[k],
    ensures
        sum_upto(f, c, t, k, n) == sum_upto(f, c, s, k, n) ^ sum_upto(f, c, e, k, n),
    decreases n,
{
    algebra::lemma_xor(0, 0, 0, 0);
    if n > 0 {
        let m = (n - 1) as nat;
        let id = m as u32;
        lemma_sum_symbols(f, c, s, e, t, k, m);
        assert(algebra::in_field(f, c(id)));
        assert(t(id)[k] == s(id)[k] ^ e(id)[k]);
        algebra::lemma_scale_byte(f, c(id), c(id), s(id)[k], e(id)[k]);
        algebra::lemma_xor(
            sum_upto(f, c, s, k, m),
            sum_upto(f, c, e, k, m),
            algebra::scale_byte(f, c(id), s(id)[k]),
            algebra::scale_byte(f, c(id), e(id)[k]),
        );
    }
}

/// A sum without coefficients is zero.
pub proof fn lemma_sum_zero(f: Field, c: spec_fn(u32) -> u8, s: Symbols, k: int, n: nat)
    requires
        forall|id: u32| #[trigger] c(id) == 0,
    ensures
        sum_upto(f, c, s, k, n) == 0,
    decreases n,
{
    algebra::lemma_xor(0, 0, 0, 0);
    if n > 0 {
        let id = (n - 1) as u32;
        lemma_sum_zero(f, c, s, k, (n - 1) as nat);
        algebra::lemma_scale_byte(f, 0, 0, s(id)[k], 0);
        assert(c(id) == 0);
    }
}

// ── Row operations keep equations equations ──────────────────────────────

/// Adding a multiple of a satisfied equation changes nothing about which symbols
/// satisfy an equation.
pub proof fn lemma_plus_scaled_holds(f: Field, a: Equation, c: u8, b: Equation, s: Symbols, size: nat)
    requires
        a.wf(f, size),
        b.wf(f, size),
        algebra::in_field(f, c),
        b.holds(f, s),
    ensures
        a.plus_scaled(f, c, b).wf(f, size),
        a.plus_scaled(f, c, b).holds(f, s) <==> a.holds(f, s),
{
    let r = a.plus_scaled(f, c, b);
    lemma_plus_scaled_wf(f, a, c, b, size);
    assert forall|k: int| 0 <= k < size implies (#[trigger] sum_upto(f, r.coef, s, k, id_count())
        == r.payload[k] <==> sum_upto(f, a.coef, s, k, id_count()) == a.payload[k]) by {
        lemma_sum_plus_scaled(f, a, c, b, s, k, id_count());
        assert(sum_upto(f, b.coef, s, k, id_count()) == b.payload[k]);
        let t = algebra::scale_byte(f, c, b.payload[k]);
        algebra::lemma_xor(sum_upto(f, a.coef, s, k, id_count()), t, 0, 0);
        algebra::lemma_xor(a.payload[k], t, 0, 0);
    }
    if r.holds(f, s) {
        assert forall|k: int| 0 <= k < a.payload.len() implies #[trigger] sum_upto(
            f,
            a.coef,
            s,
            k,
            id_count(),
        ) == a.payload[k] by {
            assert(sum_upto(f, r.coef, s, k, id_count()) == r.payload[k]);
        }
    }
}

/// Row addition stays inside the field.
pub proof fn lemma_plus_scaled_wf(f: Field, a: Equation, c: u8, b: Equation, size: nat)
    requires
        a.wf(f, size),
        b.wf(f, size),
        algebra::in_field(f, c),
    ensures
        a.plus_scaled(f, c, b).wf(f, size),
{
    let r = a.plus_scaled(f, c, b);
    assert forall|id: u32| algebra::in_field(f, #[trigger] r.at(id)) by {
        assert(algebra::in_field(f, a.at(id)) && algebra::in_field(f, b.at(id)));
        algebra::lemma_fmul_closed(f, c, b.at(id));
        algebra::lemma_xor(a.at(id), algebra::fmul(f, c, b.at(id)), 0, 0);
    }
}

/// Adding nothing.
pub proof fn lemma_plus_scaled_zero(f: Field, a: Equation, b: Equation, size: nat)
    requires
        a.wf(f, size),
        b.wf(f, size),
    ensures
        a.plus_scaled(f, 0, b) == a,
{
    let r = a.plus_scaled(f, 0, b);
    assert forall|id: u32| #[trigger] (r.coef)(id) == (a.coef)(id) by {
        assert(algebra::in_field(f, b.at(id)));
        algebra::lemma_fmul_units(f, b.at(id));
        algebra::lemma_xor(a.at(id), 0, 0, 0);
    }
    assert(r.coef =~= a.coef);
    assert forall|i: int| 0 <= i < size implies #[trigger] r.payload[i] == a.payload[i] by {
        algebra::lemma_scale_byte(f, 0, 0, b.payload[i], 0);
        algebra::lemma_xor(a.payload[i], 0, 0, 0);
    }
    assert(r.payload =~= a.payload);
}

/// Scaling by a non-zero factor changes nothing about which symbols satisfy an
/// equation.
pub proof fn lemma_scaled_holds(f: Field, a: Equation, c: u8, s: Symbols, size: nat)
    requires
        a.wf(f, size),
        algebra::in_field(f, c),
        c != 0,
    ensures
        a.scaled(f, c).wf(f, size),
        a.scaled(f, c).holds(f, s) <==> a.holds(f, s),
        forall|id: u32| #[trigger] a.scaled(f, c).at(id) == 0 <==> a.at(id) == 0,
{
    let r = a.scaled(f, c);
    assert forall|id: u32|
        algebra::in_field(f, #[trigger] r.at(id)) && (r.at(id) == 0 <==> a.at(id) == 0) by {
        assert(algebra::in_field(f, a.at(id)));
        algebra::lemma_fmul_closed(f, c, a.at(id));
        algebra::lemma_fmul_nonzero(f, c, a.at(id));
    }
    let inv = algebra::finv(f, c);
    algebra::lemma_finv(f, c);
    assert forall|k: int| 0 <= k < size implies (#[trigger] sum_upto(f, r.coef, s, k, id_count())
        == r.payload[k] <==> sum_upto(f, a.coef, s, k, id_count()) == a.payload[k]) by {
        lemma_sum_scaled(f, a, c, s, k, id_count());
        let x = sum_upto(f, a.coef, s, k, id_count());
        let y = a.payload[k];
        algebra::lemma_scale_byte(f, inv, c, x, y);
        algebra::lemma_scale_byte(f, inv, c, y, x);
    }
    if r.holds(f, s) {
        assert forall|k: int| 0 <= k < a.payload.len() implies #[trigger] sum_upto(
            f,
            a.coef,
            s,
            k,
            id_count(),
        ) == a.payload[k] by {
            assert(sum_upto(f, r.coef, s, k, id_count()) == r.payload[k]);
        }
    }
}

/// Putting in the true value of a symbol changes nothing about whether the
/// symbols satisfy an equation.
pub proof fn lemma_substituted_holds(f: Field, a: Equation, id: u32, data: Seq<u8>, s: Symbols, size: nat)
    requires
        a.wf(f, size),
        data.len() == size,
        s(id) == data,
    ensures
        a.substituted(f, id, data).wf(f, size),
        a.substituted(f, id, data).holds(f, s) <==> a.holds(f, s),
{
    let r = a.substituted(f, id, data);
    lemma_substituted_wf(f, a, id, data, size);
    assert forall|k: int| 0 <= k < size implies (#[trigger] sum_upto(f, r.coef, s, k, id_count())
        == r.payload[k] <==> sum_upto(f, a.coef, s, k, id_count()) == a.payload[k]) by {
        lemma_sum_substituted(f, a, id, data, s, k, id_count());
        let t = algebra::scale_byte(f, a.at(id), data[k]);
        algebra::lemma_xor(sum_upto(f, a.coef, s, k, id_count()), t, 0, 0);
        algebra::lemma_xor(a.payload[k], t, 0, 0);
    }
    if r.holds(f, s) {
        assert forall|k: int| 0 <= k < a.payload.len() implies #[trigger] sum_upto(
            f,
            a.coef,
            s,
            k,
            id_count(),
        ) == a.payload[k] by {
            assert(sum_upto(f, r.coef, s, k, id_count()) == r.payload[k]);
        }
    }
}

/// Substitution stays inside the field.
pub proof fn lemma_substituted_wf(f: Field, a: Equation, id: u32, data: Seq<u8>, size: nat)
    requires
        a.wf(f, size),
    ensures
        a.substituted(f, id, data).wf(f, size),
{
    let r = a.substituted(f, id, data);
    assert forall|i: u32| algebra::in_field(f, #[trigger] r.at(i)) by {
        assert(algebra::in_field(f, a.at(i)));
    }
}

/// Putting in a symbol that does not occur.
pub proof fn lemma_substituted_absent(f: Field, a: Equation, id: u32, data: Seq<u8>)
    requires
        a.at(id) == 0,
    ensures
        a.substituted(f, id, data) == a,
{
    let r = a.substituted(f, id, data);
    assert(r.coef =~= a.coef);
    assert forall|i: int| 0 <= i < a.payload.len() implies #[trigger] r.payload[i]
        == a.payload[i] by {
        algebra::lemma_scale_byte(f, 0, 0, data[i], 0);
        algebra::lemma_xor(a.payload[i], 0, 0, 0);
    }
    assert(r.payload =~= a.payload);
}

/// An equation with the one coefficient one says what its symbol is.
pub proof fn lemma_single_holds(f: Field, a: Equation, p: u32, s: Symbols)
    requires
        a.is_single(p),
        a.at(p) == 1,
        s(p).len() == a.payload.len(),
    ensures
        a.holds(f, s) <==> s(p) == a.payload,
{
    let q: u32 = if p == 0 { 1 } else { 0 };
    assert forall|k: int| 0 <= k < a.payload.len() implies #[trigger] sum_upto(
        f,
        a.coef,
        s,
        k,
        id_count(),
    ) == s(p)[k] by {
        assert forall|id: u32| id != p && id != q implies algebra::scale_byte(
            f,
            #[trigger] (a.coef)(id),
            s(id)[k],
        ) == 0 by {
            assert(a.at(id) == 0);
            algebra::lemma_scale_byte(f, 0, 0, s(id)[k], 0);
        }
        lemma_sum_two(f, a.coef, s, k, p, q, id_count());
        assert(a.at(q) == 0);
        algebra::lemma_scale_byte(f, 0, 0, s(q)[k], 0);
        algebra::lemma_scale_byte(f, 1, 1, s(p)[k], 0);
        algebra::lemma_xor(s(p)[k], 0, 0, 0);
    }
    if a.holds(f, s) {
        assert forall|k: int| 0 <= k < a.payload.len() implies #[trigger] s(p)[k]
            == a.payload[k] by {
            assert(sum_upto(f, a.coef, s, k, id_count()) == a.payload[k]);
        }
        assert(s(p) =~= a.payload);
    }
}

/// Whether an equation without coefficients holds does not depend on the symbols.
pub proof fn lemma_zero_holds(f: Field, a: Equation, s: Symbols, t: Symbols)
    requires
        a.is_zero(),
        a.holds(f, s),
    ensures
        a.holds(f, t),
{
    assert forall|id: u32| #[trigger] (a.coef)(id) == 0 by {
        assert(a.at(id) == 0);
    }
    assert forall|k: int| 0 <= k < a.payload.len() implies #[trigger] sum_upto(
        f,
        a.coef,
        t,
        k,
        id_count(),
    ) == a.payload[k] by {
        lemma_sum_zero(f, a.coef, s, k, id_count());
        lemma_sum_zero(f, a.coef, t, k, id_count());
        assert(sum_upto(f, a.coef, s, k, id_count()) == a.payload[k]);
    }
}

/// Scaling a field element, taken as a byte, is multiplication.
pub proof fn lemma_scale_element(f: Field, c: u8, b: u8)
    requires
        algebra::in_field(f, c),
        algebra::in_field(f, b),
    ensures
        algebra::scale_byte(f, c, b) == algebra::fmul(f, c, b),
{
    if f == Field::Gf2_4 {
        algebra::lemma_nibbles(b, b, 0, b, 0, 0);
        algebra::lemma_fmul_units(f, c);
        algebra::lemma_fmul_closed(f, c, b);
        algebra::lemma_nibbles(b, b, 0, algebra::fmul(f, c, b), 0, 0);
        algebra::lemma_small_byte(b);
        algebra::lemma_small_byte(algebra::fmul(f, c, b));
    }
}

/// A coefficient times the byte one.
pub proof fn lemma_scale_one(f: Field, c: u8)
    requires
        algebra::in_field(f, c),
    ensures
        algebra::scale_byte(f, c, 1) == c,
{
    lemma_scale_element(f, c, 1);
    algebra::lemma_fmul_units(f, c);
}

/// An equation that mentions an id has a pivot.
pub proof fn lemma_pivot(a: Equation, p: u32)
    requires
        a.at(p) != 0,
    ensures
        a.is_pivot(a.pivot()),
    decreases p,
{
    if !a.is_pivot(p) {
        let q = choose|q: u32| q < p && #[trigger] a.at(q) != 0;
        lemma_pivot(a, q);
    }
}

/// An equation has at most one pivot.
pub proof fn lemma_pivot_unique(a: Equation, p: u32, q: u32)
    requires
        a.is_pivot(p),
        a.is_pivot(q),
    ensures
        p == q,
        p == a.pivot(),
{
    let r = a.pivot();
    assert(a.is_pivot(r));
    assert(a.at(p) != 0 && a.at(q) != 0 && a.at(r) != 0);
    if p < q {
        assert(a.at(p) == 0);
    }
    if q < p {
        assert(a.at(q) == 0);
    }
    if p < r {
        assert(a.at(p) == 0);
    }
    if r < p {
        assert(a.at(r) == 0);
    }
}

/// An equation whose pivot has the coefficient one is normalised.
pub proof fn lemma_normalized_one(f: Field, a: Equation, size: nat)
    requires
        a.wf(f, size),
        a.at(a.pivot()) == 1,
    ensures
        a.normalized(f) == a,
{
    let r = a.normalized(f);
    algebra::lemma_fmul_units(f, 1);
    algebra::lemma_finv_unique(f, 1, 1);
    assert forall|id: u32| #[trigger] (r.coef)(id) == (a.coef)(id) by {
        assert(algebra::in_field(f, a.at(id)));
        algebra::lemma_fmul_units(f, a.at(id));
    }
    assert(r.coef =~= a.coef);
    assert forall|i: int| 0 <= i < a.payload.len() implies #[trigger] r.payload[i]
        == a.payload[i] by {
        algebra::lemma_scale_byte(f, 1, 1, a.payload[i], 0);
    }
    assert(r.payload =~= a.payload);
}

} // verus!
