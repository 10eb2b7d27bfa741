//! Cauchy systems: every square submatrix of a Cauchy matrix is regular.
//!
//! A Cauchy matrix has the entries `1 / (x_j + y_i)` for distinct points `x_j`,
//! distinct points `y_i`, and no point on both sides.
use vstd::prelude::*;

use crate::config::Field;
use crate::gf::algebra;

verus! {

/// `1 / (x + y)`.
pub open spec fn entry(f: Field, x: u8, y: u8) -> u8 {
    algebra::finv(f, x ^ y)
}

/// The product of row `y` with the vector `v`, over the first `n` columns.
pub open spec fn row_product(f: Field, xs: Seq<u8>, y: u8, v: Seq<u8>, n: nat) -> u8
    decreases n,
{
    if n == 0 {
        0
    } else {
        row_product(f, xs, y, v, (n - 1) as nat) ^ algebra::fmul(
            f,
            entry(f, xs[n - 1], y),
            v[n - 1],
        )
    }
}

/// All members of `s` are elements of `f`.
pub open spec fn all_in_field(f: Field, s: Seq<u8>) -> bool {
    forall|i: int| 0 <= i < s.len() ==> algebra::in_field(f, #[trigger] s[i])
}

/// No member of `s` occurs twice.
pub open spec fn distinct(s: Seq<u8>) -> bool {
    forall|i: int, j: int| 0 <= i < j < s.len() ==> s[i] != s[j]
}

/// `xs` and `ys` are the points of a square Cauchy matrix over `f`.
pub open spec fn cauchy_points(f: Field, xs: Seq<u8>, ys: Seq<u8>) -> bool {
    &&& xs.len() == ys.len()
    &&& all_in_field(f, xs)
    &&& all_in_field(f, ys)
    &&& distinct(xs)
    &&& distinct(ys)
    &&& forall|i: int, j: int| 0 <= i < xs.len() && 0 <= j < ys.len() ==> xs[i] != ys[j]
}

proof fn lemma_swap(f: Field, a: u8, b: u8, c: u8)
    requires
        algebra::in_field(f, a),
        algebra::in_field(f, b),
        algebra::in_field(f, c),
    ensures
        algebra::fmul(f, a, algebra::fmul(f, b, c)) == algebra::fmul(f, b, algebra::fmul(f, a, c)),
        algebra::in_field(f, algebra::fmul(f, b, c)),
        algebra::in_field(f, algebra::fmul(f, a, c)),
{
    algebra::lemma_fmul_assoc(f, a, b, c);
    algebra::lemma_fmul_assoc(f, b, a, c);
    algebra::lemma_fmul_comm(f, a, b);
    algebra::lemma_fmul_closed(f, b, c);
    algebra::lemma_fmul_closed(f, a, c);
}

/// An entry of a Cauchy matrix is a non-zero field element, the inverse of `x + y`.
pub proof fn lemma_entry(f: Field, x: u8, y: u8)
    requires
        algebra::in_field(f, x),
        algebra::in_field(f, y),
        x != y,
    ensures
        algebra::in_field(f, x ^ y),
        x ^ y != 0,
        algebra::in_field(f, entry(f, x, y)),
        entry(f, x, y) != 0,
        algebra::fmul(f, x ^ y, entry(f, x, y)) == 1,
        algebra::fmul(f, entry(f, x, y), x ^ y) == 1,
{
    algebra::lemma_xor(x, y, 0, 0);
    algebra::lemma_finv(f, x ^ y);
}

/// `1/p + 1/q == (p + q) / (p q)` for `p = x + y`, `q = x + w`.
proof fn lemma_entry_sum(f: Field, x: u8, y: u8, w: u8)
    requires
        algebra::in_field(f, x),
        algebra::in_field(f, y),
        algebra::in_field(f, w),
        x != y,
        x != w,
    ensures
        entry(f, x, y) ^ entry(f, x, w) == algebra::fmul(
            f,
            w ^ y,
            algebra::fmul(f, entry(f, x, y), entry(f, x, w)),
        ),
{
    let p = x ^ y;
    let q = x ^ w;
    let pi = entry(f, x, y);
    let qi = entry(f, x, w);
    let pq = algebra::fmul(f, pi, qi);
    lemma_entry(f, x, y);
    lemma_entry(f, x, w);
    algebra::lemma_fmul_closed(f, pi, qi);
    // p * (pi * qi) == qi and q * (pi * qi) == pi
    algebra::lemma_fmul_assoc(f, p, pi, qi);
    algebra::lemma_fmul_units(f, qi);
    lemma_swap(f, q, pi, qi);
    algebra::lemma_fmul_units(f, pi);
    // (p + q) * (pi * qi) == qi + pi
    algebra::lemma_fmul_distrib(f, pq, p, q);
    algebra::lemma_fmul_comm(f, pq, p);
    algebra::lemma_fmul_comm(f, pq, q);
    algebra::lemma_xor(pi, qi, 0, 0);
    // p + q == w + y
    algebra::lemma_xor(x, y, x, w);
    algebra::lemma_xor(0, y ^ w, 0, 0);
    algebra::lemma_xor(y ^ w, 0, 0, 0);
    algebra::lemma_xor(y, w, 0, 0);
    algebra::lemma_xor(x, x, y, w);
}

/// `(z + y) / (x + y) == (z + x) / (x + y) + 1`.
proof fn lemma_shift(f: Field, x: u8, y: u8, z: u8)
    requires
        algebra::in_field(f, x),
        algebra::in_field(f, y),
        algebra::in_field(f, z),
        x != y,
    ensures
        algebra::fmul(f, z ^ y, entry(f, x, y)) == algebra::fmul(f, z ^ x, entry(f, x, y)) ^ 1,
{
    let pi = entry(f, x, y);
    lemma_entry(f, x, y);
    algebra::lemma_xor(z, x, x, y);
    algebra::lemma_xor(x, y, 0, 0);
    algebra::lemma_xor(z, x, x ^ y, 0);
    algebra::lemma_xor(x, x, y, 0);
    algebra::lemma_xor(y, 0, 0, 0);
    assert((z ^ x) ^ (x ^ y) == z ^ y) by {
        algebra::lemma_xor(z ^ x, x, y, 0);
        algebra::lemma_xor(z, x, 0, 0);
    }
    algebra::lemma_fmul_distrib(f, pi, z ^ x, x ^ y);
}

/// One column of the elimination step.
proof fn lemma_column(f: Field, x: u8, y: u8, z: u8, w: u8, v: u8)
    requires
        algebra::in_field(f, x),
        algebra::in_field(f, y),
        algebra::in_field(f, z),
        algebra::in_field(f, w),
        algebra::in_field(f, v),
        x != y,
        x != w,
    ensures
        algebra::fmul(f, z ^ y, algebra::fmul(f, entry(f, x, y), v)) ^ algebra::fmul(
            f,
            z ^ w,
            algebra::fmul(f, entry(f, x, w), v),
        ) == algebra::fmul(
            f,
            w ^ y,
            algebra::fmul(
                f,
                entry(f, x, y),
                algebra::fmul(f, v, algebra::fmul(f, z ^ x, entry(f, x, w))),
            ),
        ),
{
    let pi = entry(f, x, y);
    let qi = entry(f, x, w);
    let t = z ^ x;
    let d = w ^ y;
    lemma_entry(f, x, y);
    lemma_entry(f, x, w);
    algebra::lemma_xor(z, x, 0, 0);
    algebra::lemma_xor(z, y, 0, 0);
    algebra::lemma_xor(z, w, 0, 0);
    algebra::lemma_xor(w, y, 0, 0);
    algebra::lemma_fmul_assoc(f, z ^ y, pi, v);
    algebra::lemma_fmul_assoc(f, z ^ w, qi, v);
    lemma_shift(f, x, y, z);
    lemma_shift(f, x, w, z);
    let tp = algebra::fmul(f, t, pi);
    let tq = algebra::fmul(f, t, qi);
    algebra::lemma_fmul_closed(f, t, pi);
    algebra::lemma_fmul_closed(f, t, qi);
    algebra::lemma_fmul_closed(f, z ^ y, pi);
    algebra::lemma_fmul_closed(f, z ^ w, qi);
    algebra::lemma_xor(tp, 1, tq, 1);
    algebra::lemma_xor(tp ^ tq, 0, 0, 0);
    algebra::lemma_xor(1, 1, 0, 0);
    // the left side is (tp + tq) * v == t * (pi + qi) * v
    algebra::lemma_fmul_distrib(f, v, algebra::fmul(f, z ^ y, pi), algebra::fmul(f, z ^ w, qi));
    algebra::lemma_fmul_distrib(f, t, pi, qi);
    lemma_entry_sum(f, x, y, w);
    // rearrange v * (t * (d * (pi * qi)))
    let pq = algebra::fmul(f, pi, qi);
    algebra::lemma_fmul_closed(f, pi, qi);
    algebra::lemma_xor(pi, qi, 0, 0);
    algebra::lemma_fmul_closed(f, t, pi ^ qi);
    algebra::lemma_fmul_comm(f, algebra::fmul(f, t, pi ^ qi), v);
    lemma_swap(f, t, d, pq);
    lemma_swap(f, t, pi, qi);
    lemma_swap(f, v, d, algebra::fmul(f, t, pq));
    lemma_swap(f, v, pi, tq);
}

/// The vector that is left over the first columns after the column of `z` has
/// been eliminated through the row of `w`.
spec fn eliminated(f: Field, xs: Seq<u8>, z: u8, w: u8, v: Seq<u8>) -> Seq<u8> {
    Seq::new(
        v.len(),
        |j: int| algebra::fmul(f, v[j], algebra::fmul(f, z ^ xs[j], entry(f, xs[j], w))),
    )
}

proof fn lemma_row_product_in_field(f: Field, xs: Seq<u8>, y: u8, v: Seq<u8>, n: nat)
    requires
        n <= xs.len(),
        n <= v.len(),
        all_in_field(f, xs),
        all_in_field(f, v),
        algebra::in_field(f, y),
        forall|j: int| 0 <= j < n ==> xs[j] != y,
    ensures
        algebra::in_field(f, row_product(f, xs, y, v, n)),
    decreases n,
{
    if n > 0 {
        lemma_row_product_in_field(f, xs, y, v, (n - 1) as nat);
        lemma_entry(f, xs[n - 1], y);
        algebra::lemma_fmul_closed(f, entry(f, xs[n - 1], y), v[n - 1]);
        algebra::lemma_xor(
            row_product(f, xs, y, v, (n - 1) as nat),
            algebra::fmul(f, entry(f, xs[n - 1], y), v[n - 1]),
            0,
            0,
        );
    }
}

/// The elimination step on whole rows.
proof fn lemma_rows(f: Field, xs: Seq<u8>, y: u8, z: u8, w: u8, v: Seq<u8>, n: nat)
    requires
        n <= xs.len(),
        n <= v.len(),
        all_in_field(f, xs),
        all_in_field(f, v),
        algebra::in_field(f, y),
        algebra::in_field(f, z),
        algebra::in_field(f, w),
        forall|j: int| 0 <= j < n ==> xs[j] != y && xs[j] != w,
    ensures
        algebra::fmul(f, z ^ y, row_product(f, xs, y, v, n)) ^ algebra::fmul(
            f,
            z ^ w,
            row_product(f, xs, w, v, n),
        ) == algebra::fmul(f, w ^ y, row_product(f, xs, y, eliminated(f, xs, z, w, v), n)),
        algebra::in_field(f, row_product(f, xs, y, eliminated(f, xs, z, w, v), n)),
    decreases n,
{
    let u = eliminated(f, xs, z, w, v);
    algebra::lemma_xor(z, y, 0, 0);
    algebra::lemma_xor(z, w, 0, 0);
    algebra::lemma_xor(w, y, 0, 0);
    if n == 0 {
        algebra::lemma_fmul_units(f, z ^ y);
        algebra::lemma_fmul_units(f, z ^ w);
        algebra::lemma_fmul_units(f, w ^ y);
        algebra::lemma_xor(0, 0, 0, 0);
    } else {
        let m = (n - 1) as nat;
        let x = xs[m as int];
        lemma_rows(f, xs, y, z, w, v, m);
        lemma_row_product_in_field(f, xs, y, v, m);
        lemma_row_product_in_field(f, xs, w, v, m);
        lemma_column(f, x, y, z, w, v[m as int]);
        lemma_entry(f, x, y);
        lemma_entry(f, x, w);
        algebra::lemma_xor(z, x, 0, 0);
        let a = row_product(f, xs, y, v, m);
        let b = algebra::fmul(f, entry(f, x, y), v[m as int]);
        let c = row_product(f, xs, w, v, m);
        let d = algebra::fmul(f, entry(f, x, w), v[m as int]);
        let e = row_product(f, xs, y, u, m);
        let tq = algebra::fmul(f, z ^ x, entry(f, x, w));
        algebra::lemma_fmul_closed(f, z ^ x, entry(f, x, w));
        algebra::lemma_fmul_closed(f, v[m as int], tq);
        let g = algebra::fmul(f, entry(f, x, y), u[m as int]);
        algebra::lemma_fmul_closed(f, entry(f, x, y), v[m as int]);
        algebra::lemma_fmul_closed(f, entry(f, x, w), v[m as int]);
        algebra::lemma_fmul_closed(f, entry(f, x, y), u[m as int]);
        algebra::lemma_fmul_distrib(f, z ^ y, a, b);
        algebra::lemma_fmul_distrib(f, z ^ w, c, d);
        algebra::lemma_fmul_distrib(f, w ^ y, e, g);
        algebra::lemma_xor(
            algebra::fmul(f, z ^ y, a),
            algebra::fmul(f, z ^ y, b),
            algebra::fmul(f, z ^ w, c),
            algebra::fmul(f, z ^ w, d),
        );
        algebra::lemma_xor(e, g, 0, 0);
    }
}

/// A row product over a prefix does not read the rest.
pub proof fn lemma_row_product_prefix(f: Field, xs: Seq<u8>, xt: Seq<u8>, y: u8, v: Seq<u8>, u: Seq<u8>, n: nat)
    requires
        n <= xs.len(),
        n <= xt.len(),
        n <= v.len(),
        n <= u.len(),
        forall|j: int| 0 <= j < n ==> xs[j] == xt[j] && v[j] == u[j],
    ensures
        row_product(f, xs, y, v, n) == row_product(f, xt, y, u, n),
    decreases n,
{
    if n > 0 {
        lemma_row_product_prefix(f, xs, xt, y, v, u, (n - 1) as nat);
    }
}

/// Every square Cauchy matrix is regular: a vector whose product with every row
/// is zero is the zero vector.
pub proof fn lemma_cauchy_regular(f: Field, xs: Seq<u8>, ys: Seq<u8>, v: Seq<u8>)
    requires
        cauchy_points(f, xs, ys),
        v.len() == xs.len(),
        all_in_field(f, v),
        forall|i: int|
            0 <= i < ys.len() ==> #[trigger] row_product(f, xs, ys[i], v, xs.len()) == 0,
    ensures
        forall|j: int| 0 <= j < v.len() ==> #[trigger] v[j] == 0,
    decreases xs.len(),
{
    let k = xs.len();
    if k > 0 {
        let n = (k - 1) as nat;
        let z = xs[n as int];
        let w = ys[n as int];
        let last = v[n as int];
        let u = eliminated(f, xs, z, w, v);
        let xs0 = xs.drop_last();
        let ys0 = ys.drop_last();
        let u0 = u.drop_last();
        assert forall|j: int| 0 <= j < k implies algebra::in_field(f, #[trigger] u[j]) by {
            lemma_entry(f, xs[j], w);
            algebra::lemma_xor(z, xs[j], 0, 0);
            algebra::lemma_fmul_closed(f, z ^ xs[j], entry(f, xs[j], w));
            algebra::lemma_fmul_closed(f, v[j], algebra::fmul(f, z ^ xs[j], entry(f, xs[j], w)));
        }
        // every row y: (z + y) * row_product(y, n) == last
        assert forall|i: int| 0 <= i < k implies algebra::fmul(
            f,
            z ^ ys[i],
            #[trigger] row_product(f, xs, ys[i], v, n),
        ) == last by {
            let y = ys[i];
            let a = row_product(f, xs, y, v, n);
            assert(row_product(f, xs, y, v, k) == 0);
            lemma_row_product_in_field(f, xs, y, v, n);
            lemma_entry(f, z, y);
            let b = algebra::fmul(f, entry(f, z, y), last);
            algebra::lemma_xor(a, b, 0, 0);
            algebra::lemma_fmul_assoc(f, z ^ y, entry(f, z, y), last);
            algebra::lemma_fmul_units(f, last);
        }
        assert forall|i: int| 0 <= i < n implies #[trigger] row_product(f, xs0, ys0[i], u0, n)
            == 0 by {
            let y = ys[i];
            lemma_rows(f, xs, y, z, w, v, n);
            assert(algebra::fmul(f, z ^ y, row_product(f, xs, ys[i], v, n)) == last);
            assert(algebra::fmul(f, z ^ w, row_product(f, xs, ys[n as int], v, n)) == last);
            algebra::lemma_xor(last, last, 0, 0);
            algebra::lemma_xor(w, y, 0, 0);
            algebra::lemma_fmul_nonzero(f, w ^ y, row_product(f, xs, y, u, n));
            lemma_row_product_prefix(f, xs, xs0, y, u, u0, n);
        }
        lemma_cauchy_regular(f, xs0, ys0, u0);
        assert forall|j: int| 0 <= j < n implies #[trigger] v[j] == 0 by {
            assert(u0[j] == 0);
            lemma_entry(f, xs[j], w);
            algebra::lemma_xor(z, xs[j], 0, 0);
            algebra::lemma_fmul_closed(f, z ^ xs[j], entry(f, xs[j], w));
            algebra::lemma_fmul_nonzero(f, z ^ xs[j], entry(f, xs[j], w));
            algebra::lemma_fmul_nonzero(
                f,
                v[j],
                algebra::fmul(f, z ^ xs[j], entry(f, xs[j], w)),
            );
        }
        // the last component: (z + w) * 0 == last
        lemma_row_product_zero(f, xs, w, v, n);
        assert(algebra::fmul(f, z ^ ys[n as int], row_product(f, xs, ys[n as int], v, n)) == last);
        algebra::lemma_xor(z, w, 0, 0);
        algebra::lemma_fmul_units(f, z ^ w);
    }
}

proof fn lemma_row_product_zero(f: Field, xs: Seq<u8>, y: u8, v: Seq<u8>, n: nat)
    requires
        n <= xs.len(),
        n <= v.len(),
        all_in_field(f, xs),
        algebra::in_field(f, y),
        forall|j: int| 0 <= j < n ==> xs[j] != y,
        forall|j: int| 0 <= j < n ==> v[j] == 0,
    ensures
        row_product(f, xs, y, v, n) == 0,
    decreases n,
{
    if n > 0 {
        lemma_row_product_zero(f, xs, y, v, (n - 1) as nat);
        lemma_entry(f, xs[n - 1], y);
        algebra::lemma_fmul_units(f, entry(f, xs[n - 1], y));
        algebra::lemma_xor(0, 0, 0, 0);
    }
}

} // verus!
