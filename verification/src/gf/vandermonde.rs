//! Vandermonde systems: matrices of the powers `alpha^(s * c)`.
//!
//! Not all of their square submatrices are regular.  Those over consecutive rows
//! are, and those over consecutive columns.
use vstd::prelude::*;

use crate::config::Field;
use crate::gf::algebra;
use crate::gf::cauchy::all_in_field;
use crate::gf::tables;

verus! {

/// The power `alpha^(s * c)`.
pub open spec fn power(f: Field, s: nat, c: nat) -> u8 {
    algebra::alpha_pow(f, s * c)
}

/// The product of row `c` with the vector `v`, over the first `n` columns.
pub open spec fn row_product(f: Field, srcs: Seq<nat>, c: nat, v: Seq<u8>, n: nat) -> u8
    decreases n,
{
    if n == 0 {
        0
    } else {
        row_product(f, srcs, c, v, (n - 1) as nat) ^ algebra::fmul(
            f,
            power(f, srcs[n - 1], c),
            v[n - 1],
        )
    }
}

/// The powers of `alpha` with these exponents differ.
pub open spec fn powers_differ(f: Field, s: Seq<nat>) -> bool {
    forall|i: int, j: int|
        0 <= i < j < s.len() ==> (#[trigger] s[i]) % algebra::group_order(f) != (#[trigger] s[j])
            % algebra::group_order(f)
}

proof fn lemma_power(f: Field, s: nat, c: nat)
    ensures
        algebra::in_field(f, power(f, s, c)),
        power(f, s, c) != 0,
        power(f, s, c) == power(f, c, s),
        power(f, s, 1) == algebra::alpha_pow(f, s),
        power(f, s, c + 1) == algebra::fmul(f, power(f, s, c), algebra::alpha_pow(f, s)),
        power(f, s, 0) == 1,
{
    algebra::lemma_alpha_pow_range(f, s * c);
    algebra::lemma_alpha_pow_add(f, s * c, s);
    assert(s * c == c * s && s * 1 == s && s * (c + 1) == s * c + s && s * 0 == 0)
        by (nonlinear_arith);
}

/// Powers with exponents that differ modulo the order of the group differ.
proof fn lemma_powers_differ(f: Field, a: nat, b: nat)
    requires
        a % algebra::group_order(f) != b % algebra::group_order(f),
    ensures
        algebra::alpha_pow(f, a) != algebra::alpha_pow(f, b),
{
    let m = algebra::group_order(f);
    algebra::lemma_alpha_pow_period(f, a);
    algebra::lemma_alpha_pow_period(f, b);
    if algebra::alpha_pow(f, a) == algebra::alpha_pow(f, b) {
        tables::lemma_alpha_pow_injective(f, a % m, b % m);
    }
}

proof fn lemma_row_product_in_field(f: Field, srcs: Seq<nat>, c: nat, v: Seq<u8>, n: nat)
    requires
        n <= v.len(),
        n <= srcs.len(),
        all_in_field(f, v),
    ensures
        algebra::in_field(f, row_product(f, srcs, c, v, n)),
    decreases n,
{
    algebra::lemma_xor(0, 0, 0, 0);
    if n > 0 {
        lemma_row_product_in_field(f, srcs, c, v, (n - 1) as nat);
        lemma_power(f, srcs[n - 1], c);
        algebra::lemma_fmul_closed(f, power(f, srcs[n - 1], c), v[n - 1]);
        algebra::lemma_xor(
            row_product(f, srcs, c, v, (n - 1) as nat),
            algebra::fmul(f, power(f, srcs[n - 1], c), v[n - 1]),
            0,
            0,
        );
    }
}

/// A row product over a prefix does not read the rest.
pub proof fn lemma_row_product_prefix(
    f: Field,
    srcs: Seq<nat>,
    other: Seq<nat>,
    c: nat,
    v: Seq<u8>,
    u: Seq<u8>,
    n: nat,
)
    requires
        n <= srcs.len(),
        n <= other.len(),
        n <= v.len(),
        n <= u.len(),
        forall|j: int| 0 <= j < n ==> srcs[j] == other[j] && v[j] == u[j],
    ensures
        row_product(f, srcs, c, v, n) == row_product(f, other, c, u, n),
    decreases n,
{
    if n > 0 {
        lemma_row_product_prefix(f, srcs, other, c, v, u, (n - 1) as nat);
    }
}

proof fn lemma_row_product_zero(f: Field, srcs: Seq<nat>, c: nat, v: Seq<u8>, n: nat)
    requires
        n <= srcs.len(),
        n <= v.len(),
        forall|j: int| 0 <= j < n ==> v[j] == 0,
    ensures
        row_product(f, srcs, c, v, n) == 0,
    decreases n,
{
    if n > 0 {
        lemma_row_product_zero(f, srcs, c, v, (n - 1) as nat);
        lemma_power(f, srcs[n - 1], c);
        algebra::lemma_fmul_units(f, power(f, srcs[n - 1], c));
        algebra::lemma_xor(0, 0, 0, 0);
    }
}

// ── Consecutive rows ─────────────────────────────────────────────────────

/// The vector `v` with every component multiplied by the difference of its point
/// to `z`.
spec fn differences(f: Field, srcs: Seq<nat>, z: u8, v: Seq<u8>) -> Seq<u8> {
    Seq::new(
        v.len(),
        |j: int| algebra::fmul(f, algebra::alpha_pow(f, srcs[j]) ^ z, v[j]),
    )
}

/// The next row minus `z` times this one.
proof fn lemma_next_row(f: Field, srcs: Seq<nat>, z: u8, c: nat, v: Seq<u8>, n: nat)
    requires
        n <= srcs.len(),
        n <= v.len(),
        all_in_field(f, v),
        algebra::in_field(f, z),
    ensures
        row_product(f, srcs, c, differences(f, srcs, z, v), n) == row_product(
            f,
            srcs,
            c + 1,
            v,
            n,
        ) ^ algebra::fmul(f, z, row_product(f, srcs, c, v, n)),
    decreases n,
{
    algebra::lemma_fmul_units(f, z);
    algebra::lemma_xor(0, 0, 0, 0);
    if n > 0 {
        let m = (n - 1) as nat;
        let s = srcs[n - 1];
        let x = algebra::alpha_pow(f, s);
        let p = power(f, s, c);
        let w = v[n - 1];
        let a = row_product(f, srcs, c + 1, v, m);
        let b = row_product(f, srcs, c, v, m);
        lemma_next_row(f, srcs, z, c, v, m);
        lemma_power(f, s, c);
        algebra::lemma_alpha_pow_range(f, s);
        lemma_row_product_in_field(f, srcs, c, v, m);
        lemma_row_product_in_field(f, srcs, c + 1, v, m);
        algebra::lemma_fmul_closed(f, p, w);
        algebra::lemma_fmul_closed(f, p, x);
        algebra::lemma_fmul_closed(f, x, w);
        algebra::lemma_fmul_closed(f, z, w);
        // p * ((x + z) * w) == (p * x) * w + z * (p * w)
        algebra::lemma_xor(x, z, 0, 0);
        algebra::lemma_fmul_comm(f, x ^ z, w);
        algebra::lemma_fmul_distrib(f, w, x, z);
        algebra::lemma_fmul_comm(f, w, x);
        algebra::lemma_fmul_comm(f, w, z);
        algebra::lemma_fmul_distrib(f, p, algebra::fmul(f, x, w), algebra::fmul(f, z, w));
        algebra::lemma_fmul_assoc(f, p, x, w);
        algebra::lemma_fmul_assoc(f, p, z, w);
        algebra::lemma_fmul_comm(f, p, z);
        algebra::lemma_fmul_assoc(f, z, p, w);
        // z * (b + p * w) == z * b + z * (p * w)
        algebra::lemma_fmul_distrib(f, z, b, algebra::fmul(f, p, w));
        algebra::lemma_xor(
            a,
            algebra::fmul(f, z, b),
            algebra::fmul(f, algebra::fmul(f, p, x), w),
            algebra::fmul(f, z, algebra::fmul(f, p, w)),
        );
    }
}

/// Consecutive rows are regular: a vector whose product with as many consecutive
/// rows is zero is the zero vector.
pub proof fn lemma_rows_regular(f: Field, srcs: Seq<nat>, c: nat, v: Seq<u8>)
    requires
        powers_differ(f, srcs),
        v.len() == srcs.len(),
        all_in_field(f, v),
        forall|i: nat|
            i < srcs.len() ==> #[trigger] row_product(f, srcs, c + i, v, srcs.len()) == 0,
    ensures
        forall|j: int| 0 <= j < v.len() ==> #[trigger] v[j] == 0,
    decreases srcs.len(),
{
    let k = srcs.len();
    if k > 0 {
        let n = (k - 1) as nat;
        let s = srcs[n as int];
        let z = algebra::alpha_pow(f, s);
        let last = v[n as int];
        let u = differences(f, srcs, z, v);
        let srcs0 = srcs.drop_last();
        let u0 = u.drop_last();
        algebra::lemma_alpha_pow_range(f, s);
        assert forall|j: int| 0 <= j < k implies algebra::in_field(f, #[trigger] u[j]) by {
            let x = algebra::alpha_pow(f, srcs[j]);
            algebra::lemma_alpha_pow_range(f, srcs[j]);
            algebra::lemma_xor(x, z, 0, 0);
            algebra::lemma_fmul_closed(f, x ^ z, v[j]);
        }
        // every row without its last column is alpha^(s * c) * last
        assert forall|i: nat| i < k implies #[trigger] row_product(f, srcs, c + i, v, n)
            == algebra::fmul(f, power(f, s, c + i), last) by {
            assert(row_product(f, srcs, c + i, v, k) == 0);
            algebra::lemma_xor(
                row_product(f, srcs, c + i, v, n),
                algebra::fmul(f, power(f, s, c + i), last),
                0,
                0,
            );
        }
        assert forall|i: nat| i < n implies #[trigger] row_product(f, srcs0, c + i, u0, n) == 0 by {
            let d = c + i;
            lemma_next_row(f, srcs, z, d, v, n);
            lemma_row_product_prefix(f, srcs, srcs0, d, u, u0, n);
            assert(row_product(f, srcs, c + i, v, n) == algebra::fmul(f, power(f, s, d), last));
            assert(c + (i + 1) == d + 1);
            assert(row_product(f, srcs, c + (i + 1), v, n) == algebra::fmul(
                f,
                power(f, s, d + 1),
                last,
            ));
            lemma_power(f, s, d);
            let p = power(f, s, d);
            algebra::lemma_fmul_comm(f, p, z);
            algebra::lemma_fmul_assoc(f, z, p, last);
            let t = algebra::fmul(f, power(f, s, d + 1), last);
            algebra::lemma_xor(t, t, 0, 0);
        }
        lemma_rows_regular(f, srcs0, c, u0);
        assert forall|j: int| 0 <= j < n implies #[trigger] v[j] == 0 by {
            assert(u0[j] == 0);
            let x = algebra::alpha_pow(f, srcs[j]);
            lemma_powers_differ(f, srcs[j], s);
            algebra::lemma_alpha_pow_range(f, srcs[j]);
            algebra::lemma_xor(x, z, 0, 0);
            algebra::lemma_fmul_nonzero(f, x ^ z, v[j]);
        }
        lemma_row_product_zero(f, srcs, c, v, n);
        assert(row_product(f, srcs, (c + 0) as nat, v, n) == algebra::fmul(
            f,
            power(f, s, (c + 0) as nat),
            last,
        ));
        lemma_power(f, s, c);
        algebra::lemma_fmul_nonzero(f, power(f, s, c), last);
    }
}

// ── Consecutive columns ──────────────────────────────────────────────────

/// The first `n` natural numbers from `first` on.
pub open spec fn numbers_from(first: nat, n: nat) -> Seq<nat> {
    Seq::new(n, |j: int| (first + j) as nat)
}

/// The polynomial with the coefficients of `v` from place `j` on, at `alpha^z`.
spec fn tail(f: Field, z: nat, v: Seq<u8>, j: nat) -> u8
    decreases v.len() - j,
{
    if j >= v.len() {
        0
    } else {
        v[j as int] ^ algebra::fmul(f, algebra::alpha_pow(f, z), tail(f, z, v, j + 1))
    }
}

/// The polynomial with the coefficients of `v`, divided by its difference to
/// `alpha^z`.
spec fn quotient(f: Field, z: nat, v: Seq<u8>) -> Seq<u8> {
    Seq::new(v.len(), |j: int| tail(f, z, v, (j + 1) as nat))
}

proof fn lemma_tail_in_field(f: Field, z: nat, v: Seq<u8>, j: nat)
    requires
        all_in_field(f, v),
    ensures
        algebra::in_field(f, tail(f, z, v, j)),
    decreases v.len() - j,
{
    algebra::lemma_xor(0, 0, 0, 0);
    if j < v.len() {
        let t = tail(f, z, v, j + 1);
        lemma_tail_in_field(f, z, v, j + 1);
        algebra::lemma_alpha_pow_range(f, z);
        algebra::lemma_fmul_closed(f, algebra::alpha_pow(f, z), t);
        assert(algebra::in_field(f, v[j as int]));
        algebra::lemma_xor(v[j as int], algebra::fmul(f, algebra::alpha_pow(f, z), t), 0, 0);
    }
}

/// Division with remainder, up to the first `n` coefficients.
proof fn lemma_division(f: Field, c: nat, z: nat, v: Seq<u8>, n: nat)
    requires
        n <= v.len(),
        all_in_field(f, v),
    ensures
        ({
            let js = numbers_from(0, v.len());
            row_product(f, js, c, v, n) ^ algebra::fmul(f, power(f, n, c), tail(f, z, v, n))
                == tail(f, z, v, 0) ^ algebra::fmul(
                f,
                algebra::alpha_pow(f, c) ^ algebra::alpha_pow(f, z),
                row_product(f, js, c, quotient(f, z, v), n),
            )
        }),
    decreases n,
{
    let js = numbers_from(0, v.len());
    let q = quotient(f, z, v);
    let x = algebra::alpha_pow(f, c);
    let y = algebra::alpha_pow(f, z);
    algebra::lemma_alpha_pow_range(f, c);
    algebra::lemma_alpha_pow_range(f, z);
    algebra::lemma_xor(x, y, 0, 0);
    algebra::lemma_fmul_units(f, x ^ y);
    assert(all_in_field(f, q)) by {
        assert forall|j: int| 0 <= j < q.len() implies algebra::in_field(f, #[trigger] q[j]) by {
            lemma_tail_in_field(f, z, v, (j + 1) as nat);
        }
    }
    lemma_tail_in_field(f, z, v, n);
    if n == 0 {
        let t = tail(f, z, v, 0);
        lemma_power(f, c, 0);
        lemma_power(f, 0, c);
        algebra::lemma_fmul_units(f, t);
        algebra::lemma_xor(t, 0, 0, 0);
    } else {
        let m = (n - 1) as nat;
        let p = power(f, m, c);
        let w = v[m as int];
        let t = tail(f, z, v, n);
        let t0 = tail(f, z, v, m);
        let a = row_product(f, js, c, v, m);
        let b = row_product(f, js, c, q, m);
        lemma_division(f, c, z, v, m);
        lemma_tail_in_field(f, z, v, m);
        lemma_power(f, m, c);
        lemma_power(f, c, m);
        lemma_power(f, n, c);
        lemma_row_product_in_field(f, js, c, v, m);
        lemma_row_product_in_field(f, js, c, q, m);
        assert(js[m as int] == m && q[m as int] == t);
        // t0 == w + y * t, so that w == t0 + y * t
        let yt = algebra::fmul(f, y, t);
        algebra::lemma_fmul_closed(f, y, t);
        algebra::lemma_xor(w, yt, 0, 0);
        assert(w == t0 ^ yt);
        // p * w == p * t0 + p * (y * t)
        algebra::lemma_fmul_distrib(f, p, t0, yt);
        let pt0 = algebra::fmul(f, p, t0);
        let pyt = algebra::fmul(f, p, yt);
        // alpha^(n c) * t == x * (p * t)
        let pt = algebra::fmul(f, p, t);
        algebra::lemma_fmul_closed(f, p, t);
        algebra::lemma_fmul_assoc(f, x, p, t);
        algebra::lemma_fmul_comm(f, p, x);
        assert(power(f, n, c) == algebra::fmul(f, x, p));
        // p * (y * t) == y * (p * t)
        algebra::lemma_fmul_assoc(f, p, y, t);
        algebra::lemma_fmul_comm(f, p, y);
        algebra::lemma_fmul_assoc(f, y, p, t);
        let xpt = algebra::fmul(f, x, pt);
        let ypt = algebra::fmul(f, y, pt);
        assert(pyt == ypt);
        // (x + y) * (p * t) == x * (p * t) + y * (p * t)
        algebra::lemma_fmul_comm(f, x ^ y, pt);
        algebra::lemma_fmul_distrib(f, pt, x, y);
        algebra::lemma_fmul_comm(f, pt, x);
        algebra::lemma_fmul_comm(f, pt, y);
        algebra::lemma_fmul_distrib(f, x ^ y, b, pt);
        // (a + (pt0 + ypt)) + xpt == (a + pt0) + (xpt + ypt)
        algebra::lemma_xor(a, pt0, ypt, 0);
        algebra::lemma_xor(a ^ pt0, ypt, xpt, 0);
        algebra::lemma_xor(xpt, ypt, 0, 0);
        let r = tail(f, z, v, 0);
        let s = algebra::fmul(f, x ^ y, b);
        algebra::lemma_xor(r, s, xpt ^ ypt, 0);
    }
}

/// A polynomial with as many zeros among the powers of `alpha` as it has
/// coefficients is zero.
proof fn lemma_polynomial_zero(f: Field, coded: Seq<nat>, v: Seq<u8>)
    requires
        powers_differ(f, coded),
        v.len() == coded.len(),
        all_in_field(f, v),
        forall|i: int|
            0 <= i < coded.len() ==> row_product(
                f,
                numbers_from(0, v.len()),
                #[trigger] coded[i],
                v,
                v.len(),
            ) == 0,
    ensures
        forall|j: int| 0 <= j < v.len() ==> #[trigger] v[j] == 0,
    decreases v.len(),
{
    let k = v.len();
    if k > 0 {
        let n = (k - 1) as nat;
        let z = coded[n as int];
        let y = algebra::alpha_pow(f, z);
        let js = numbers_from(0, k);
        let js0 = numbers_from(0, n);
        let q = quotient(f, z, v);
        let q0 = q.drop_last();
        let coded0 = coded.drop_last();
        algebra::lemma_alpha_pow_range(f, z);
        assert(all_in_field(f, q)) by {
            assert forall|j: int| 0 <= j < q.len() implies algebra::in_field(f, #[trigger] q[j]) by {
                lemma_tail_in_field(f, z, v, (j + 1) as nat);
            }
        }
        assert(all_in_field(f, q0));
        let r = tail(f, z, v, 0);
        lemma_tail_in_field(f, z, v, 0);
        assert(q[n as int] == 0);
        // the value at alpha^z is the remainder
        assert(r == 0) by {
            lemma_division(f, z, z, v, k);
            lemma_power(f, k, z);
            algebra::lemma_fmul_units(f, power(f, k, z));
            lemma_row_product_in_field(f, js, z, q, k);
            algebra::lemma_fmul_units(f, row_product(f, js, z, q, k));
            algebra::lemma_xor(y, y, 0, 0);
            algebra::lemma_xor(r, 0, 0, 0);
            assert(row_product(f, js, coded[n as int], v, k) == 0);
        }
        assert forall|i: int| 0 <= i < n implies row_product(
            f,
            js0,
            #[trigger] coded0[i],
            q0,
            n,
        ) == 0 by {
            let c = coded[i];
            let x = algebra::alpha_pow(f, c);
            assert(coded0[i] == c);
            assert(row_product(f, js, coded[i], v, k) == 0);
            lemma_division(f, c, z, v, k);
            lemma_power(f, k, c);
            algebra::lemma_fmul_units(f, power(f, k, c));
            let b = row_product(f, js, c, q, k);
            lemma_row_product_in_field(f, js, c, q, k);
            algebra::lemma_alpha_pow_range(f, c);
            lemma_powers_differ(f, c, z);
            algebra::lemma_xor(x, y, 0, 0);
            algebra::lemma_xor(0, algebra::fmul(f, x ^ y, b), 0, 0);
            algebra::lemma_fmul_nonzero(f, x ^ y, b);
            // the last coefficient of the quotient is zero
            lemma_power(f, n, c);
            algebra::lemma_fmul_units(f, power(f, n, c));
            algebra::lemma_xor(row_product(f, js, c, q, n), 0, 0, 0);
            lemma_row_product_prefix(f, js, js0, c, q, q0, n);
        }
        lemma_polynomial_zero(f, coded0, q0);
        assert forall|j: int| 0 <= j <= k implies #[trigger] tail(f, z, v, j as nat) == 0 by {
            if 0 < j < k {
                assert(q0[j - 1] == 0);
            }
        }
        assert forall|j: int| 0 <= j < k implies #[trigger] v[j] == 0 by {
            assert(tail(f, z, v, j as nat) == 0);
            assert(tail(f, z, v, (j + 1) as nat) == 0);
            algebra::lemma_fmul_units(f, y);
            algebra::lemma_xor(v[j], 0, 0, 0);
        }
    }
}

/// A row over consecutive columns is a multiple of a polynomial's value.
proof fn lemma_row_factor(f: Field, first: nat, c: nat, v: Seq<u8>, n: nat)
    requires
        n <= v.len(),
        all_in_field(f, v),
    ensures
        row_product(f, numbers_from(first, v.len()), c, v, n) == algebra::fmul(
            f,
            power(f, first, c),
            row_product(f, numbers_from(0, v.len()), c, v, n),
        ),
    decreases n,
{
    let p = power(f, first, c);
    lemma_power(f, first, c);
    algebra::lemma_fmul_units(f, p);
    if n > 0 {
        let m = (n - 1) as nat;
        let js = numbers_from(0, v.len());
        let w = v[m as int];
        lemma_row_factor(f, first, c, v, m);
        lemma_row_product_in_field(f, js, c, v, m);
        lemma_power(f, m, c);
        algebra::lemma_alpha_pow_add(f, first * c, m * c);
        assert((first + m) * c == first * c + m * c) by (nonlinear_arith);
        assert(numbers_from(first, v.len())[m as int] == first + m && js[m as int] == m);
        algebra::lemma_fmul_closed(f, power(f, m, c), w);
        algebra::lemma_fmul_assoc(f, p, power(f, m, c), w);
        algebra::lemma_fmul_distrib(
            f,
            p,
            row_product(f, js, c, v, m),
            algebra::fmul(f, power(f, m, c), w),
        );
    }
}

/// Consecutive columns are regular: a vector whose product with as many rows over
/// consecutive columns is zero is the zero vector.
pub proof fn lemma_columns_regular(f: Field, first: nat, coded: Seq<nat>, v: Seq<u8>)
    requires
        powers_differ(f, coded),
        v.len() == coded.len(),
        all_in_field(f, v),
        forall|i: int|
            0 <= i < coded.len() ==> row_product(
                f,
                numbers_from(first, v.len()),
                #[trigger] coded[i],
                v,
                v.len(),
            ) == 0,
    ensures
        forall|j: int| 0 <= j < v.len() ==> #[trigger] v[j] == 0,
{
    let js = numbers_from(0, v.len());
    assert forall|i: int| 0 <= i < coded.len() implies row_product(
        f,
        js,
        #[trigger] coded[i],
        v,
        v.len(),
    ) == 0 by {
        let c = coded[i];
        lemma_row_factor(f, first, c, v, v.len());
        lemma_power(f, first, c);
        lemma_row_product_in_field(f, js, c, v, v.len());
        algebra::lemma_fmul_nonzero(f, power(f, first, c), row_product(f, js, c, v, v.len()));
    }
    lemma_polynomial_zero(f, coded, v);
}

} // verus!
