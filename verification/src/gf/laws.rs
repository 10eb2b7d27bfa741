//! The two fields, by what their operations do.
//!
//! Addition is exclusive or.  Multiplication by two is a shift that wraps around by the
//! field's polynomial, and with the laws of a field that fixes every product.
use vstd::prelude::*;

use crate::config::Field;
use crate::gf::algebra;
use crate::gf::simd;
use crate::gf::tables;
use crate::wire::ev::coef_gen;

verus! {

/// Twice an element: the polynomials are `x^8 + x^4 + x^3 + x^2 + 1` and `x^4 + x + 1`.
/// The powers of two are the powers of the generator.
pub proof fn lemma_doubling(f: Field, a: u8, n: nat)
    requires
        algebra::in_field(f, a),
    ensures
        f == Field::Gf2_8 ==> algebra::fmul(f, a, 2) == (if a < 128 {
            (2 * a) as u8
        } else {
            ((2 * a - 256) as u8) ^ 29u8
        }),
        f == Field::Gf2_4 ==> algebra::fmul(f, a, 2) == (if a < 8 {
            (2 * a) as u8
        } else {
            ((2 * a - 16) as u8) ^ 3u8
        }),
        algebra::alpha_pow(f, 0) == 1,
        algebra::alpha_pow(f, n + 1) == algebra::fmul(f, algebra::alpha_pow(f, n), 2),
{
    let p = algebra::alpha_pow(f, n);
    algebra::lemma_alpha_pow_range(f, n);
    lemma_twice(f, a);
    lemma_twice(f, p);
    assert((n + 1 - 1) as nat == n);
    lemma_shifted(a);
}

/// A shift that wraps around by the polynomial.
proof fn lemma_shifted(a: u8)
    ensures
        algebra::gf8_xtime(a) == (if a < 128 {
            (2 * a) as u8
        } else {
            ((2 * a - 256) as u8) ^ 29u8
        }),
        a < 16 ==> algebra::gf4_xtime(a) == (if a < 8 {
            (2 * a) as u8
        } else {
            ((2 * a - 16) as u8) ^ 3u8
        }),
{
    assert(algebra::gf8_xtime(a) == (if a < 128 {
        (2 * a) as u8
    } else {
        ((2 * a - 256) as u8) ^ 29u8
    }) && (a < 16 ==> algebra::gf4_xtime(a) == (if a < 8 {
        (2 * a) as u8
    } else {
        ((2 * a - 16) as u8) ^ 3u8
    }))) by (bit_vector);
}

/// Multiplication by two is that shift.
proof fn lemma_twice(f: Field, a: u8)
    requires
        algebra::in_field(f, a),
    ensures
        algebra::fmul(f, a, 2) == algebra::xtime(f, a),
{
    lemma_shifted(0);
    lemma_shifted(1);
    reveal_with_fuel(algebra::alpha_pow, 2);
    assert(algebra::alpha_pow(f, 1) == 2);
    if a == 0 {
        algebra::lemma_fmul_units(f, 2);
    } else {
        tables::lemma_flog(f, a);
        let k = tables::flog(f, a);
        algebra::lemma_alpha_pow_add(f, k, 1);
        assert((k + 1 - 1) as nat == k);
    }
}

/// Division undoes multiplication, and an inverse is a quotient of one.
pub proof fn lemma_quotient(f: Field, a: u8, b: u8)
    requires
        algebra::in_field(f, a),
        algebra::in_field(f, b),
        b != 0,
    ensures
        algebra::fmul(f, algebra::fdiv(f, a, b), b) == a,
        algebra::fdiv(f, algebra::fmul(f, a, b), b) == a,
        algebra::fmul(f, algebra::finv(f, b), b) == 1,
        algebra::fdiv(f, 1, b) == algebra::finv(f, b),
{
    let i = algebra::finv(f, b);
    algebra::lemma_finv(f, b);
    algebra::lemma_fmul_assoc(f, a, i, b);
    algebra::lemma_fmul_assoc(f, a, b, i);
    algebra::lemma_fmul_comm(f, i, b);
    algebra::lemma_fmul_units(f, a);
    algebra::lemma_fmul_units(f, i);
}

/// Two elements of the small field stand in a byte, the first one in the high half.
pub proof fn lemma_halves(h: u8, l: u8, b: u8)
    requires
        h < 16,
        l < 16,
    ensures
        algebra::pack(h, l) == 16 * h + l,
        algebra::hi_nibble(b) == b / 16,
        algebra::lo_nibble(b) == b % 16,
{
    assert(((h << 4u8) | l) == 16 * h + l) by (bit_vector)
        requires
            h < 16,
            l < 16,
    ;
    assert(b >> 4u8 == b / 16 && b & 0x0f == b % 16) by (bit_vector);
}

/// Multiplication of packed bytes takes each half by itself.
pub proof fn lemma_packed_product(b: u8, c: u8)
    ensures
        algebra::gf4_mul_packed(b, c) / 16 == algebra::fmul(Field::Gf2_4, b / 16, c / 16),
        algebra::gf4_mul_packed(b, c) % 16 == algebra::fmul(Field::Gf2_4, b % 16, c % 16),
{
    lemma_halves(0, 0, b);
    lemma_halves(0, 0, c);
    algebra::lemma_fmul_closed(Field::Gf2_4, b / 16, c / 16);
    algebra::lemma_fmul_closed(Field::Gf2_4, b % 16, c % 16);
    let h = algebra::fmul(Field::Gf2_4, b / 16, c / 16);
    let l = algebra::fmul(Field::Gf2_4, b % 16, c % 16);
    lemma_halves(h, l, 0);
}

/// A byte of a symbol is multiplied as one element of the large field, or as two of the
/// small one, half by half.  A number is taken into the small field by its low half.
pub proof fn lemma_scaled(c: u8, b: u8)
    ensures
        algebra::scale_byte(Field::Gf2_8, c, b) == algebra::fmul(Field::Gf2_8, c, b),
        c < 16 ==> algebra::scale_byte(Field::Gf2_4, c, b) / 16 == algebra::fmul(
            Field::Gf2_4,
            c,
            b / 16,
        ),
        c < 16 ==> algebra::scale_byte(Field::Gf2_4, c, b) % 16 == algebra::fmul(
            Field::Gf2_4,
            c,
            b % 16,
        ),
        algebra::reduce(Field::Gf2_8, b) == b,
        algebra::reduce(Field::Gf2_4, b) == b % 16,
{
    lemma_halves(0, 0, b);
    if c < 16 {
        algebra::lemma_fmul_closed(Field::Gf2_4, c, b / 16);
        algebra::lemma_fmul_closed(Field::Gf2_4, c, b % 16);
        let h = algebra::fmul(Field::Gf2_4, c, b / 16);
        let l = algebra::fmul(Field::Gf2_4, c, b % 16);
        lemma_halves(h, l, 0);
    }
}

/// Adding a multiple of `src` to `dst`: nothing for zero, exclusive or for one, and
/// what is added twice is gone again.  Multiples add up as their coefficients do, and a
/// multiple of a multiple is one by the product.
pub proof fn lemma_mul_acc(dst: Seq<u8>, src: Seq<u8>, c: u8, d: u8, i: int)
    requires
        dst.len() == src.len(),
        0 <= i < dst.len(),
    ensures
        simd::gf8_mul_acc(dst, src, c).len() == dst.len(),
        simd::gf8_mul_acc(dst, src, 0)[i] == dst[i],
        simd::gf8_mul_acc(dst, src, 1)[i] == dst[i] ^ src[i],
        simd::gf8_mul_acc(simd::gf8_mul_acc(dst, src, c), src, c)[i] == dst[i],
        simd::gf8_mul_acc(simd::gf8_mul_acc(dst, src, c), src, d)[i] == simd::gf8_mul_acc(
            dst,
            src,
            c ^ d,
        )[i],
        simd::gf8_mul_acc(dst, simd::gf8_mul_scale(src, c), d)[i] == simd::gf8_mul_acc(
            dst,
            src,
            algebra::fmul(Field::Gf2_8, c, d),
        )[i],
{
    let f = Field::Gf2_8;
    let s = src[i];
    let x = dst[i];
    algebra::lemma_fmul_units(f, s);
    algebra::lemma_fmul_distrib(f, s, c, d);
    algebra::lemma_fmul_assoc(f, s, c, d);
    let p = algebra::fmul(f, s, c);
    let q = algebra::fmul(f, s, d);
    assert((x ^ p) ^ p == x && x ^ 0u8 == x && (x ^ p) ^ q == x ^ (p ^ q)) by (bit_vector);
}

/// Scaling by an element and by its inverse gives back what was there, and scaling by
/// one changes nothing.
pub proof fn lemma_mul_scale(buf: Seq<u8>, c: u8, i: int)
    requires
        0 <= i < buf.len(),
        c != 0,
    ensures
        simd::gf8_mul_scale(buf, c).len() == buf.len(),
        simd::gf8_mul_scale(buf, 1)[i] == buf[i],
        simd::gf8_mul_scale(buf, 0)[i] == 0,
        simd::gf8_mul_scale(simd::gf8_mul_scale(buf, c), algebra::finv(Field::Gf2_8, c))[i]
            == buf[i],
{
    let f = Field::Gf2_8;
    let b = buf[i];
    algebra::lemma_finv(f, c);
    algebra::lemma_fmul_assoc(f, b, c, algebra::finv(f, c));
    algebra::lemma_fmul_units(f, b);
}

/// The same over the small field, half by half.
pub proof fn lemma_packed_slices(dst: Seq<u8>, src: Seq<u8>, c: u8, i: int)
    requires
        dst.len() == src.len(),
        0 <= i < dst.len(),
    ensures
        simd::gf4_mul_acc(dst, src, c).len() == dst.len(),
        simd::gf4_mul_scale(src, c).len() == src.len(),
        simd::gf4_mul_scale(src, c)[i] / 16 == algebra::fmul(Field::Gf2_4, src[i] / 16, c / 16),
        simd::gf4_mul_scale(src, c)[i] % 16 == algebra::fmul(Field::Gf2_4, src[i] % 16, c % 16),
        simd::gf4_mul_acc(dst, src, c)[i] == dst[i] ^ simd::gf4_mul_scale(src, c)[i],
{
    lemma_packed_product(src[i], c);
}

// ── Coefficients ─────────────────────────────────────────────────────────

/// A Vandermonde row is the powers of one element: it starts with one, goes on with
/// the generator to the coded id, and each entry is the one before times that.
pub proof fn lemma_vandermonde_row(f: Field, src_id: u32, coded_id: u32)
    ensures
        coef_gen::vandermonde(f, 0, coded_id) == 1,
        coef_gen::vandermonde(f, 1, coded_id) == algebra::alpha_pow(f, coded_id as nat),
        src_id < u32::MAX ==> coef_gen::vandermonde(f, (src_id + 1) as u32, coded_id)
            == algebra::fmul(
            f,
            coef_gen::vandermonde(f, src_id, coded_id),
            coef_gen::vandermonde(f, 1, coded_id),
        ),
{
    let c = coded_id as nat;
    let s = src_id as nat;
    assert(0 * c == 0 && 1 * c == c) by (nonlinear_arith);
    algebra::lemma_alpha_pow_add(f, s * c, c);
    assert((s + 1) * c == s * c + c) by (nonlinear_arith);
}

/// A Cauchy coefficient is the inverse of the sum of two points: that of the source
/// id, in the lower half of the field, and that of the coded id, in the upper half and
/// moved on with each generation.
pub proof fn lemma_cauchy_points(src_id: u32, coded_id: u32, generation: u8)
    ensures
        algebra::fmul(
            Field::Gf2_8,
            coef_gen::cauchy(Field::Gf2_8, src_id, coded_id, generation),
            ((src_id % 128) as u8) ^ ((128 + (coded_id + 7 * generation) % 128) as u8),
        ) == 1,
        algebra::fmul(
            Field::Gf2_4,
            coef_gen::cauchy(Field::Gf2_4, src_id, coded_id, generation),
            ((src_id % 7) as u8) ^ ((8 + (coded_id + 3 * generation) % 7) as u8),
        ) == 1,
{
    coef_gen::lemma_cauchy_coef(Field::Gf2_8, src_id, coded_id, generation);
    coef_gen::lemma_cauchy_coef(Field::Gf2_4, src_id, coded_id, generation);
    crate::gf::cauchy::lemma_entry(
        Field::Gf2_8,
        coef_gen::cauchy_x(Field::Gf2_8, src_id),
        coef_gen::cauchy_y(Field::Gf2_8, coded_id, generation),
    );
    crate::gf::cauchy::lemma_entry(
        Field::Gf2_4,
        coef_gen::cauchy_x(Field::Gf2_4, src_id),
        coef_gen::cauchy_y(Field::Gf2_4, coded_id, generation),
    );
}

} // verus!
