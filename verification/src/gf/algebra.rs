//! The arithmetic of GF(2^4) and GF(2^8) as mathematics, and the laws of both
//! fields.
//!
//! An element of either field is a `u8`; the elements of GF(2^4) are those
//! below 16.  Addition is exclusive or in both fields.
use vstd::prelude::*;

use crate::config::Field;
use crate::gf::tables;

verus! {

// ── GF(2^8) ──────────────────────────────────────────────────────────────

/// Multiplication by `x` in GF(2^8), modulo `x^8 + x^4 + x^3 + x^2 + 1`.
pub open spec fn gf8_xtime(a: u8) -> u8 {
    (a << 1u8) ^ (if a & 0x80 != 0 { 0x1du8 } else { 0u8 })
}

/// `a` where the bit `bit` is set in `b`, else zero.
pub open spec fn gated(a: u8, b: u8, bit: u8) -> u8 {
    if b & bit != 0 { a } else { 0 }
}

/// Multiplication in GF(2^8): the sum of `a * x^i` over the bits `i` set in `b`.
#[verifier::opaque]
pub open spec fn gf8_mul(a: u8, b: u8) -> u8 {
    let a1 = gf8_xtime(a);
    let a2 = gf8_xtime(a1);
    let a3 = gf8_xtime(a2);
    let a4 = gf8_xtime(a3);
    let a5 = gf8_xtime(a4);
    let a6 = gf8_xtime(a5);
    let a7 = gf8_xtime(a6);
    gated(a, b, 1) ^ gated(a1, b, 2) ^ gated(a2, b, 4) ^ gated(a3, b, 8)
        ^ gated(a4, b, 16) ^ gated(a5, b, 32) ^ gated(a6, b, 64) ^ gated(a7, b, 128)
}

// ── GF(2^4) ──────────────────────────────────────────────────────────────

/// Multiplication by `x` in GF(2^4), modulo `x^4 + x + 1`.
pub open spec fn gf4_xtime(a: u8) -> u8 {
    ((a << 1u8) & 0x0f) ^ (if a & 0x08 != 0 { 0x03u8 } else { 0u8 })
}

/// Multiplication in GF(2^4): the sum of `a * x^i` over the bits `i` set in `b`.
#[verifier::opaque]
pub open spec fn gf4_mul(a: u8, b: u8) -> u8 {
    let a1 = gf4_xtime(a);
    let a2 = gf4_xtime(a1);
    let a3 = gf4_xtime(a2);
    gated(a, b, 1) ^ gated(a1, b, 2) ^ gated(a2, b, 4) ^ gated(a3, b, 8)
}

/// The byte that holds the GF(2^4) elements `hi` and `lo`.
pub open spec fn pack(hi: u8, lo: u8) -> u8 {
    (hi << 4u8) | lo
}

/// The element in the high nibble of a packed byte.
pub open spec fn hi_nibble(b: u8) -> u8 {
    b >> 4u8
}

/// The element in the low nibble of a packed byte.
pub open spec fn lo_nibble(b: u8) -> u8 {
    b & 0x0f
}

/// Nibble-wise product of two packed bytes.
pub open spec fn gf4_mul_packed(byte: u8, coef: u8) -> u8 {
    pack(
        gf4_mul(hi_nibble(byte), hi_nibble(coef)),
        gf4_mul(lo_nibble(byte), lo_nibble(coef)),
    )
}

// ── Either field ─────────────────────────────────────────────────────────

/// `a` is an element of the field `f`.
pub open spec fn in_field(f: Field, a: u8) -> bool {
    f == Field::Gf2_4 ==> a < 16
}

/// The element of `f` that the byte `v` stands for: GF(2^4) keeps the low nibble.
pub open spec fn reduce(f: Field, v: u8) -> u8 {
    match f {
        Field::Gf2_8 => v,
        Field::Gf2_4 => lo_nibble(v),
    }
}

/// The size of the multiplicative group of `f`.
pub open spec fn group_order(f: Field) -> nat {
    match f {
        Field::Gf2_8 => 255,
        Field::Gf2_4 => 15,
    }
}

/// Multiplication by `alpha`.
pub open spec fn xtime(f: Field, a: u8) -> u8 {
    match f {
        Field::Gf2_8 => gf8_xtime(a),
        Field::Gf2_4 => gf4_xtime(a),
    }
}

/// Multiplication in `f`.
pub open spec fn fmul(f: Field, a: u8, b: u8) -> u8 {
    match f {
        Field::Gf2_8 => gf8_mul(a, b),
        Field::Gf2_4 => gf4_mul(a, b),
    }
}

/// The element whose product with `a` is one.
pub open spec fn finv(f: Field, a: u8) -> u8 {
    choose|b: u8| in_field(f, b) && #[trigger] fmul(f, a, b) == 1
}

/// `a * b^-1`.
pub open spec fn fdiv(f: Field, a: u8, b: u8) -> u8 {
    fmul(f, a, finv(f, b))
}

/// `alpha^n`.
pub open spec fn alpha_pow(f: Field, n: nat) -> u8
    decreases n,
{
    if n == 0 { 1 } else { xtime(f, alpha_pow(f, (n - 1) as nat)) }
}

/// The product of the field element `c` with one payload byte.
///
/// A payload byte is one element of GF(2^8) or two packed elements of GF(2^4).
pub open spec fn scale_byte(f: Field, c: u8, b: u8) -> u8 {
    match f {
        Field::Gf2_8 => gf8_mul(c, b),
        Field::Gf2_4 => pack(gf4_mul(c, hi_nibble(b)), gf4_mul(c, lo_nibble(b))),
    }
}

// ── Exclusive or ─────────────────────────────────────────────────────────

/// Exclusive or is a commutative group in which every element is its own inverse.
pub proof fn lemma_xor(a: u8, b: u8, c: u8, d: u8)
    ensures
        a ^ b == b ^ a,
        (a ^ b) ^ c == a ^ (b ^ c),
        a ^ a == 0,
        a ^ 0 == a,
        0 ^ a == a,
        (a ^ b) ^ b == a,
        (a ^ b) ^ (c ^ d) == (a ^ c) ^ (b ^ d),
        a ^ b == 0 <==> a == b,
        a < 16 && b < 16 ==> a ^ b < 16,
{
    assert(a ^ b == b ^ a && (a ^ b) ^ c == a ^ (b ^ c) && a ^ a == 0 && a ^ 0 == a && 0 ^ a == a
        && (a ^ b) ^ b == a && (a ^ b) ^ (c ^ d) == (a ^ c) ^ (b ^ d) && (a ^ b == 0 <==> a == b)
        && (a < 16 && b < 16 ==> a ^ b < 16)) by (bit_vector);
}

// ── Bit-level facts ──────────────────────────────────────────────────────

proof fn lemma_gf8_bits(a: u8, b: u8, c: u8)
    ensures
        gf8_mul(gf8_xtime(a), b) == gf8_xtime(gf8_mul(a, b)),
        gf8_mul(1, b) == b,
        gf8_mul(a, b ^ c) == gf8_mul(a, b) ^ gf8_mul(a, c),
        gf8_mul(a, 0) == 0,
        gf8_mul(0, a) == 0,
        gf8_xtime(a) == 0 ==> a == 0,
{
    reveal(gf8_mul);
    assert(gf8_mul(gf8_xtime(a), b) == gf8_xtime(gf8_mul(a, b))) by (bit_vector);
    assert(gf8_mul(1, b) == b && gf8_mul(a, 0) == 0 && gf8_mul(0, a) == 0 && (gf8_xtime(a) == 0
        ==> a == 0)) by (bit_vector);
    assert(gf8_mul(a, b ^ c) == gf8_mul(a, b) ^ gf8_mul(a, c)) by (bit_vector);
}

proof fn lemma_gf4_bits(a: u8, b: u8, c: u8)
    requires
        a < 16,
        b < 16,
        c < 16,
    ensures
        gf4_mul(gf4_xtime(a), b) == gf4_xtime(gf4_mul(a, b)),
        gf4_mul(1, b) == b,
        gf4_mul(a, b ^ c) == gf4_mul(a, b) ^ gf4_mul(a, c),
        gf4_mul(a, 0) == 0,
        gf4_mul(0, a) == 0,
        gf4_xtime(a) == 0 ==> a == 0,
        gf4_xtime(a) < 16,
        gf4_mul(a, b) < 16,
{
    reveal(gf4_mul);
    assert(gf4_mul(gf4_xtime(a), b) == gf4_xtime(gf4_mul(a, b)) && gf4_mul(1, b) == b && gf4_mul(
        a,
        b ^ c,
    ) == gf4_mul(a, b) ^ gf4_mul(a, c) && gf4_mul(a, 0) == 0 && gf4_mul(0, a) == 0 && (gf4_xtime(a)
        == 0 ==> a == 0) && gf4_xtime(a) < 16 && gf4_mul(a, b) < 16) by (bit_vector)
        requires
            a < 16,
            b < 16,
            c < 16,
    ;
}

/// Packing two nibbles and taking a byte apart are inverse to each other, and
/// both respect exclusive or.
pub proof fn lemma_nibbles(a: u8, b: u8, h: u8, l: u8, h2: u8, l2: u8)
    requires
        h < 16,
        l < 16,
        h2 < 16,
        l2 < 16,
    ensures
        hi_nibble(a) < 16,
        lo_nibble(a) < 16,
        pack(hi_nibble(a), lo_nibble(a)) == a,
        hi_nibble(pack(h, l)) == h,
        lo_nibble(pack(h, l)) == l,
        hi_nibble(a ^ b) == hi_nibble(a) ^ hi_nibble(b),
        lo_nibble(a ^ b) == lo_nibble(a) ^ lo_nibble(b),
        pack(h, l) ^ pack(h2, l2) == pack(h ^ h2, l ^ l2),
        l ^ (h << 4u8) == pack(h, l),
        lo_nibble(a) ^ (hi_nibble(a) << 4u8) == a,
        pack(0, 0) == 0,
{
    assert(a >> 4u8 < 16 && a & 0x0f < 16 && (((a >> 4u8) << 4u8) | (a & 0x0f)) == a && ((h << 4u8)
        | l) >> 4u8 == h && ((h << 4u8) | l) & 0x0f == l && (a ^ b) >> 4u8 == (a >> 4u8) ^ (b
        >> 4u8) && (a ^ b) & 0x0f == (a & 0x0f) ^ (b & 0x0f) && ((h << 4u8) | l) ^ ((h2 << 4u8)
        | l2) == (((h ^ h2) << 4u8) | (l ^ l2)) && l ^ (h << 4u8) == ((h << 4u8) | l) && (a & 0x0f)
        ^ ((a >> 4u8) << 4u8) == a && ((0u8 << 4u8) | 0u8) == 0u8) by (bit_vector)
        requires
            h < 16,
            l < 16,
            h2 < 16,
            l2 < 16,
    ;
}

/// A byte below 16 has no high nibble.
pub proof fn lemma_small_byte(b: u8)
    requires
        b < 16,
    ensures
        hi_nibble(b) == 0,
        lo_nibble(b) == b,
        pack(0, b) == b,
{
    assert(b >> 4u8 == 0 && b & 0x0f == b && ((0u8 << 4u8) | b) == b) by (bit_vector)
        requires
            b < 16,
    ;
}

/// Reduction gives a field element, and keeps the bytes that already are one.
pub proof fn lemma_reduce(f: Field, v: u8)
    ensures
        in_field(f, reduce(f, v)),
        in_field(f, v) ==> reduce(f, v) == v,
{
    assert(v & 0x0f < 16 && (v < 16 ==> v & 0x0f == v)) by (bit_vector);
}

proof fn lemma_bits(f: Field, a: u8, b: u8, c: u8)
    requires
        in_field(f, a),
        in_field(f, b),
        in_field(f, c),
    ensures
        fmul(f, xtime(f, a), b) == xtime(f, fmul(f, a, b)),
        fmul(f, 1, b) == b,
        fmul(f, a, b ^ c) == fmul(f, a, b) ^ fmul(f, a, c),
        fmul(f, a, 0) == 0,
        fmul(f, 0, a) == 0,
        xtime(f, a) == 0 ==> a == 0,
        in_field(f, xtime(f, a)),
        in_field(f, fmul(f, a, b)),
{
    match f {
        Field::Gf2_8 => lemma_gf8_bits(a, b, c),
        Field::Gf2_4 => lemma_gf4_bits(a, b, c),
    }
}

// ── Powers of alpha ──────────────────────────────────────────────────────

/// Powers of `alpha` are non-zero field elements.
pub proof fn lemma_alpha_pow_range(f: Field, n: nat)
    ensures
        in_field(f, alpha_pow(f, n)),
        alpha_pow(f, n) != 0,
    decreases n,
{
    if n > 0 {
        lemma_alpha_pow_range(f, (n - 1) as nat);
        lemma_bits(f, alpha_pow(f, (n - 1) as nat), 0, 0);
    }
}

/// `alpha^i * alpha^j == alpha^(i + j)`.
pub proof fn lemma_alpha_pow_add(f: Field, i: nat, j: nat)
    ensures
        fmul(f, alpha_pow(f, i), alpha_pow(f, j)) == alpha_pow(f, i + j),
    decreases i,
{
    lemma_alpha_pow_range(f, j);
    if i == 0 {
        lemma_bits(f, 0, alpha_pow(f, j), 0);
    } else {
        let k = (i - 1) as nat;
        lemma_alpha_pow_add(f, k, j);
        lemma_alpha_pow_range(f, k);
        lemma_bits(f, alpha_pow(f, k), alpha_pow(f, j), 0);
        assert(i + j - 1 == k + j);
    }
}

/// The powers of `alpha` repeat with the order of the multiplicative group.
pub proof fn lemma_alpha_pow_period(f: Field, n: nat)
    ensures
        alpha_pow(f, n) == alpha_pow(f, n % group_order(f)),
        alpha_pow(f, group_order(f)) == 1,
    decreases n,
{
    let m = group_order(f);
    tables::lemma_alpha_pow_order(f);
    if n >= m {
        let k = (n - m) as nat;
        lemma_alpha_pow_period(f, k);
        lemma_alpha_pow_add(f, m, k);
        lemma_alpha_pow_range(f, k);
        lemma_bits(f, 0, alpha_pow(f, k), 0);
        assert(n % m == k % m) by {
            vstd::arithmetic::div_mod::lemma_mod_add_multiples_vanish(k as int, m as int);
        }
    } else {
        assert(n % m == n);
    }
}

// ── Field laws ───────────────────────────────────────────────────────────

/// Products stay inside the field.
pub proof fn lemma_fmul_closed(f: Field, a: u8, b: u8)
    requires
        in_field(f, a),
        in_field(f, b),
    ensures
        in_field(f, fmul(f, a, b)),
{
    lemma_bits(f, a, b, 0);
}

/// Zero absorbs and one is neutral.
pub proof fn lemma_fmul_units(f: Field, a: u8)
    requires
        in_field(f, a),
    ensures
        fmul(f, a, 0) == 0,
        fmul(f, 0, a) == 0,
        fmul(f, a, 1) == a,
        fmul(f, 1, a) == a,
{
    lemma_bits(f, a, a, 0);
    lemma_fmul_comm(f, a, 1);
}

/// Multiplication commutes.
pub proof fn lemma_fmul_comm(f: Field, a: u8, b: u8)
    requires
        in_field(f, a),
        in_field(f, b),
    ensures
        fmul(f, a, b) == fmul(f, b, a),
{
    lemma_bits(f, a, b, 0);
    lemma_bits(f, b, a, 0);
    if a != 0 && b != 0 {
        tables::lemma_flog(f, a);
        tables::lemma_flog(f, b);
        lemma_alpha_pow_add(f, tables::flog(f, a), tables::flog(f, b));
        lemma_alpha_pow_add(f, tables::flog(f, b), tables::flog(f, a));
    }
}

/// Multiplication associates.
pub proof fn lemma_fmul_assoc(f: Field, a: u8, b: u8, c: u8)
    requires
        in_field(f, a),
        in_field(f, b),
        in_field(f, c),
    ensures
        fmul(f, fmul(f, a, b), c) == fmul(f, a, fmul(f, b, c)),
{
    lemma_bits(f, a, b, 0);
    lemma_bits(f, b, c, 0);
    lemma_fmul_units(f, a);
    lemma_fmul_units(f, b);
    lemma_fmul_units(f, c);
    lemma_fmul_units(f, fmul(f, a, b));
    lemma_fmul_units(f, fmul(f, b, c));
    if a != 0 && b != 0 && c != 0 {
        let i = tables::flog(f, a);
        let j = tables::flog(f, b);
        let k = tables::flog(f, c);
        tables::lemma_flog(f, a);
        tables::lemma_flog(f, b);
        tables::lemma_flog(f, c);
        lemma_alpha_pow_add(f, i, j);
        lemma_alpha_pow_add(f, j, k);
        lemma_alpha_pow_add(f, i + j, k);
        lemma_alpha_pow_add(f, i, j + k);
    }
}

/// Multiplication distributes over addition, on both sides.
pub proof fn lemma_fmul_distrib(f: Field, a: u8, b: u8, c: u8)
    requires
        in_field(f, a),
        in_field(f, b),
        in_field(f, c),
    ensures
        fmul(f, a, b ^ c) == fmul(f, a, b) ^ fmul(f, a, c),
        fmul(f, b ^ c, a) == fmul(f, b, a) ^ fmul(f, c, a),
{
    lemma_bits(f, a, b, c);
    lemma_xor(b, c, 0, 0);
    lemma_fmul_comm(f, a, b ^ c);
    lemma_fmul_comm(f, a, b);
    lemma_fmul_comm(f, a, c);
}

/// A product is zero only where a factor is.
pub proof fn lemma_fmul_nonzero(f: Field, a: u8, b: u8)
    requires
        in_field(f, a),
        in_field(f, b),
    ensures
        fmul(f, a, b) == 0 <==> a == 0 || b == 0,
{
    lemma_fmul_units(f, a);
    lemma_fmul_units(f, b);
    if a != 0 && b != 0 {
        tables::lemma_flog(f, a);
        tables::lemma_flog(f, b);
        lemma_alpha_pow_add(f, tables::flog(f, a), tables::flog(f, b));
        lemma_alpha_pow_range(f, tables::flog(f, a) + tables::flog(f, b));
    }
}

/// Inverses are unique.
pub proof fn lemma_finv_unique(f: Field, a: u8, b: u8)
    requires
        in_field(f, a),
        in_field(f, b),
        fmul(f, a, b) == 1,
    ensures
        b == finv(f, a),
        b != 0,
{
    let c = finv(f, a);
    assert(in_field(f, c) && fmul(f, a, c) == 1);
    lemma_fmul_comm(f, a, b);
    lemma_fmul_assoc(f, b, a, c);
    lemma_fmul_units(f, b);
    lemma_fmul_units(f, c);
    lemma_fmul_units(f, a);
}

/// Every non-zero element has an inverse, on both sides.
pub proof fn lemma_finv(f: Field, a: u8)
    requires
        in_field(f, a),
        a != 0,
    ensures
        in_field(f, finv(f, a)),
        finv(f, a) != 0,
        fmul(f, a, finv(f, a)) == 1,
        fmul(f, finv(f, a), a) == 1,
        finv(f, a) == alpha_pow(f, (group_order(f) - tables::flog(f, a)) as nat),
{
    tables::lemma_flog(f, a);
    let k = (group_order(f) - tables::flog(f, a)) as nat;
    lemma_alpha_pow_add(f, tables::flog(f, a), k);
    lemma_alpha_pow_period(f, 0);
    lemma_alpha_pow_range(f, k);
    lemma_finv_unique(f, a, alpha_pow(f, k));
    lemma_fmul_comm(f, a, finv(f, a));
}

proof fn lemma_gf4_scale_add(c: u8, d: u8, a: u8, b: u8)
    requires
        c < 16,
        d < 16,
    ensures
        scale_byte(Field::Gf2_4, c, a ^ b) == scale_byte(Field::Gf2_4, c, a) ^ scale_byte(
            Field::Gf2_4,
            c,
            b,
        ),
        scale_byte(Field::Gf2_4, c ^ d, a) == scale_byte(Field::Gf2_4, c, a) ^ scale_byte(
            Field::Gf2_4,
            d,
            a,
        ),
{
    let f = Field::Gf2_4;
    let (ah, al, bh, bl) = (hi_nibble(a), lo_nibble(a), hi_nibble(b), lo_nibble(b));
    lemma_nibbles(a, b, 0, 0, 0, 0);
    lemma_nibbles(b, a, 0, 0, 0, 0);
    lemma_gf4_bits(c, ah, bh);
    lemma_gf4_bits(c, al, bl);
    lemma_gf4_bits(c, bh, 0);
    lemma_gf4_bits(c, bl, 0);
    lemma_gf4_bits(d, ah, 0);
    lemma_gf4_bits(d, al, 0);
    lemma_fmul_distrib(f, ah, c, d);
    lemma_fmul_distrib(f, al, c, d);
    lemma_nibbles(a, b, gf4_mul(c, ah), gf4_mul(c, al), gf4_mul(c, bh), gf4_mul(c, bl));
    lemma_nibbles(a, b, gf4_mul(c, ah), gf4_mul(c, al), gf4_mul(d, ah), gf4_mul(d, al));
}

proof fn lemma_gf4_scale_mul(c: u8, d: u8, a: u8)
    requires
        c < 16,
        d < 16,
    ensures
        scale_byte(Field::Gf2_4, gf4_mul(c, d), a) == scale_byte(
            Field::Gf2_4,
            c,
            scale_byte(Field::Gf2_4, d, a),
        ),
        scale_byte(Field::Gf2_4, 1, a) == a,
        scale_byte(Field::Gf2_4, 0, a) == 0,
        scale_byte(Field::Gf2_4, c, 0) == 0,
{
    let f = Field::Gf2_4;
    let (ah, al) = (hi_nibble(a), lo_nibble(a));
    lemma_nibbles(a, a, 0, 0, 0, 0);
    lemma_nibbles(0, 0, 0, 0, 0, 0);
    lemma_gf4_bits(d, ah, 0);
    lemma_gf4_bits(d, al, 0);
    lemma_gf4_bits(c, d, 0);
    lemma_gf4_bits(ah, al, 0);
    lemma_gf4_bits(al, ah, 0);
    lemma_fmul_assoc(f, c, d, ah);
    lemma_fmul_assoc(f, c, d, al);
    lemma_nibbles(a, a, gf4_mul(d, ah), gf4_mul(d, al), 0, 0);
    let z = 0u8;
    assert(hi_nibble(z) == 0 && lo_nibble(z) == 0) by {
        lemma_nibbles(z, z, 0, 0, 0, 0);
    }
}

/// Payload bytes form a vector space over the field: scaling distributes over
/// both additions, scaling twice is scaling by the product, one is neutral and
/// zero absorbs.
pub proof fn lemma_scale_byte(f: Field, c: u8, d: u8, a: u8, b: u8)
    requires
        in_field(f, c),
        in_field(f, d),
    ensures
        scale_byte(f, c, a ^ b) == scale_byte(f, c, a) ^ scale_byte(f, c, b),
        scale_byte(f, c ^ d, a) == scale_byte(f, c, a) ^ scale_byte(f, d, a),
        scale_byte(f, fmul(f, c, d), a) == scale_byte(f, c, scale_byte(f, d, a)),
        scale_byte(f, 1, a) == a,
        scale_byte(f, 0, a) == 0,
        scale_byte(f, c, 0) == 0,
{
    match f {
        Field::Gf2_8 => {
            lemma_fmul_distrib(f, c, a, b);
            lemma_fmul_distrib(f, a, c, d);
            lemma_fmul_assoc(f, c, d, a);
            lemma_fmul_units(f, a);
            lemma_fmul_units(f, c);
        },
        Field::Gf2_4 => {
            lemma_gf4_scale_add(c, d, a, b);
            lemma_gf4_scale_mul(c, d, a);
        },
    }
}

} // verus!
