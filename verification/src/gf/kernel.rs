//! Bulk arithmetic in either field, with one coefficient for whole payloads.
use vstd::prelude::*;

use crate::config::Field;
use crate::error::{DelpError, Result};
use crate::gf::algebra;
use crate::gf::simd::ops::{mul_acc_gf2_4, mul_acc_gf2_8, mul_scale_gf2_4, mul_scale_gf2_8};
use crate::gf::{Field as GfField, Gf2_4, Gf2_8};

verus! {

/// The packed byte with `c` in both nibbles.
fn broadcast_nibble(c: u8) -> (r: u8)
    requires
        c < 16,
    ensures
        forall|b: u8|
            #[trigger] algebra::gf4_mul_packed(b, r) == algebra::scale_byte(Field::Gf2_4, c, b),
{
    proof {
        let r = algebra::pack(c, c);
        algebra::lemma_nibbles(0, 0, c, c, 0, 0);
        assert forall|b: u8|
            #[trigger] algebra::gf4_mul_packed(b, r) == algebra::scale_byte(
                Field::Gf2_4,
                c,
                b,
            ) by {
            algebra::lemma_nibbles(b, b, 0, 0, 0, 0);
            algebra::lemma_fmul_comm(Field::Gf2_4, algebra::hi_nibble(b), c);
            algebra::lemma_fmul_comm(Field::Gf2_4, algebra::lo_nibble(b), c);
        }
    }
    (c << 4) | c
}

/// `dst[i] ^= c * src[i]`.
pub fn mul_acc(f: Field, dst: &mut [u8], src: &[u8], c: u8)
    requires
        old(dst)@.len() == src@.len(),
        algebra::in_field(f, c),
    ensures
        final(dst)@ == Seq::new(
            old(dst)@.len(),
            |i: int| old(dst)@[i] ^ algebra::scale_byte(f, c, src@[i]),
        ),
{
    match f {
        Field::Gf2_8 => {
            mul_acc_gf2_8(dst, src, c);
            proof {
                assert forall|b: u8|
                    #[trigger] algebra::gf8_mul(b, c) == algebra::scale_byte(f, c, b) by {
                    algebra::lemma_fmul_comm(f, b, c);
                }
            }
        },
        Field::Gf2_4 => {
            let packed: u8 = broadcast_nibble(c);
            mul_acc_gf2_4(dst, src, packed);
        },
    }
    assert(dst@ =~= Seq::new(
        old(dst)@.len(),
        |i: int| old(dst)@[i] ^ algebra::scale_byte(f, c, src@[i]),
    ));
}

/// `buf[i] = c * buf[i]`.
pub fn mul_scale(f: Field, buf: &mut [u8], c: u8)
    requires
        algebra::in_field(f, c),
    ensures
        final(buf)@ == Seq::new(
            old(buf)@.len(),
            |i: int| algebra::scale_byte(f, c, old(buf)@[i]),
        ),
{
    match f {
        Field::Gf2_8 => {
            mul_scale_gf2_8(buf, c);
            proof {
                assert forall|b: u8|
                    #[trigger] algebra::gf8_mul(b, c) == algebra::scale_byte(f, c, b) by {
                    algebra::lemma_fmul_comm(f, b, c);
                }
            }
        },
        Field::Gf2_4 => {
            let packed: u8 = broadcast_nibble(c);
            mul_scale_gf2_4(buf, packed);
        },
    }
    assert(buf@ =~= Seq::new(
        old(buf)@.len(),
        |i: int| algebra::scale_byte(f, c, old(buf)@[i]),
    ));
}

/// The element of `f` that a byte stands for.
pub fn reduce(f: Field, v: u8) -> (r: u8)
    ensures
        r == algebra::reduce(f, v),
        algebra::in_field(f, r),
{
    proof {
        algebra::lemma_reduce(f, v);
    }
    match f {
        Field::Gf2_8 => v,
        Field::Gf2_4 => v & 0x0F,
    }
}

/// The inverse of an element; zero has none.
pub fn gf_inv(v: u8, field: Field) -> (r: Result<u8>)
    requires
        algebra::in_field(field, v),
    ensures
        match r {
            Ok(x) => v != 0 && x == algebra::finv(field, v) && algebra::in_field(field, x) && x
                != 0,
            Err(e) => v == 0 && e == DelpError::DivisionByZero,
        },
{
    if v == 0 {
        return Err(DelpError::DivisionByZero);
    }
    proof {
        algebra::lemma_finv(field, v);
    }
    match field {
        Field::Gf2_8 => Ok(Gf2_8::new(v).inv().to_u8()),
        Field::Gf2_4 => Ok(Gf2_4::new(v).inv().to_u8()),
    }
}

/// The product of two elements; GF(2^4) reads the low nibbles.
pub fn gf_mul(a: u8, b: u8, field: Field) -> (r: u8)
    ensures
        r == algebra::fmul(field, algebra::reduce(field, a), algebra::reduce(field, b)),
{
    let x: u8 = reduce(field, a);
    let y: u8 = reduce(field, b);
    match field {
        Field::Gf2_8 => Gf2_8::new(x).mul(Gf2_8::new(y)).to_u8(),
        Field::Gf2_4 => Gf2_4::new(x).mul(Gf2_4::new(y)).to_u8(),
    }
}

} // verus!
