//! Bulk arithmetic on symbol payloads by split-nibble table lookup.
//!
//! For a coefficient `c` two tables of 16 entries are enough to multiply any
//! byte: `lo` holds the products of `c` with the low nibble, `hi` those with the
//! high nibble, and `c * b == lo[b & 15] ^ hi[b >> 4]`.
use vstd::prelude::*;

use crate::config;
use crate::gf::algebra;
use crate::gf::gf2_4::{gf2_4_mul_raw, Gf2_4};
use crate::gf::gf2_8::gf2_8_mul_raw;

pub mod ops;

verus! {

/// Split-nibble tables for one coefficient.
pub struct NibbleTables {
    /// Products with the low nibble of a byte.
    pub lo: [u8; 16],
    /// Products with the high nibble of a byte, already in place.
    pub hi: [u8; 16],
}

impl NibbleTables {
    /// What the tables give for the byte `b`.
    pub open spec fn product(self, b: u8) -> u8 {
        self.lo[algebra::lo_nibble(b) as int] ^ self.hi[algebra::hi_nibble(b) as int]
    }

    /// Tables for multiplication by `coef` in GF(2^8).
    pub fn for_gf2_8(coef: u8) -> (t: Self)
        ensures
            forall|b: u8| #[trigger] t.product(b) == algebra::gf8_mul(b, coef),
    {
        let mut lo: [u8; 16] = [0; 16];
        let mut hi: [u8; 16] = [0; 16];
        let mut x: u8 = 0;
        while x < 16
            invariant
                x <= 16,
                forall|i: u8| i < x ==> lo[i as int] == #[trigger] algebra::gf8_mul(i, coef),
                forall|i: u8|
                    i < x ==> hi[i as int] == #[trigger] algebra::gf8_mul(i << 4u8, coef),
            decreases 16 - x,
        {
            lo[x as usize] = gf2_8_mul_raw(x, coef);
            hi[x as usize] = gf2_8_mul_raw(x << 4, coef);
            x += 1;
        }
        let t = NibbleTables { lo, hi };
        proof {
            assert forall|b: u8| #[trigger] t.product(b) == algebra::gf8_mul(b, coef) by {
                let l = algebra::lo_nibble(b);
                let h = algebra::hi_nibble(b);
                algebra::lemma_nibbles(b, b, 0, 0, 0, 0);
                algebra::lemma_fmul_distrib(config::Field::Gf2_8, coef, l, h << 4u8);
                assert(t.lo[l as int] == algebra::gf8_mul(l, coef));
                assert(t.hi[h as int] == algebra::gf8_mul(h << 4u8, coef));
            }
        }
        t
    }

    /// Tables for multiplication by the packed byte `coef` in GF(2^4): its high
    /// nibble multiplies the high element, its low nibble the low one.
    pub fn for_gf2_4(coef: u8) -> (t: Self)
        ensures
            forall|b: u8| #[trigger] t.product(b) == algebra::gf4_mul_packed(b, coef),
    {
        proof {
            algebra::lemma_nibbles(coef, coef, 0, 0, 0, 0);
        }
        let c_lo: u8 = coef & 0x0F;
        let c_hi: u8 = coef >> 4;
        let mut lo: [u8; 16] = [0; 16];
        let mut hi: [u8; 16] = [0; 16];
        let mut x: u8 = 0;
        while x < 16
            invariant
                x <= 16,
                c_lo < 16,
                c_hi < 16,
                forall|i: u8| i < x ==> lo[i as int] == #[trigger] algebra::gf4_mul(i, c_lo),
                forall|i: u8|
                    i < x ==> hi[i as int] == (#[trigger] algebra::gf4_mul(i, c_hi)) << 4u8,
            decreases 16 - x,
        {
            lo[x as usize] = gf2_4_mul_raw(x, c_lo);
            let h: u8 = gf2_4_mul_raw(x, c_hi);
            hi[x as usize] = h << 4;
            x += 1;
        }
        let t = NibbleTables { lo, hi };
        proof {
            assert forall|b: u8| #[trigger] t.product(b) == algebra::gf4_mul_packed(b, coef) by {
                let l = algebra::lo_nibble(b);
                let h = algebra::hi_nibble(b);
                algebra::lemma_nibbles(b, b, 0, 0, 0, 0);
                algebra::lemma_fmul_closed(config::Field::Gf2_4, l, c_lo);
                algebra::lemma_fmul_closed(config::Field::Gf2_4, h, c_hi);
                algebra::lemma_nibbles(
                    b,
                    b,
                    algebra::gf4_mul(h, c_hi),
                    algebra::gf4_mul(l, c_lo),
                    0,
                    0,
                );
                assert(t.lo[l as int] == algebra::gf4_mul(l, c_lo));
                assert(t.hi[h as int] == algebra::gf4_mul(h, c_hi) << 4u8);
            }
        }
        t
    }
}

/// `dst[i] ^= t * src[i]`.
fn scalar_mul_acc(dst: &mut [u8], src: &[u8], t: &NibbleTables)
    requires
        old(dst)@.len() == src@.len(),
    ensures
        final(dst)@.len() == old(dst)@.len(),
        forall|i: int|
            0 <= i < src@.len() ==> #[trigger] final(dst)@[i] == old(dst)@[i] ^ t.product(src@[i]),
{
    let n: usize = src.len();
    let mut i: usize = 0;
    while i < n
        invariant
            n == src@.len(),
            i <= n,
            dst@.len() == n,
            old(dst)@.len() == n,
            forall|k: int| 0 <= k < i ==> #[trigger] dst@[k] == old(dst)@[k] ^ t.product(src@[k]),
            forall|k: int| i <= k < n ==> #[trigger] dst@[k] == old(dst)@[k],
        decreases n - i,
    {
        let s: u8 = src[i];
        proof {
            algebra::lemma_nibbles(s, s, 0, 0, 0, 0);
        }
        let d: u8 = dst[i];
        dst[i] = d ^ (t.lo[(s & 0x0F) as usize] ^ t.hi[(s >> 4) as usize]);
        i += 1;
    }
}

/// `dst[i] = t * dst[i]`.
fn scalar_mul_scale(dst: &mut [u8], t: &NibbleTables)
    ensures
        final(dst)@.len() == old(dst)@.len(),
        forall|i: int|
            0 <= i < old(dst)@.len() ==> #[trigger] final(dst)@[i] == t.product(old(dst)@[i]),
{
    let n: usize = dst.len();
    let mut i: usize = 0;
    while i < n
        invariant
            i <= n,
            dst@.len() == n,
            old(dst)@.len() == n,
            forall|k: int| 0 <= k < i ==> #[trigger] dst@[k] == t.product(old(dst)@[k]),
            forall|k: int| i <= k < n ==> #[trigger] dst@[k] == old(dst)@[k],
        decreases n - i,
    {
        let s: u8 = dst[i];
        proof {
            algebra::lemma_nibbles(s, s, 0, 0, 0, 0);
        }
        dst[i] = t.lo[(s & 0x0F) as usize] ^ t.hi[(s >> 4) as usize];
        i += 1;
    }
}

/// `dst` plus `coef * src` over GF(2^8), byte by byte.
pub open spec fn gf8_mul_acc(dst: Seq<u8>, src: Seq<u8>, coef: u8) -> Seq<u8> {
    Seq::new(dst.len(), |i: int| dst[i] ^ algebra::gf8_mul(src[i], coef))
}

/// `dst` plus the nibble-wise product of `src` with the packed byte `coef`.
pub open spec fn gf4_mul_acc(dst: Seq<u8>, src: Seq<u8>, coef: u8) -> Seq<u8> {
    Seq::new(dst.len(), |i: int| dst[i] ^ algebra::gf4_mul_packed(src[i], coef))
}

/// `coef * buf` over GF(2^8), byte by byte.
pub open spec fn gf8_mul_scale(buf: Seq<u8>, coef: u8) -> Seq<u8> {
    Seq::new(buf.len(), |i: int| algebra::gf8_mul(buf[i], coef))
}

/// The nibble-wise product of `buf` with the packed byte `coef`.
pub open spec fn gf4_mul_scale(buf: Seq<u8>, coef: u8) -> Seq<u8> {
    Seq::new(buf.len(), |i: int| algebra::gf4_mul_packed(buf[i], coef))
}

/// Clears a buffer.
fn fill_zero(buf: &mut [u8])
    ensures
        final(buf)@ == Seq::new(old(buf)@.len(), |i: int| 0u8),
{
    let n: usize = buf.len();
    let mut i: usize = 0;
    while i < n
        invariant
            i <= n,
            buf@.len() == n,
            old(buf)@.len() == n,
            forall|k: int| 0 <= k < i ==> #[trigger] buf@[k] == 0,
        decreases n - i,
    {
        buf[i] = 0;
        i += 1;
    }
}

/// `dst[i] ^= coef * src[i]` over GF(2^8).
pub fn mul_acc_gf2_8(dst: &mut [u8], src: &[u8], coef: u8)
    requires
        old(dst)@.len() == src@.len(),
    ensures
        final(dst)@ == gf8_mul_acc(old(dst)@, src@, coef),
{
    if coef == 0 {
        proof {
            assert(gf8_mul_acc(dst@, src@, coef) =~= dst@) by {
                assert forall|i: int| 0 <= i < dst@.len() implies dst@[i] ^ algebra::gf8_mul(
                    src@[i],
                    coef,
                ) == dst@[i] by {
                    algebra::lemma_fmul_units(config::Field::Gf2_8, src@[i]);
                    algebra::lemma_xor(dst@[i], 0, 0, 0);
                }
            }
        }
        return ;
    }
    let t = NibbleTables::for_gf2_8(coef);
    scalar_mul_acc(dst, src, &t);
    assert(dst@ =~= gf8_mul_acc(old(dst)@, src@, coef));
}

/// `buf[i] = coef * buf[i]` over GF(2^8), in place.
pub fn mul_scale_gf2_8(buf: &mut [u8], coef: u8)
    ensures
        final(buf)@ == gf8_mul_scale(old(buf)@, coef),
{
    proof {
        assert forall|b: u8| #[trigger]
            algebra::gf8_mul(b, 0) == 0 && algebra::gf8_mul(b, 1) == b by {
            algebra::lemma_fmul_units(config::Field::Gf2_8, b);
        }
    }
    if coef == 0 {
        fill_zero(buf);
        assert(buf@ =~= gf8_mul_scale(old(buf)@, coef));
        return ;
    }
    if coef == 1 {
        proof {
            assert forall|i: int| 0 <= i < buf@.len() implies algebra::gf8_mul(buf@[i], 1)
                == buf@[i] by {
                algebra::lemma_fmul_units(config::Field::Gf2_8, buf@[i]);
            }
            assert(buf@ =~= gf8_mul_scale(old(buf)@, coef));
        }
        return ;
    }
    let t = NibbleTables::for_gf2_8(coef);
    scalar_mul_scale(buf, &t);
    assert(buf@ =~= gf8_mul_scale(old(buf)@, coef));
}

/// A packed product with the zero byte is zero.
proof fn lemma_packed_zero(b: u8)
    ensures
        algebra::gf4_mul_packed(b, 0) == 0,
{
    algebra::lemma_nibbles(b, b, 0, 0, 0, 0);
    algebra::lemma_nibbles(0, 0, 0, 0, 0, 0);
    algebra::lemma_fmul_units(config::Field::Gf2_4, algebra::hi_nibble(b));
    algebra::lemma_fmul_units(config::Field::Gf2_4, algebra::lo_nibble(b));
}

/// `dst[i] ^= coef * src[i]` over GF(2^4), two elements per byte of `dst`, `src`
/// and `coef`.
pub fn mul_acc_gf2_4(dst: &mut [u8], src: &[u8], coef: u8)
    requires
        old(dst)@.len() == src@.len(),
    ensures
        final(dst)@ == gf4_mul_acc(old(dst)@, src@, coef),
{
    if coef == 0 {
        proof {
            assert forall|i: int| 0 <= i < dst@.len() implies dst@[i] ^ algebra::gf4_mul_packed(
                src@[i],
                coef,
            ) == dst@[i] by {
                lemma_packed_zero(src@[i]);
                algebra::lemma_xor(dst@[i], 0, 0, 0);
            }
            assert(gf4_mul_acc(dst@, src@, coef) =~= dst@);
        }
        return ;
    }
    let t = NibbleTables::for_gf2_4(coef);
    scalar_mul_acc(dst, src, &t);
    assert(dst@ =~= gf4_mul_acc(old(dst)@, src@, coef));
}

/// `buf[i] = coef * buf[i]` over GF(2^4), in place, two elements per byte of
/// `buf` and `coef`.
pub fn mul_scale_gf2_4(buf: &mut [u8], coef: u8)
    ensures
        final(buf)@ == gf4_mul_scale(old(buf)@, coef),
{
    if coef == 0 {
        fill_zero(buf);
        proof {
            assert forall|i: int| 0 <= i < buf@.len() implies algebra::gf4_mul_packed(
                old(buf)@[i],
                coef,
            ) == 0 by {
                lemma_packed_zero(old(buf)@[i]);
            }
            assert(buf@ =~= gf4_mul_scale(old(buf)@, coef));
        }
        return ;
    }
    let t = NibbleTables::for_gf2_4(coef);
    scalar_mul_scale(buf, &t);
    assert(buf@ =~= gf4_mul_scale(old(buf)@, coef));
}

/// Element-by-element form of [`mul_acc_gf2_8`].
pub fn mul_acc_gf2_8_reference(dst: &mut [u8], src: &[u8], coef: u8)
    requires
        old(dst)@.len() == src@.len(),
    ensures
        final(dst)@ == gf8_mul_acc(old(dst)@, src@, coef),
{
    let n: usize = src.len();
    let mut i: usize = 0;
    while i < n
        invariant
            n == src@.len(),
            i <= n,
            dst@.len() == n,
            old(dst)@.len() == n,
            forall|k: int|
                0 <= k < i ==> #[trigger] dst@[k] == old(dst)@[k] ^ algebra::gf8_mul(
                    src@[k],
                    coef,
                ),
            forall|k: int| i <= k < n ==> #[trigger] dst@[k] == old(dst)@[k],
        decreases n - i,
    {
        let d: u8 = dst[i];
        dst[i] = d ^ gf2_8_mul_raw(src[i], coef);
        i += 1;
    }
    assert(dst@ =~= gf8_mul_acc(old(dst)@, src@, coef));
}

/// Element-by-element form of [`mul_scale_gf2_8`].
pub fn mul_scale_gf2_8_reference(buf: &mut [u8], coef: u8)
    ensures
        final(buf)@ == gf8_mul_scale(old(buf)@, coef),
{
    let n: usize = buf.len();
    let mut i: usize = 0;
    while i < n
        invariant
            i <= n,
            buf@.len() == n,
            old(buf)@.len() == n,
            forall|k: int|
                0 <= k < i ==> #[trigger] buf@[k] == algebra::gf8_mul(old(buf)@[k], coef),
            forall|k: int| i <= k < n ==> #[trigger] buf@[k] == old(buf)@[k],
        decreases n - i,
    {
        let b: u8 = buf[i];
        buf[i] = gf2_8_mul_raw(b, coef);
        i += 1;
    }
    assert(buf@ =~= gf8_mul_scale(old(buf)@, coef));
}

/// Element-by-element form of [`mul_acc_gf2_4`].
pub fn mul_acc_gf2_4_reference(dst: &mut [u8], src: &[u8], coef: u8)
    requires
        old(dst)@.len() == src@.len(),
    ensures
        final(dst)@ == gf4_mul_acc(old(dst)@, src@, coef),
{
    let n: usize = src.len();
    let mut i: usize = 0;
    while i < n
        invariant
            n == src@.len(),
            i <= n,
            dst@.len() == n,
            old(dst)@.len() == n,
            forall|k: int|
                0 <= k < i ==> #[trigger] dst@[k] == old(dst)@[k] ^ algebra::gf4_mul_packed(
                    src@[k],
                    coef,
                ),
            forall|k: int| i <= k < n ==> #[trigger] dst@[k] == old(dst)@[k],
        decreases n - i,
    {
        let d: u8 = dst[i];
        dst[i] = Gf2_4::mul_acc_byte(d, src[i], coef);
        i += 1;
    }
    assert(dst@ =~= gf4_mul_acc(old(dst)@, src@, coef));
}

} // verus!
