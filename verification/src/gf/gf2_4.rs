//! GF(2^4): two elements per byte.
use vstd::prelude::*;

use crate::config;
use crate::gf::algebra;
use crate::gf::tables;
use crate::gf::tables::{GF2_4_EXP, GF2_4_LOG, GF2_4_ORDER};
use crate::gf::Field;

verus! {

/// An element of GF(2^4), stored in the low four bits of a byte.
///
/// Two elements are packed into each byte of a symbol payload: the high nibble
/// holds the element at the even index, the low nibble the one at the odd index.
#[derive(Clone, Copy, PartialEq, Eq, Structural, Debug, Default)]
pub struct Gf2_4(u8);

/// Clears the high nibble.
fn low_nibble(v: u8) -> (r: u8)
    ensures
        r == algebra::lo_nibble(v),
        r < 16,
        v < 16 ==> r == v,
{
    proof {
        algebra::lemma_nibbles(v, 0, 0, 0, 0, 0);
        algebra::lemma_reduce(config::Field::Gf2_4, v);
    }
    v & 0x0F
}

impl Gf2_4 {
    /// The element as a number.
    pub closed spec fn number(self) -> u8 {
        self.0
    }

    #[verifier::type_invariant]
    spec fn inv_nibble(self) -> bool {
        self.0 < 16
    }

    /// The element with the number `v`.
    pub fn new(v: u8) -> (r: Self)
        requires
            v < 16,
        ensures
            r.number() == v,
    {
        Self(low_nibble(v))
    }

    /// The number of the element.
    pub fn value(self) -> (r: u8)
        ensures
            r == self.number(),
            r < 16,
    {
        proof {
            use_type_invariant(self);
        }
        self.0
    }

    /// Nibble-wise product of two packed bytes: high with high, low with low.
    pub fn mul_packed_byte(byte: u8, coef: u8) -> (r: u8)
        ensures
            r == algebra::gf4_mul_packed(byte, coef),
    {
        proof {
            algebra::lemma_nibbles(byte, 0, 0, 0, 0, 0);
            algebra::lemma_nibbles(coef, 0, 0, 0, 0, 0);
        }
        let hi_in: u8 = byte >> 4;
        let lo_in: u8 = byte & 0x0F;
        let c_hi: u8 = coef >> 4;
        let c_lo: u8 = coef & 0x0F;
        let hi_out: u8 = gf2_4_mul_raw(hi_in, c_hi);
        let lo_out: u8 = gf2_4_mul_raw(lo_in, c_lo);
        (hi_out << 4) | lo_out
    }

    /// `dst + coef * src` on packed bytes.
    pub fn mul_acc_byte(dst: u8, src: u8, coef: u8) -> (r: u8)
        ensures
            r == dst ^ algebra::gf4_mul_packed(src, coef),
    {
        dst ^ Self::mul_packed_byte(src, coef)
    }
}

/// Product of two GF(2^4) elements through the logarithm tables.
pub(crate) fn gf2_4_mul_raw(a: u8, b: u8) -> (r: u8)
    requires
        a < 16,
        b < 16,
    ensures
        r == algebra::gf4_mul(a, b),
        r < 16,
{
    proof {
        algebra::lemma_fmul_units(config::Field::Gf2_4, a);
        algebra::lemma_fmul_units(config::Field::Gf2_4, b);
        algebra::lemma_fmul_closed(config::Field::Gf2_4, a, b);
    }
    if a == 0 || b == 0 {
        return 0;
    }
    proof {
        tables::lemma_gf4_log(a);
        tables::lemma_gf4_log(b);
        let i = GF2_4_LOG[a as int] as nat;
        let j = GF2_4_LOG[b as int] as nat;
        algebra::lemma_alpha_pow_add(config::Field::Gf2_4, i, j);
        algebra::lemma_alpha_pow_period(config::Field::Gf2_4, i + j);
        tables::lemma_gf4_exp((i + j) % 15);
    }
    let sum: usize = GF2_4_LOG[a as usize] as usize + GF2_4_LOG[b as usize] as usize;
    GF2_4_EXP[sum % (GF2_4_ORDER - 1)]
}

impl Field for Gf2_4 {
    const ORDER: usize = 16;

    const COEF_BITS: u8 = 4;

    open spec fn kind() -> config::Field {
        config::Field::Gf2_4
    }

    open spec fn val(self) -> u8 {
        self.number()
    }

    proof fn lemma_constants() {
        assert(Self::ORDER == 16);
        assert(Self::COEF_BITS == 4);
    }

    fn zero() -> (r: Self) {
        Self(0)
    }

    fn one() -> (r: Self) {
        Self(1)
    }

    fn add(self, rhs: Self) -> (r: Self) {
        proof {
            use_type_invariant(self);
            use_type_invariant(rhs);
            algebra::lemma_xor(self.0, rhs.0, 0, 0);
        }
        Self(self.0 ^ rhs.0)
    }

    fn mul(self, rhs: Self) -> (r: Self) {
        proof {
            use_type_invariant(self);
            use_type_invariant(rhs);
        }
        Self(gf2_4_mul_raw(self.0, rhs.0))
    }

    fn inv(self) -> (r: Self) {
        proof {
            use_type_invariant(self);
            tables::lemma_gf4_log(self.0);
            let i = GF2_4_LOG[self.0 as int] as nat;
            let k = (15 - i) as nat;
            tables::lemma_gf4_exp(k % 15);
            algebra::lemma_alpha_pow_range(config::Field::Gf2_4, k % 15);
            algebra::lemma_alpha_pow_period(config::Field::Gf2_4, k);
            algebra::lemma_alpha_pow_add(config::Field::Gf2_4, i, k);
            algebra::lemma_finv_unique(
                config::Field::Gf2_4,
                self.0,
                algebra::alpha_pow(config::Field::Gf2_4, k),
            );
        }
        let log_a: usize = GF2_4_LOG[self.0 as usize] as usize;
        Self(GF2_4_EXP[(GF2_4_ORDER - 1 - log_a) % (GF2_4_ORDER - 1)])
    }

    fn alpha_pow(exp: u32) -> (r: Self) {
        proof {
            tables::lemma_gf4_exp((exp % 15) as nat);
            algebra::lemma_alpha_pow_range(config::Field::Gf2_4, (exp % 15) as nat);
            algebra::lemma_alpha_pow_period(config::Field::Gf2_4, exp as nat);
        }
        Self(GF2_4_EXP[(exp as usize) % (GF2_4_ORDER - 1)])
    }

    fn from_u8(v: u8) -> (r: Self) {
        Self(low_nibble(v))
    }

    fn to_u8(self) -> (r: u8) {
        proof {
            use_type_invariant(self);
        }
        self.0
    }
}

} // verus!
