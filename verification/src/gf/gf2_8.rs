//! GF(2^8): one element per byte.
use vstd::prelude::*;

use crate::config;
use crate::gf::algebra;
use crate::gf::tables;
use crate::gf::tables::{GF2_8_EXP, GF2_8_LOG};
use crate::gf::Field;

verus! {

/// An element of GF(2^8).
///
/// The full byte range is used; each byte of a symbol payload is one element.
#[derive(Clone, Copy, PartialEq, Eq, Structural, Debug, Default)]
pub struct Gf2_8(u8);

impl Gf2_8 {
    /// The element as a number.
    pub closed spec fn number(self) -> u8 {
        self.0
    }

    /// The element with the given number.
    pub fn new(v: u8) -> (r: Self)
        ensures
            r.number() == v,
    {
        Self(v)
    }

    /// The number of the element.
    pub fn value(self) -> (r: u8)
        ensures
            r == self.number(),
    {
        self.0
    }
}

/// Product of two GF(2^8) elements through the logarithm tables.
pub(crate) fn gf2_8_mul_raw(a: u8, b: u8) -> (r: u8)
    ensures
        r == algebra::gf8_mul(a, b),
{
    proof {
        algebra::lemma_fmul_units(config::Field::Gf2_8, a);
        algebra::lemma_fmul_units(config::Field::Gf2_8, b);
    }
    if a == 0 || b == 0 {
        return 0;
    }
    proof {
        tables::lemma_gf8_log(a);
        tables::lemma_gf8_log(b);
        let i = GF2_8_LOG[a as int] as nat;
        let j = GF2_8_LOG[b as int] as nat;
        algebra::lemma_alpha_pow_add(config::Field::Gf2_8, i, j);
        tables::lemma_gf8_exp(i + j);
    }
    GF2_8_EXP[GF2_8_LOG[a as usize] as usize + GF2_8_LOG[b as usize] as usize]
}

impl Field for Gf2_8 {
    const ORDER: usize = 256;

    const COEF_BITS: u8 = 8;

    open spec fn kind() -> config::Field {
        config::Field::Gf2_8
    }

    open spec fn val(self) -> u8 {
        self.number()
    }

    proof fn lemma_constants() {
        assert(Self::ORDER == 256);
        assert(Self::COEF_BITS == 8);
    }

    fn zero() -> (r: Self) {
        Self(0)
    }

    fn one() -> (r: Self) {
        Self(1)
    }

    fn add(self, rhs: Self) -> (r: Self) {
        Self(self.0 ^ rhs.0)
    }

    fn mul(self, rhs: Self) -> (r: Self) {
        Self(gf2_8_mul_raw(self.0, rhs.0))
    }

    fn inv(self) -> (r: Self) {
        proof {
            tables::lemma_gf8_log(self.0);
            let i = GF2_8_LOG[self.0 as int] as nat;
            let k = (255 - i) as nat;
            tables::lemma_gf8_exp(k);
            algebra::lemma_alpha_pow_add(config::Field::Gf2_8, i, k);
            algebra::lemma_alpha_pow_period(config::Field::Gf2_8, 0);
            algebra::lemma_finv_unique(
                config::Field::Gf2_8,
                self.0,
                algebra::alpha_pow(config::Field::Gf2_8, k),
            );
        }
        let log_a: usize = GF2_8_LOG[self.0 as usize] as usize;
        Self(GF2_8_EXP[255 - log_a])
    }

    fn alpha_pow(exp: u32) -> (r: Self) {
        proof {
            tables::lemma_gf8_exp((exp % 255) as nat);
            algebra::lemma_alpha_pow_period(config::Field::Gf2_8, exp as nat);
        }
        Self(GF2_8_EXP[(exp as usize) % 255])
    }

    fn from_u8(v: u8) -> (r: Self) {
        Self(v)
    }

    fn to_u8(self) -> (r: u8) {
        self.0
    }
}

} // verus!
