//! Arithmetic in the Galois fields GF(2^4) and GF(2^8).
use vstd::prelude::*;

use crate::config;

pub mod algebra;
pub mod cauchy;
pub mod gf2_4;
pub mod gf2_8;
pub mod kernel;
pub mod laws;
mod sealed;
pub mod simd;
pub mod tables;
pub mod vandermonde;

pub use gf2_4::Gf2_4;
pub use gf2_8::Gf2_8;

verus! {

/// Elements of a Galois field.
///
/// Only [`Gf2_4`] and [`Gf2_8`] implement this trait; other crates cannot add
/// implementations.
pub trait Field: sealed::Sealed + Copy + Eq + core::fmt::Debug {
    /// Number of elements in the field (16 or 256).
    const ORDER: usize;

    /// Bits needed to represent one coefficient (4 or 8).
    const COEF_BITS: u8;

    /// Which of the two fields this is.
    spec fn kind() -> config::Field;

    /// The element as a number.
    spec fn val(self) -> u8;

    /// The constants of an implementation are those of its field.
    proof fn lemma_constants()
        ensures
            Self::ORDER == algebra::group_order(Self::kind()) + 1,
            Self::COEF_BITS == (if Self::kind() == config::Field::Gf2_8 { 8int } else { 4 }),
    ;

    /// Additive identity.
    fn zero() -> (r: Self)
        ensures
            r.val() == 0,
    ;

    /// Multiplicative identity.
    fn one() -> (r: Self)
        ensures
            r.val() == 1,
    ;

    /// Addition (exclusive or).
    fn add(self, rhs: Self) -> (r: Self)
        ensures
            r.val() == self.val() ^ rhs.val(),
    ;

    /// Subtraction, the same as addition in characteristic 2.
    fn sub(self, rhs: Self) -> (r: Self)
        ensures
            r.val() == self.val() ^ rhs.val(),
    {
        self.add(rhs)
    }

    /// Multiplication.
    fn mul(self, rhs: Self) -> (r: Self)
        ensures
            r.val() == algebra::fmul(Self::kind(), self.val(), rhs.val()),
    ;

    /// Multiplicative inverse; zero has none.
    fn inv(self) -> (r: Self)
        requires
            self.val() != 0,
        ensures
            r.val() == algebra::finv(Self::kind(), self.val()),
    ;

    /// Division: `self * rhs^-1`.
    fn div(self, rhs: Self) -> (r: Self)
        requires
            rhs.val() != 0,
        ensures
            r.val() == algebra::fdiv(Self::kind(), self.val(), rhs.val()),
    {
        self.mul(rhs.inv())
    }

    /// `alpha^exp`, where `alpha` is the primitive element 2.
    fn alpha_pow(exp: u32) -> (r: Self)
        ensures
            r.val() == algebra::alpha_pow(Self::kind(), exp as nat),
    ;

    /// Vandermonde coefficient `alpha^(src_id * coded_id)`.
    ///
    /// A `coded_id` of zero would give the degenerate row of ones.
    fn vandermonde(src_id: u32, coded_id: u32) -> (r: Self)
        requires
            coded_id >= 1,
        ensures
            r.val() == algebra::alpha_pow(Self::kind(), src_id as nat * coded_id as nat),
    {
        proof {
            Self::lemma_constants();
            assert(src_id as u64 * coded_id as u64 <= u64::MAX) by (nonlinear_arith);
            algebra::lemma_alpha_pow_period(Self::kind(), src_id as nat * coded_id as nat);
        }
        let modulus: u64 = (Self::ORDER - 1) as u64;
        let exp: u64 = (src_id as u64 * coded_id as u64) % modulus;
        Self::alpha_pow(exp as u32)
    }

    /// The element with the given number; GF(2^4) keeps the low nibble.
    fn from_u8(v: u8) -> (r: Self)
        ensures
            r.val() == algebra::reduce(Self::kind(), v),
    ;

    /// The number of the element.
    fn to_u8(self) -> (r: u8)
        ensures
            r == self.val(),
            algebra::in_field(Self::kind(), r),
    ;
}

} // verus!
