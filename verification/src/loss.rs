//! Packet loss rates as fractions.
use vstd::prelude::*;

verus! {

/// A packet loss rate: of `expected` packets, `lost` did not arrive.
#[derive(Debug, Clone, Copy, PartialEq, Eq, Structural)]
pub struct LossRate {
    /// The number of packets that did not arrive.
    pub lost: u64,
    /// The number of packets that should have arrived.
    pub expected: u64,
}

impl LossRate {
    /// The rate `lost / expected`.
    pub fn new(lost: u64, expected: u64) -> (r: Self)
        ensures
            r == (LossRate { lost, expected }),
    {
        Self { lost, expected }
    }

    /// No loss.
    pub fn zero() -> (r: Self)
        ensures
            r == (LossRate { lost: 0, expected: 0 }),
    {
        Self { lost: 0, expected: 0 }
    }
}

} // verus!
