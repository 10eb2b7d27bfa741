//! The logic of the command-line tool: file transfer, benchmark and demos.
use vstd::prelude::*;

use crate::config::MatrixStrategy;

pub mod bench;
pub mod demo;
pub mod digest;
pub mod file;
pub mod frames;
pub mod laws;
pub mod prng;
pub mod ratio;
pub mod recv;
pub mod send;
pub mod transfer;

verus! {

/// The matrix strategy, as it is chosen on the command line.
#[derive(Debug, Clone, Copy, PartialEq, Eq, Structural)]
pub enum Strategy {
    Vandermonde,
    Cauchy,
}

impl Strategy {
    /// The matrix strategy of the library.
    pub fn into_delp(self) -> (r: MatrixStrategy)
        ensures
            r == self.matrix(),
    {
        match self {
            Strategy::Vandermonde => MatrixStrategy::Vandermonde,
            Strategy::Cauchy => MatrixStrategy::Cauchy,
        }
    }

    /// The matrix strategy of the library.
    pub open spec fn matrix(self) -> MatrixStrategy {
        match self {
            Strategy::Vandermonde => MatrixStrategy::Vandermonde,
            Strategy::Cauchy => MatrixStrategy::Cauchy,
        }
    }
}

/// What one more coded packet per symbol covers.
#[derive(Debug, Clone, Copy, PartialEq, Eq, Structural)]
pub enum AltcMode {
    /// There is no such packet.
    Off,
    /// The newest symbols.
    Recent,
    /// The symbols that the receiver has not acknowledged.
    PerReceiver,
}

} // verus!
