//! Keeps the [`Field`](crate::gf::Field) trait closed to other crates.
use vstd::prelude::*;

use crate::gf::{Gf2_4, Gf2_8};

verus! {

/// Implemented by the two field element types and by nothing else.
pub trait Sealed {

}

impl Sealed for Gf2_4 {

}

impl Sealed for Gf2_8 {

}

} // verus!
