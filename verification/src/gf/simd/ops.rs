//! The four bulk operations under one path.
pub use super::{mul_acc_gf2_4, mul_acc_gf2_8, mul_scale_gf2_4, mul_scale_gf2_8};
