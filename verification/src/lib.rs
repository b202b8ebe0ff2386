//! Principal component analysis for ternary data ({-1, 0, +1}) in Q8.8
//! fixed-point arithmetic, with every integer computation verified.
use vstd::prelude::*;

pub mod fixed;
pub mod sums;
pub mod matrix;
pub mod covariance;
pub mod eigen;
pub mod pca;

verus! {

/// A trit value.
pub type Trit = i8;

} // verus!

pub use covariance::TernaryCovariance;
pub use eigen::EigenDecomp;
pub use fixed::{fp_div, fp_mul, fp_sqrt, SCALE};
pub use pca::TernaryPCA;
