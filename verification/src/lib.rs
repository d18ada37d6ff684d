//! A two-layer fully-connected neural-network classifier trained by
//! full-batch gradient descent, with all arithmetic carried out in
//! fixed-point (scaled 64-bit integers) so that every numerical step
//! is verified.

pub mod fixed;
pub mod matrix;
pub mod net;
pub mod rng;

use vstd::prelude::*;

verus! {

/// Everything that can go wrong inside the library.
///
/// There is no retry anywhere: each failure aborts the current call and
/// leaves any `&mut` argument unchanged.
#[derive(Clone, Copy, Debug, PartialEq, Eq, Structural)]
pub enum Error {
    /// A matrix or vector dimension inconsistency between the arguments.
    ShapeMismatch,
    /// A class label outside the admitted range of classes.
    InvalidLabel,
    /// A fixed-point value left the representable entry range, the
    /// analogue of a NaN or infinity appearing in the arithmetic.
    NumericDegeneracy,
}

} // verus!
