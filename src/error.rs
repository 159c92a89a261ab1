//! The ways a call can be refused.

use vstd::prelude::*;

verus! {

/// Why a checked operation refused its arguments.
#[derive(Debug, Clone, Copy, PartialEq, Eq, Structural)]
pub enum SuccTreeError {
    /// A tree was asked for with capacity zero.
    InvalidCapacity,
    /// An element or a bound lies outside the tree's range.
    OutOfRange,
}

} // verus!
