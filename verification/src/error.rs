//! The error type of the library.

use vstd::prelude::*;

verus! {

/// The ways in which building a grid or running a search can fail.
///
/// Finding no route is not among them: a search that exhausts the frontier
/// returns an empty path.
#[derive(Clone, Copy, Debug, PartialEq, Eq, Structural)]
pub enum PathError {
    /// A grid was requested with a width or height that is not positive.
    InvalidDimensions,
    /// The start or goal index lies outside the grid or names a blocked cell.
    InvalidCell,
    /// A parent link could not be followed back to a cell without a parent.
    BrokenParentChain,
}

} // verus!
