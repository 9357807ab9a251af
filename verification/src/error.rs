//! The ways in which a request can be turned down.

use vstd::prelude::*;

verus! {

/// Why a lattice or a universe could not be built or advanced.
#[derive(Clone, Copy, Debug, PartialEq, Eq, Structural)]
pub enum AutomatonError {
    /// The boundary policy has no resolution rule; only the null policy has one.
    UnsupportedBoundary,
    /// A configuration does not have the dimensions of the lattice it is meant for.
    DimensionMismatch,
    /// A universe keeps at least one page.
    NoPages,
}

} // verus!
