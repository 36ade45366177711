//! Error kinds for index construction and queries.

use vstd::prelude::*;

verus! {

/// Why building an index failed.  No partial index is ever returned.
#[derive(Clone, Copy, Debug, PartialEq, Eq, Structural)]
pub enum BuildError {
    /// Construction was requested over points with zero columns: an index
    /// cannot be built over 0-dimensional points.
    ZeroDimension,
}

/// Why a query against a built index failed.  The index itself stays valid
/// for subsequent correctly-shaped queries.
#[derive(Clone, Copy, Debug, PartialEq, Eq, Structural)]
pub enum NnError {
    /// The query point's length differs from the index's dimensionality.
    WrongDimension,
}

} // verus!
