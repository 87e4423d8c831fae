//! Why a migration cannot be planned.

use vstd::prelude::*;

verus! {

/// Why a migration cannot be planned.
#[derive(Clone, Copy, Debug, PartialEq, Eq, Structural)]
pub enum CommitError {
    /// A lookup is by a column that resolves to no base table column.
    UnknownColumn,
    /// The graph has no index left for a node or an edge that has to be added.
    GraphFull,
    /// A materialization on an existing operator would have to become full.
    ExistingNotFull,
    /// A new operator has no sharding, and can take none over from a parent.
    NoProgress,
}

} // verus!
