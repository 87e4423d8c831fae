//! How the output of an operator is split over shards.

use vstd::prelude::*;

verus! {

/// The position of an operator in the data-flow graph.
pub type NodeIndex = u32;

/// The index of a domain, a group of operators that run together.
pub type DomainIndex = usize;

/// A column of the output of an operator. Shardings are named by the base table column that the
/// sharding column resolves to.
pub type Column = (NodeIndex, usize);

/// The sharding that is required along an edge of the graph.
#[derive(Clone, Copy, Debug, PartialEq, Eq, Hash, Structural)]
pub enum Sharding {
    /// No sharding is required.
    Unsharded,
    /// Records must be sharded by this column of this operator.
    By(NodeIndex, usize),
}

impl Default for Sharding {
    fn default() -> (sharding: Self)
        ensures
            sharding == Sharding::Unsharded,
    {
        Sharding::Unsharded
    }
}

impl From<(NodeIndex, usize)> for Sharding {
    fn from(column: (NodeIndex, usize)) -> (sharding: Self) {
        Sharding::By(column.0, column.1)
    }
}

impl vstd::std_specs::convert::FromSpecImpl<(NodeIndex, usize)> for Sharding {
    open spec fn obeys_from_spec() -> bool {
        true
    }

    open spec fn from_spec(column: (NodeIndex, usize)) -> Self {
        Sharding::By(column.0, column.1)
    }
}

} // verus!
