//! The terms that plans are described in: what new operators look up, and what feeds what.

use vstd::prelude::*;

use crate::dataflow::{EdgeView, Flow};
use crate::materialization::PlanView;
use crate::migration::MigrationPlanView;
use crate::sharding::{Column, NodeIndex, Sharding};

verus! {

/// Whether a new operator looks up a column of an operator.
pub open spec fn looks_up(
    flow: Flow,
    added: Set<NodeIndex>,
    by: NodeIndex,
    node: NodeIndex,
    column: usize,
) -> bool {
    added.contains(by) && by < flow.nodes.len() && flow.nodes[by as int].lookups.contains(
        (node, column),
    )
}

/// Whether a new operator looks up a column of another new operator.
pub open spec fn wants(
    flow: Flow,
    added: Set<NodeIndex>,
    by: NodeIndex,
    node: NodeIndex,
    column: usize,
) -> bool {
    looks_up(flow, added, by, node, column) && added.contains(node) && node != by
}

/// Whether a column of an operator is looked up by a new operator.
pub open spec fn is_looked_up(
    flow: Flow,
    added: Set<NodeIndex>,
    node: NodeIndex,
    column: usize,
) -> bool {
    exists|by: NodeIndex| looks_up(flow, added, by, node, column)
}

/// Whether a column of a new operator is looked up by another new operator.
pub open spec fn is_wanted(
    flow: Flow,
    added: Set<NodeIndex>,
    node: NodeIndex,
    column: usize,
) -> bool {
    exists|by: NodeIndex| wants(flow, added, by, node, column)
}

/// Whether an edge with a sharding requirement joins two nodes.
pub open spec fn has_edge(
    edges: Seq<EdgeView>,
    source: NodeIndex,
    target: NodeIndex,
    want: Column,
) -> bool {
    edges.contains(EdgeView { source, target, weight: Sharding::By(want.0, want.1) })
}

/// Whether a node that was added for a plan is fed by another.
pub open spec fn is_mirror(
    flow: Flow,
    plan: MigrationPlanView,
    mirror: NodeIndex,
    node: NodeIndex,
) -> bool {
    &&& flow.nodes.len() <= mirror < plan.flow.nodes.len()
    &&& exists|e: int|
        0 <= e < plan.flow.edges.len() && (#[trigger] plan.flow.edges[e]).source == node
            && plan.flow.edges[e].target == mirror
}

/// Whether a key of an operator fits what a plan shards the operator by, if it shards it.
pub open spec fn fits(flow: Flow, plan: MigrationPlanView, node: NodeIndex, key: usize) -> bool {
    plan.shardings.contains_key(node) ==> flow.resolve(node, key) == Some(plan.shardings[node])
}

/// Whether the state at a node is looked up by a key: at an operator, by a column that new
/// operators look up and that fits; at a mirror, by any of its keys.
pub open spec fn is_asked(
    flow: Flow,
    added: Set<NodeIndex>,
    plan: MigrationPlanView,
    node: NodeIndex,
    key: usize,
) -> bool {
    if node < flow.nodes.len() {
        is_looked_up(flow, added, node, key) && fits(flow, plan, node, key)
    } else {
        plan.materializations.contains_key(node) && plan.materializations[node].keys.contains(key)
    }
}

/// Whether a plan keeps all of the state at a node.
pub open spec fn is_whole(plan: MigrationPlanView, node: NodeIndex) -> bool {
    plan.materializations.contains_key(node) && plan.materializations[node].plan == Some(
        PlanView::Full,
    )
}

/// Whether a plan has state at a node that is replayed on demand.
pub open spec fn is_replayed(plan: MigrationPlanView, node: NodeIndex) -> bool {
    plan.materializations.contains_key(node) && plan.materializations[node].plan matches Some(
        PlanView::Partial { .. },
    )
}

/// The paths that the state at a node is replayed over.
pub open spec fn paths_of(plan: MigrationPlanView, node: NodeIndex) -> Seq<Seq<Column>> {
    match plan.materializations[node].plan {
        Some(PlanView::Partial { paths }) => paths,
        _ => Seq::empty(),
    }
}

/// Whether a column of an operator comes from a column of another.
pub open spec fn comes_from(flow: Flow, column: Column, source: Column) -> bool {
    &&& column.0 < flow.nodes.len()
    &&& column.1 < flow.nodes[column.0 as int].sources.len()
    &&& flow.nodes[column.0 as int].sources[column.1 as int].contains((source.0, Some(source.1)))
}

/// Whether each column of a path comes from the next.
pub open spec fn goes_up(flow: Flow, path: Seq<Column>) -> bool {
    forall|i: int, j: int|
        0 <= i && j == i + 1 && j < path.len() ==> comes_from(
            flow,
            #[trigger] path[i],
            #[trigger] path[j],
        )
}

/// Whether a path ends where all of the state is kept, and passes no such node before.
pub open spec fn ends_whole(plan: MigrationPlanView, path: Seq<Column>) -> bool {
    &&& path.len() > 0
    &&& is_whole(plan, path.last().0)
    &&& forall|i: int| 0 <= i < path.len() - 1 ==> !is_whole(plan, (#[trigger] path[i]).0)
}

/// Whether a column comes from nowhere, or from an operator that cannot supply it.
pub open spec fn is_stuck(flow: Flow, column: Column) -> bool {
    column.0 < flow.nodes.len() && column.1 < flow.nodes[column.0 as int].sources.len() ==> {
        let sources = flow.nodes[column.0 as int].sources[column.1 as int];
        sources.len() == 0 || exists|i: int|
            0 <= i < sources.len() && (#[trigger] sources[i]).1 is None
    }
}

/// Whether an edge joins two nodes.
pub open spec fn joins(edges: Seq<EdgeView>, source: NodeIndex, target: NodeIndex) -> bool {
    exists|e: int|
        0 <= e < edges.len() && (#[trigger] edges[e]).source == source && edges[e].target == target
}

/// Whether edges join each node of a way to the next.
pub open spec fn is_way(edges: Seq<EdgeView>, way: Seq<NodeIndex>) -> bool {
    forall|i: int, j: int|
        0 <= i && j == i + 1 && j < way.len() ==> joins(edges, #[trigger] way[i], #[trigger] way[j])
}

/// Whether a way leads along edges from one node to another.
pub open spec fn leads_to(edges: Seq<EdgeView>, from: NodeIndex, to: NodeIndex) -> bool {
    exists|way: Seq<NodeIndex>| #[trigger]
        is_way(edges, way) && way.len() > 0 && way[0] == from && way.last() == to
}

} // verus!
