//! The operators above an operator, closer to the base tables.

use std::collections::HashSet;
use vstd::prelude::*;

use crate::dataflow;
use crate::dataflow::{node_count, parents_of, EdgeView, FlowGraph};
use crate::sharding::NodeIndex;

verus! {

/// Whether that many edges lead from one node to another.
pub open spec fn leads(edges: Seq<EdgeView>, from: NodeIndex, to: NodeIndex, steps: nat) -> bool
    decreases steps,
{
    if steps == 0 {
        from == to
    } else {
        exists|i: int|
            0 <= i < edges.len() && (#[trigger] edges[i]).source == from && leads(
                edges,
                edges[i].target,
                to,
                (steps - 1) as nat,
            )
    }
}

/// The node and the nodes above it: those that edges lead from to the node.
pub open spec fn above(edges: Seq<EdgeView>, node: NodeIndex) -> Set<NodeIndex> {
    Set::new(|ancestor: NodeIndex| exists|steps: nat| leads(edges, ancestor, node, steps))
}

/// A node is above itself.
pub proof fn lemma_above_self(edges: Seq<EdgeView>, node: NodeIndex)
    ensures
        above(edges, node).contains(node),
{
    assert(leads(edges, node, node, 0));
}

/// The source of an edge is above what its target is above.
pub proof fn lemma_above_step(edges: Seq<EdgeView>, i: int, node: NodeIndex)
    requires
        0 <= i < edges.len(),
        above(edges, node).contains(edges[i].target),
    ensures
        above(edges, node).contains(edges[i].source),
{
    let steps = choose|steps: nat| leads(edges, edges[i].target, node, steps);
    assert(leads(edges, edges[i].source, node, steps + 1));
}

/// Nodes that hold a node and are closed against the edges hold all that is above the node.
proof fn lemma_above_closed(
    edges: Seq<EdgeView>,
    node: NodeIndex,
    nodes: Set<NodeIndex>,
    from: NodeIndex,
    steps: nat,
)
    requires
        nodes.contains(node),
        forall|i: int|
            0 <= i < edges.len() && nodes.contains((#[trigger] edges[i]).target)
                ==> nodes.contains(edges[i].source),
        leads(edges, from, node, steps),
    ensures
        nodes.contains(from),
    decreases steps,
{
    if steps > 0 {
        let i = choose|i: int|
            0 <= i < edges.len() && (#[trigger] edges[i]).source == from && leads(
                edges,
                edges[i].target,
                node,
                (steps - 1) as nat,
            );
        lemma_above_closed(edges, node, nodes, edges[i].target, (steps - 1) as nat);
    }
}

/// Whether an edge joins two nodes in that direction.
pub open spec fn joined(edges: Seq<EdgeView>, source: NodeIndex, target: NodeIndex) -> bool {
    exists|i: int|
        0 <= i < edges.len() && (#[trigger] edges[i]).source == source && edges[i].target == target
}

/// The parents of a node are the sources of the edges that reach it.
pub proof fn lemma_parents(edges: Seq<EdgeView>, node: NodeIndex)
    ensures
        forall|i: int|
            0 <= i < edges.len() && (#[trigger] edges[i]).target == node ==> dataflow::parents(
                edges,
                node,
            ).contains(edges[i].source),
        forall|j: int|
            0 <= j < dataflow::parents(edges, node).len() ==> joined(
                edges,
                #[trigger] dataflow::parents(edges, node)[j],
                node,
            ),
    decreases edges.len(),
{
    if edges.len() > 0 {
        let older = edges.drop_last();
        let parents = dataflow::parents(edges, node);
        let before = dataflow::parents(older, node);
        let shift: int = if edges.last().target == node {
            1
        } else {
            0
        };
        lemma_parents(older, node);
        assert(forall|j: int| 0 <= j < before.len() ==> parents[j + shift] == #[trigger] before[j]);
        assert forall|i: int|
            0 <= i < edges.len() && (#[trigger] edges[i]).target == node implies parents.contains(
            edges[i].source,
        ) by {
            if i < older.len() {
                assert(older[i] == edges[i]);
                let j = choose|j: int| 0 <= j < before.len() && before[j] == edges[i].source;
                assert(parents[j + shift] == edges[i].source);
            } else {
                assert(parents[0] == edges[i].source);
            }
        }
        assert forall|j: int| 0 <= j < parents.len() implies joined(
            edges,
            #[trigger] parents[j],
            node,
        ) by {
            if j < shift {
                assert(edges[edges.len() - 1].source == parents[j]);
            } else {
                assert(before[j - shift] == parents[j]);
                let i = choose|i: int|
                    0 <= i < older.len() && (#[trigger] older[i]).source == before[j - shift]
                        && older[i].target == node;
                assert(edges[i] == older[i]);
            }
        }
    }
}

/// There are no more node indices below a bound than the bound.
proof fn lemma_bounded(nodes: Set<NodeIndex>, bound: nat)
    requires
        nodes.finite(),
        bound <= u32::MAX,
        forall|node: NodeIndex| nodes.contains(node) ==> node < bound,
    ensures
        nodes.len() <= bound,
    decreases bound,
{
    if bound == 0 {
        assert(nodes =~= Set::empty());
    } else {
        lemma_bounded(nodes.remove((bound - 1) as NodeIndex), (bound - 1) as nat);
    }
}

/// Finds the node and the nodes above it, none twice.
pub fn ancestors_of(graph: &FlowGraph, node: NodeIndex) -> (ancestors: Vec<NodeIndex>)
    requires
        node < dataflow::flow(*graph).nodes.len(),
    ensures
        ancestors@.to_set() == above(dataflow::flow(*graph).edges, node),
        ancestors@.no_duplicates(),
{
    let ghost flow = dataflow::flow(*graph);
    let ghost edges = flow.edges;
    let count: usize = node_count(graph);
    let mut seen: HashSet<NodeIndex> = HashSet::new();
    let mut ancestors: Vec<NodeIndex> = Vec::new();
    let mut visit: Vec<NodeIndex> = Vec::new();
    seen.insert(node);
    ancestors.push(node);
    visit.push(node);
    proof {
        lemma_above_self(edges, node);
        assert(ancestors@[0] == node);
        assert(ancestors@.to_set() =~= seen@);
        assert(visit@[0] == node);
        lemma_bounded(seen@, count as nat);
    }
    loop
        invariant
            flow == dataflow::flow(*graph),
            edges == flow.edges,
            count == flow.nodes.len(),
            count <= u32::MAX,
            seen@.contains(node),
            seen@.finite(),
            seen@.len() <= count,
            ancestors@.to_set() == seen@,
            ancestors@.no_duplicates(),
            forall|i: int| 0 <= i < visit@.len() ==> seen@.contains(#[trigger] visit@[i]),
            forall|ancestor: NodeIndex| #[trigger]
                seen@.contains(ancestor) ==> ancestor < count && above(edges, node).contains(
                    ancestor,
                ),
            forall|i: int|
                0 <= i < edges.len() && seen@.contains((#[trigger] edges[i]).target)
                    ==> seen@.contains(edges[i].source) || visit@.contains(edges[i].target),
        ensures
            visit@.len() == 0,
        decreases count - seen@.len(), visit@.len(),
    {
        let ghost waiting = visit@;
        match visit.pop() {
            Some(at) => {
                let parents = parents_of(graph, at);
                let ghost known = seen@;
                let ghost left = visit@;
                proof {
                    lemma_parents(edges, at);
                    assert(waiting == left.push(at));
                    assert(waiting[waiting.len() - 1] == at);
                    assert forall|i: int| 0 <= i < left.len() implies seen@.contains(
                        #[trigger] left[i],
                    ) by {
                        assert(waiting[i] == left[i]);
                    }
                }
                for j in 0..parents.len()
                    invariant
                        edges == flow.edges,
                        count == flow.nodes.len(),
                        count <= u32::MAX,
                        parents@ == dataflow::parents(edges, at),
                        forall|j: int|
                            0 <= j < parents@.len() ==> (#[trigger] parents@[j]) < count,
                        forall|j: int|
                            0 <= j < parents@.len() ==> joined(edges, #[trigger] parents@[j], at),
                        above(edges, node).contains(at),
                        seen@.finite(),
                        seen@.len() <= count,
                        ancestors@.to_set() == seen@,
                        ancestors@.no_duplicates(),
                        known.subset_of(seen@),
                        known.finite(),
                        forall|ancestor: NodeIndex| #[trigger]
                            seen@.contains(ancestor) ==> ancestor < count && above(
                                edges,
                                node,
                            ).contains(ancestor),
                        forall|k: int| 0 <= k < j ==> seen@.contains(#[trigger] parents@[k]),
                        forall|i: int|
                            0 <= i < visit@.len() ==> seen@.contains(#[trigger] visit@[i]),
                        left.is_prefix_of(visit@),
                        forall|ancestor: NodeIndex| #[trigger]
                            seen@.contains(ancestor) ==> known.contains(ancestor)
                                || visit@.contains(ancestor),
                        visit@.len() == left.len() || seen@.len() > known.len(),
                        seen@.len() >= known.len(),
                {
                    let parent: NodeIndex = parents[j];
                    if !seen.contains(&parent) {
                        let ghost before = seen@;
                        let ghost listed = ancestors@;
                        let ghost stack = visit@;
                        seen.insert(parent);
                        ancestors.push(parent);
                        visit.push(parent);
                        proof {
                            let i = choose|i: int|
                                0 <= i < edges.len() && (#[trigger] edges[i]).source == parent
                                    && edges[i].target == at;
                            lemma_above_step(edges, i, node);
                            assert(!listed.contains(parent)) by {
                                assert(!listed.to_set().contains(parent));
                            }
                            assert(ancestors@.to_set() =~= seen@) by {
                                assert forall|ancestor: NodeIndex|
                                    seen@.contains(ancestor) implies ancestors@.contains(
                                    ancestor,
                                ) by {
                                    if ancestor == parent {
                                        assert(ancestors@[listed.len() as int] == parent);
                                    } else {
                                        assert(listed.to_set().contains(ancestor));
                                        let k = choose|k: int|
                                            0 <= k < listed.len() && listed[k] == ancestor;
                                        assert(ancestors@[k] == ancestor);
                                    }
                                }
                                assert forall|ancestor: NodeIndex|
                                    ancestors@.contains(ancestor) implies seen@.contains(
                                    ancestor,
                                ) by {
                                    if ancestor != parent {
                                        let k = choose|k: int|
                                            0 <= k < ancestors@.len() && ancestors@[k] == ancestor;
                                        assert(listed[k] == ancestor);
                                        assert(listed.to_set().contains(ancestor));
                                    }
                                }
                            }
                            lemma_bounded(seen@, count as nat);
                            assert(visit@[stack.len() as int] == parent);
                            assert forall|ancestor: NodeIndex| #[trigger]
                                seen@.contains(ancestor) implies known.contains(ancestor)
                                || visit@.contains(ancestor) by {
                                if ancestor != parent && !known.contains(ancestor) {
                                    let k = choose|k: int|
                                        0 <= k < stack.len() && stack[k] == ancestor;
                                    assert(visit@[k] == ancestor);
                                }
                            }
                            assert forall|i: int| 0 <= i < visit@.len() implies seen@.contains(
                                #[trigger] visit@[i],
                            ) by {
                                if i < stack.len() {
                                    assert(stack[i] == visit@[i]);
                                }
                            }
                        }
                    }
                }
                assert forall|i: int|
                    0 <= i < edges.len() && seen@.contains(
                        (#[trigger] edges[i]).target,
                    ) implies seen@.contains(edges[i].source) || visit@.contains(
                    edges[i].target,
                ) by {
                    let target = edges[i].target;
                    if target == at {
                        let j = choose|j: int|
                            0 <= j < parents@.len() && parents@[j] == edges[i].source;
                        assert(seen@.contains(parents@[j]));
                    } else if known.contains(target) && !known.contains(edges[i].source) {
                        let k = choose|k: int| 0 <= k < waiting.len() && waiting[k] == target;
                        assert(left[k] == target);
                        assert(visit@[k] == target);
                    }
                }
            },
            None => {
                break;
            },
        }
    }
    proof {
        assert forall|ancestor: NodeIndex|
            above(edges, node).contains(ancestor) implies seen@.contains(ancestor) by {
            let steps = choose|steps: nat| leads(edges, ancestor, node, steps);
            lemma_above_closed(edges, node, seen@, ancestor, steps);
        }
        assert(seen@ =~= above(edges, node));
    }
    ancestors
}

} // verus!
