//! That operators are visited leaves first, also where mirrors are in the middle of the graph.

use vstd::prelude::*;

use crate::ancestry;
use crate::dataflow::{EdgeView, Flow};
use crate::reshard;
use crate::reshard::Mirror;
use crate::sharding::{NodeIndex, Sharding};
use crate::takeover;
use crate::visit;
use crate::visit::VisitNode;

verus! {

/// The weight of a node: that of a mirror is half-way between the weight of the node that it
/// mirrors and the next. The first mirror has the index `first`.
pub open spec fn weight(mirrors: Seq<Mirror>, first: nat, node: NodeIndex) -> (NodeIndex, usize) {
    if node < first {
        (node, 0)
    } else {
        (mirrors[node - first].node, usize::MAX / 2)
    }
}

/// Whether an edge runs from a lighter node to a heavier one, and carries the sharding of the
/// mirror where it feeds one.
pub open spec fn descends(mirrors: Seq<Mirror>, first: nat, edge: EdgeView) -> bool {
    &&& edge.source < first + mirrors.len()
    &&& edge.target < first + mirrors.len()
    &&& visit::lighter(weight(mirrors, first, edge.source), weight(mirrors, first, edge.target))
    &&& edge.target >= first ==> edge.weight == Sharding::By(
        mirrors[edge.target - first].want.0,
        mirrors[edge.target - first].want.1,
    )
}

/// A mirror stands between the node that it mirrors and all nodes that come after that one.
pub proof fn law_mirror_between(mirrors: Seq<Mirror>, first: nat, i: int, next: NodeIndex)
    requires
        0 <= i < mirrors.len(),
        first + mirrors.len() <= u32::MAX,
        mirrors[i].node < next < first,
    ensures
        visit::lighter(
            weight(mirrors, first, mirrors[i].node),
            weight(mirrors, first, (first + i) as NodeIndex),
        ),
        visit::lighter(
            weight(mirrors, first, (first + i) as NodeIndex),
            weight(mirrors, first, next),
        ),
{
}

/// In a graph with the first mirrors every edge runs from a lighter node to a heavier one.
proof fn lemma_descends(flow: Flow, mirrors: Seq<Mirror>, count: nat)
    requires
        flow.edges_ascend(),
        flow.nodes.len() + mirrors.len() <= u32::MAX,
        forall|i: int|
            0 <= i < mirrors.len() ==> (#[trigger] mirrors[i]).node < flow.nodes.len(),
        mirrors.no_duplicates(),
        count <= mirrors.len(),
    ensures
        flow.with_mirrors(mirrors.take(count as int)).nodes.len() == flow.nodes.len() + count,
        forall|i: int|
            0 <= i < flow.with_mirrors(mirrors.take(count as int)).edges.len() ==> descends(
                mirrors,
                flow.nodes.len(),
                #[trigger] flow.with_mirrors(mirrors.take(count as int)).edges[i],
            ),
        forall|i: int|
            0 <= i < flow.with_mirrors(mirrors.take(count as int)).edges.len() ==> (
            #[trigger] flow.with_mirrors(mirrors.take(count as int)).edges[i]).target
                < flow.nodes.len() + count,
    decreases count,
{
    let first = flow.nodes.len();
    if count == 0 {
        assert(mirrors.take(0) =~= Seq::empty());
        assert forall|i: int| 0 <= i < flow.edges.len() implies descends(
            mirrors,
            first,
            #[trigger] flow.edges[i],
        ) by {}
    } else {
        let k = count - 1;
        let mirror = mirrors[k];
        lemma_descends(flow, mirrors, k as nat);
        let before = flow.with_mirrors(mirrors.take(k));
        assert(mirrors.take(count as int).drop_last() =~= mirrors.take(k));
        assert(mirrors.take(count as int).last() == mirror);
        let at = before.nodes.len() as NodeIndex;
        let after = flow.with_mirrors(mirrors.take(count as int));
        assert(after == before.with_mirror(mirror));
        let Mirror { node, want } = mirror;
        let stay = |edge: EdgeView| !reshard::demands(edge, node, want);
        let left = before.edges.filter(stay);
        let moving = reshard::moved(before.edges, node, at, want);
        takeover::lemma_moved(before.edges, node, at, want);
        assert forall|i: int| 0 <= i < after.edges.len() implies descends(
            mirrors,
            first,
            #[trigger] after.edges[i],
        ) && after.edges[i].target < first + count by {
            if i < left.len() {
                assert(after.edges[i] == left[i]);
                assert(left.contains(left[i]));
                before.edges.lemma_filter_contains_rev(stay, left[i]);
                let e = choose|e: int| 0 <= e < before.edges.len() && before.edges[e] == left[i];
                assert(descends(mirrors, first, before.edges[e]));
                assert(before.edges[e].target < first + k);
            } else if i < left.len() + moving.len() {
                let edge = moving[i - left.len()];
                assert(after.edges[i] == edge);
                let was = EdgeView { source: node, target: edge.target, weight: edge.weight };
                assert(before.edges.contains(was));
                let e = choose|e: int| 0 <= e < before.edges.len() && before.edges[e] == was;
                assert(descends(mirrors, first, before.edges[e]));
                assert(before.edges[e].target < first + k);
                if edge.target >= first {
                    let other = mirrors[edge.target - first];
                    assert(other.want == want);
                    assert(other != mirror);
                }
            } else {
                assert(after.edges[i] == reshard::feed(node, at, want));
            }
        }
    }
}

/// In a graph with mirrors every edge runs from a lighter node to a heavier one.
pub proof fn lemma_edges_descend(flow: Flow, mirrors: Seq<Mirror>, i: int)
    requires
        flow.edges_ascend(),
        flow.nodes.len() + mirrors.len() <= u32::MAX,
        forall|i: int|
            0 <= i < mirrors.len() ==> (#[trigger] mirrors[i]).node < flow.nodes.len(),
        mirrors.no_duplicates(),
        0 <= i < flow.with_mirrors(mirrors).edges.len(),
    ensures
        visit::lighter(
            weight(mirrors, flow.nodes.len(), flow.with_mirrors(mirrors).edges[i].source),
            weight(mirrors, flow.nodes.len(), flow.with_mirrors(mirrors).edges[i].target),
        ),
{
    lemma_descends(flow, mirrors, mirrors.len());
    assert(mirrors.take(mirrors.len() as int) =~= mirrors);
    assert(descends(mirrors, flow.nodes.len(), flow.with_mirrors(mirrors).edges[i]));
}

/// In a graph with mirrors every edge joins nodes of the graph.
pub proof fn lemma_edges_within(flow: Flow, mirrors: Seq<Mirror>, i: int)
    requires
        flow.edges_ascend(),
        flow.nodes.len() + mirrors.len() <= u32::MAX,
        forall|i: int|
            0 <= i < mirrors.len() ==> (#[trigger] mirrors[i]).node < flow.nodes.len(),
        mirrors.no_duplicates(),
        0 <= i < flow.with_mirrors(mirrors).edges.len(),
    ensures
        flow.with_mirrors(mirrors).edges[i].source < flow.nodes.len() + mirrors.len(),
        flow.with_mirrors(mirrors).edges[i].target < flow.nodes.len() + mirrors.len(),
{
    lemma_descends(flow, mirrors, mirrors.len());
    assert(mirrors.take(mirrors.len() as int) =~= mirrors);
    assert(descends(mirrors, flow.nodes.len(), flow.with_mirrors(mirrors).edges[i]));
}

/// The nodes to visit: the new ones, and the mirrors.
pub open spec fn to_visit(added: Set<NodeIndex>, mirrors: Seq<Mirror>, first: nat) -> Seq<
    VisitNode,
> {
    reshard::new_visits(added, first as int) + reshard::mirror_visits(mirrors, first)
}

/// The new nodes to visit are each there once, with their own weight.
proof fn lemma_new_visits(added: Set<NodeIndex>, end: int)
    requires
        end <= u32::MAX,
    ensures
        forall|i: int|
            #![trigger reshard::new_visits(added, end)[i]]
            0 <= i < reshard::new_visits(added, end).len() ==> {
                let visit = reshard::new_visits(added, end)[i];
                visit.index < end && added.contains(visit.index) && visit.logical == (
                    visit.index,
                    0usize,
                )
            },
        forall|i: int, j: int|
            0 <= i < j < reshard::new_visits(added, end).len() ==> (#[trigger] reshard::new_visits(
                added,
                end,
            )[i]).index < (#[trigger] reshard::new_visits(added, end)[j]).index,
    decreases end,
{
    if end > 0 {
        lemma_new_visits(added, end - 1);
        let before = reshard::new_visits(added, end - 1);
        let all = reshard::new_visits(added, end);
        assert forall|i: int| #![trigger all[i]] 0 <= i < all.len() implies {
            let visit = all[i];
            visit.index < end && added.contains(visit.index) && visit.logical == (
                visit.index,
                0usize,
            )
        } by {
            if i < before.len() {
                assert(all[i] == before[i]);
            }
        }
        assert forall|i: int, j: int| 0 <= i < j < all.len() implies (#[trigger] all[i]).index < (
        #[trigger] all[j]).index by {
            assert(all[i] == before[i]);
            if j < before.len() {
                assert(all[j] == before[j]);
            }
        }
    }
}

/// A node is visited with its weight.
pub proof fn lemma_visited_by_weight(
    added: Set<NodeIndex>,
    mirrors: Seq<Mirror>,
    first: nat,
    i: int,
)
    requires
        first + mirrors.len() <= u32::MAX,
        0 <= i < visit::visits(to_visit(added, mirrors, first)).len(),
    ensures
        visit::visits(to_visit(added, mirrors, first))[i].logical == weight(
            mirrors,
            first,
            visit::visits(to_visit(added, mirrors, first))[i].index,
        ),
        vstd::relations::sorted_by(
            visit::visits(to_visit(added, mirrors, first)),
            visit::visit_order(),
        ),
{
    broadcast use vstd::seq_lib::group_to_multiset_ensures;

    let nodes = to_visit(added, mirrors, first);
    let new = reshard::new_visits(added, first as int);
    let order = visit::visits(nodes);
    visit::lemma_visit_order_total();
    nodes.lemma_sort_by_ensures(visit::visit_order());
    lemma_new_visits(added, first as int);
    assert(order.contains(order[i]));
    assert(order.to_multiset().contains(order[i]));
    assert(nodes.contains(order[i]));
    let k = choose|k: int| 0 <= k < nodes.len() && nodes[k] == order[i];
    if k < new.len() {
        assert(nodes[k] == new[k]);
    } else {
        assert(nodes[k] == reshard::mirror_visits(mirrors, first)[k - new.len()]);
    }
}

/// What is visited is new: an operator that was added, or a mirror.
pub proof fn lemma_visited_new(added: Set<NodeIndex>, mirrors: Seq<Mirror>, first: nat, i: int)
    requires
        first + mirrors.len() <= u32::MAX,
        0 <= i < visit::visits(to_visit(added, mirrors, first)).len(),
    ensures
        ({
            let node = visit::visits(to_visit(added, mirrors, first))[i].index;
            node < first && added.contains(node) || first <= node < first + mirrors.len()
        }),
{
    broadcast use vstd::seq_lib::group_to_multiset_ensures;

    let nodes = to_visit(added, mirrors, first);
    let new = reshard::new_visits(added, first as int);
    let order = visit::visits(nodes);
    visit::lemma_visit_order_total();
    nodes.lemma_sort_by_ensures(visit::visit_order());
    lemma_new_visits(added, first as int);
    assert(order.contains(order[i]));
    assert(order.to_multiset().contains(order[i]));
    assert(nodes.contains(order[i]));
    let k = choose|k: int| 0 <= k < nodes.len() && nodes[k] == order[i];
    if k < new.len() {
        assert(nodes[k] == new[k]);
    } else {
        assert(nodes[k] == reshard::mirror_visits(mirrors, first)[k - new.len()]);
    }
}

/// No node is visited twice.
pub proof fn lemma_visited_once(added: Set<NodeIndex>, mirrors: Seq<Mirror>, first: nat)
    requires
        first + mirrors.len() <= u32::MAX,
    ensures
        forall|i: int, j: int|
            0 <= i < j < visit::visits(to_visit(added, mirrors, first)).len() ==> (
            #[trigger] visit::visits(to_visit(added, mirrors, first))[i]).index != (
            #[trigger] visit::visits(to_visit(added, mirrors, first))[j]).index,
{
    broadcast use vstd::seq_lib::group_to_multiset_ensures;

    let nodes = to_visit(added, mirrors, first);
    let new = reshard::new_visits(added, first as int);
    let order = visit::visits(nodes);
    visit::lemma_visit_order_total();
    nodes.lemma_sort_by_ensures(visit::visit_order());
    lemma_new_visits(added, first as int);
    assert(nodes.no_duplicates()) by {
        assert forall|i: int, j: int|
            0 <= i < j < nodes.len() implies #[trigger] nodes[i] != #[trigger] nodes[j] by {
            if j < new.len() {
                assert(nodes[i] == new[i]);
                assert(nodes[j] == new[j]);
            } else {
                assert(nodes[j] == reshard::mirror_visits(mirrors, first)[j - new.len()]);
                if i < new.len() {
                    assert(nodes[i] == new[i]);
                } else {
                    assert(nodes[i] == reshard::mirror_visits(mirrors, first)[i - new.len()]);
                }
            }
        }
    }
    nodes.lemma_multiset_has_no_duplicates();
    order.lemma_multiset_has_no_duplicates_conv();
    assert forall|i: int, j: int| 0 <= i < j < order.len() implies (#[trigger] order[i]).index != (
    #[trigger] order[j]).index by {
        lemma_visited_by_weight(added, mirrors, first, i);
        lemma_visited_by_weight(added, mirrors, first, j);
        assert(order[i] != order[j]);
    }
}

/// Nodes are visited leaves first: of two new nodes that an edge joins, also where mirrors are
/// among them, the target is visited before the source.
pub proof fn lemma_leaves_first(
    flow: Flow,
    added: Set<NodeIndex>,
    mirrors: Seq<Mirror>,
    e: int,
    i: int,
    j: int,
)
    requires
        flow.edges_ascend(),
        flow.nodes.len() + mirrors.len() <= u32::MAX,
        forall|i: int|
            0 <= i < mirrors.len() ==> (#[trigger] mirrors[i]).node < flow.nodes.len(),
        mirrors.no_duplicates(),
        0 <= e < flow.with_mirrors(mirrors).edges.len(),
        0 <= i < visit::visits(to_visit(added, mirrors, flow.nodes.len())).len(),
        0 <= j < visit::visits(to_visit(added, mirrors, flow.nodes.len())).len(),
        visit::visits(to_visit(added, mirrors, flow.nodes.len()))[i].index
            == flow.with_mirrors(mirrors).edges[e].target,
        visit::visits(to_visit(added, mirrors, flow.nodes.len()))[j].index
            == flow.with_mirrors(mirrors).edges[e].source,
    ensures
        i < j,
{
    let first = flow.nodes.len();
    let order = visit::visits(to_visit(added, mirrors, first));
    lemma_edges_descend(flow, mirrors, e);
    lemma_visited_by_weight(added, mirrors, first, i);
    lemma_visited_by_weight(added, mirrors, first, j);
    assert(order[j].below(order[i]));
    if j < i {
        assert(visit::visit_order()(order[j], order[i]));
    }
}

/// A node that is above another is lighter.
proof fn lemma_above_lighter(
    flow: Flow,
    mirrors: Seq<Mirror>,
    from: NodeIndex,
    to: NodeIndex,
    steps: nat,
)
    requires
        flow.edges_ascend(),
        flow.nodes.len() + mirrors.len() <= u32::MAX,
        forall|i: int|
            0 <= i < mirrors.len() ==> (#[trigger] mirrors[i]).node < flow.nodes.len(),
        mirrors.no_duplicates(),
        ancestry::leads(flow.with_mirrors(mirrors).edges, from, to, steps),
    ensures
        from == to || visit::lighter(
            weight(mirrors, flow.nodes.len(), from),
            weight(mirrors, flow.nodes.len(), to),
        ),
    decreases steps,
{
    let edges = flow.with_mirrors(mirrors).edges;
    if steps > 0 {
        let i = choose|i: int|
            0 <= i < edges.len() && (#[trigger] edges[i]).source == from && ancestry::leads(
                edges,
                edges[i].target,
                to,
                (steps - 1) as nat,
            );
        lemma_edges_descend(flow, mirrors, i);
        lemma_above_lighter(flow, mirrors, edges[i].target, to, (steps - 1) as nat);
    }
}

/// Whatever is above a node is visited after it.
pub proof fn lemma_above_visited_later(
    flow: Flow,
    added: Set<NodeIndex>,
    mirrors: Seq<Mirror>,
    i: int,
    j: int,
)
    requires
        flow.edges_ascend(),
        flow.nodes.len() + mirrors.len() <= u32::MAX,
        forall|i: int|
            0 <= i < mirrors.len() ==> (#[trigger] mirrors[i]).node < flow.nodes.len(),
        mirrors.no_duplicates(),
        0 <= i < visit::visits(to_visit(added, mirrors, flow.nodes.len())).len(),
        0 <= j < visit::visits(to_visit(added, mirrors, flow.nodes.len())).len(),
        visit::visits(to_visit(added, mirrors, flow.nodes.len()))[i].index != visit::visits(
            to_visit(added, mirrors, flow.nodes.len()),
        )[j].index,
        ancestry::above(
            flow.with_mirrors(mirrors).edges,
            visit::visits(to_visit(added, mirrors, flow.nodes.len()))[i].index,
        ).contains(visit::visits(to_visit(added, mirrors, flow.nodes.len()))[j].index),
    ensures
        i < j,
{
    let first = flow.nodes.len();
    let edges = flow.with_mirrors(mirrors).edges;
    let order = visit::visits(to_visit(added, mirrors, first));
    let steps = choose|steps: nat|
        ancestry::leads(edges, order[j].index, order[i].index, steps);
    lemma_above_lighter(flow, mirrors, order[j].index, order[i].index, steps);
    lemma_visited_by_weight(added, mirrors, first, i);
    lemma_visited_by_weight(added, mirrors, first, j);
    assert(order[j].below(order[i]));
    if j < i {
        assert(visit::visit_order()(order[j], order[i]));
    }
}

} // verus!
