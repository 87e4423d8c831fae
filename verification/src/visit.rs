//! The order in which operators are visited: leaves first, base tables last.

use vstd::multiset::Multiset;
use vstd::prelude::*;

use crate::sharding::NodeIndex;

verus! {

/// A node to visit. Nodes are visited by descending weight.
#[derive(Debug, Copy, Clone, PartialEq, Eq, PartialOrd, Ord)]
pub struct VisitNode {
    /// The weight of the node: a node index, and where the node stands between the node of that
    /// index and the next.
    pub logical: (NodeIndex, usize),
    /// The node.
    pub index: NodeIndex,
}

/// Whether a weight is smaller than another.
pub open spec fn lighter(left: (NodeIndex, usize), right: (NodeIndex, usize)) -> bool {
    left.0 < right.0 || left.0 == right.0 && left.1 < right.1
}

impl VisitNode {
    /// Whether this node is visited after the other: its weight is smaller, or else its index.
    pub open spec fn below(self, other: VisitNode) -> bool {
        lighter(self.logical, other.logical) || self.logical == other.logical && self.index
            < other.index
    }
}

/// The order of the visit, in which no node is before one that it is below.
pub open spec fn visit_order() -> spec_fn(VisitNode, VisitNode) -> bool {
    |left: VisitNode, right: VisitNode| !left.below(right)
}

/// The nodes in the order of the visit.
pub open spec fn visits(nodes: Seq<VisitNode>) -> Seq<VisitNode> {
    nodes.sort_by(visit_order())
}

/// The order of the visit is a total order.
pub proof fn lemma_visit_order_total()
    ensures
        vstd::relations::total_ordering(visit_order()),
{
}

/// Nodes that are to be visited, which come out in the order of the visit.
pub struct VisitHeap {
    nodes: Vec<VisitNode>,
}

impl View for VisitHeap {
    type V = Multiset<VisitNode>;

    closed spec fn view(&self) -> Multiset<VisitNode> {
        self.nodes@.to_multiset()
    }
}

/// Whether a node is visited after another.
fn is_below(left: &VisitNode, right: &VisitNode) -> (below: bool)
    ensures
        below == left.below(*right),
{
    if left.logical.0 != right.logical.0 {
        left.logical.0 < right.logical.0
    } else if left.logical.1 != right.logical.1 {
        left.logical.1 < right.logical.1
    } else {
        left.index < right.index
    }
}

impl VisitHeap {
    /// A heap without nodes.
    pub fn new() -> (heap: Self)
        ensures
            heap@ == Multiset::<VisitNode>::empty(),
    {
        broadcast use vstd::seq_lib::group_to_multiset_ensures;

        let heap = VisitHeap { nodes: Vec::new() };
        assert(heap.nodes@.len() == 0);
        assert(heap@ =~= Multiset::<VisitNode>::empty());
        heap
    }

    /// Adds a node.
    pub fn push(&mut self, node: VisitNode)
        ensures
            final(self)@ == old(self)@.insert(node),
    {
        broadcast use vstd::seq_lib::group_to_multiset_ensures;

        self.nodes.push(node);
    }

    /// Takes out the node that is visited next, one that is below no other.
    pub fn pop(&mut self) -> (node: Option<VisitNode>)
        ensures
            match node {
                Some(node) => {
                    &&& old(self)@.contains(node)
                    &&& forall|other: VisitNode|
                        old(self)@.contains(other) ==> !#[trigger] node.below(other)
                    &&& forall|other: VisitNode| #[trigger]
                        old(self)@.contains(other) ==> {
                            ||| other.logical.0 < node.logical.0
                            ||| other.logical.0 == node.logical.0 && other.logical.1
                                < node.logical.1
                            ||| other.logical == node.logical && other.index <= node.index
                        }
                    &&& final(self)@ == old(self)@.remove(node)
                },
                None => old(self)@ == Multiset::<VisitNode>::empty() && final(self)@ == old(
                    self,
                )@,
            },
    {
        broadcast use vstd::seq_lib::group_to_multiset_ensures;

        let ghost nodes = self.nodes@;
        if self.nodes.len() == 0 {
            assert(self@ =~= Multiset::<VisitNode>::empty());
            return None;
        }
        let mut next: usize = 0;
        for i in 1..self.nodes.len()
            invariant
                nodes == self.nodes@,
                next < i,
                i <= nodes.len(),
                forall|j: int| 0 <= j < i ==> !nodes[next as int].below(#[trigger] nodes[j]),
        {
            if is_below(&self.nodes[next], &self.nodes[i]) {
                next = i;
            }
        }
        assert forall|other: VisitNode| nodes.to_multiset().contains(other) implies !(
        #[trigger] nodes[next as int].below(other)) by {
            assert(nodes.contains(other));
            let j = choose|j: int| 0 <= j < nodes.len() && nodes[j] == other;
            assert(!nodes[next as int].below(nodes[j]));
        }
        assert(nodes.contains(nodes[next as int]));
        assert forall|other: VisitNode| #[trigger] nodes.to_multiset().contains(other) implies {
            let node = nodes[next as int];
            ||| other.logical.0 < node.logical.0
            ||| other.logical.0 == node.logical.0 && other.logical.1 < node.logical.1
            ||| other.logical == node.logical && other.index <= node.index
        } by {
            assert(!nodes[next as int].below(other));
        }
        Some(self.nodes.remove(next))
    }

    /// Takes all nodes out, in the order of the visit.
    pub fn into_order(self) -> (order: Vec<VisitNode>)
        ensures
            order@.to_multiset() == self@,
            vstd::relations::sorted_by(order@, visit_order()),
            forall|i: int, j: int|
                #![trigger order@[i], order@[j]]
                0 <= i < j < order@.len() ==> {
                    ||| order@[j].logical.0 < order@[i].logical.0
                    ||| order@[j].logical.0 == order@[i].logical.0 && order@[j].logical.1
                        < order@[i].logical.1
                    ||| order@[j].logical == order@[i].logical && order@[j].index
                        <= order@[i].index
                },
    {
        broadcast use vstd::seq_lib::group_to_multiset_ensures;

        let ghost all = self@;
        let mut heap = self;
        let mut order: Vec<VisitNode> = Vec::new();
        assert(order@.to_multiset() =~= Multiset::<VisitNode>::empty());
        assert(order@.to_multiset().add(heap@) =~= all);
        loop
            invariant
                order@.to_multiset().add(heap@) == all,
                vstd::relations::sorted_by(order@, visit_order()),
                forall|i: int, other: VisitNode|
                    0 <= i < order@.len() && heap@.contains(other) ==> !(
                    #[trigger] order@[i].below(other)),
            ensures
                order@.to_multiset() == all,
                vstd::relations::sorted_by(order@, visit_order()),
            decreases heap@.len(),
        {
            let ghost before = order@;
            let ghost held = heap@;
            match heap.pop() {
                Some(node) => {
                    assert(before.to_multiset().insert(node).add(held.remove(node)) =~= all);
                    assert forall|i: int|
                        0 <= i < before.len() implies visit_order()(#[trigger] before[i], node) by {
                        assert(!before[i].below(node));
                    }
                    order.push(node);
                    proof {
                        vstd::seq_lib::to_multiset_build(before, node);
                    }
                    assert(order@ =~= before.push(node));
                    assert forall|i: int, j: int| 0 <= i < j < order@.len() implies (
                    #[trigger] visit_order()(order@[i], order@[j])) by {
                        if j < before.len() {
                            assert(visit_order()(before[i], before[j]));
                        } else {
                            assert(visit_order()(before[i], node));
                        }
                    }
                    assert forall|i: int, other: VisitNode|
                        0 <= i < order@.len() && heap@.contains(other) implies !(
                    #[trigger] order@[i].below(other)) by {
                        assert(held.contains(other));
                        if i < before.len() {
                            assert(!before[i].below(other));
                        } else {
                            assert(!node.below(other));
                        }
                    }
                },
                None => {
                    assert(order@.to_multiset() =~= all);
                    break;
                },
            }
        }
        assert forall|i: int, j: int| #![trigger order@[i], order@[j]]
            0 <= i < j < order@.len() implies {
            ||| order@[j].logical.0 < order@[i].logical.0
            ||| order@[j].logical.0 == order@[i].logical.0 && order@[j].logical.1
                < order@[i].logical.1
            ||| order@[j].logical == order@[i].logical && order@[j].index <= order@[i].index
        } by {
            assert(visit_order()(order@[i], order@[j]));
        }
        order
    }
}

/// Nodes that come out in the order of the visit are the nodes in the order of the visit.
pub proof fn lemma_visits(nodes: Seq<VisitNode>, order: Seq<VisitNode>)
    requires
        order.to_multiset() == nodes.to_multiset(),
        vstd::relations::sorted_by(order, visit_order()),
    ensures
        order == visits(nodes),
{
    lemma_visit_order_total();
    nodes.lemma_sort_by_ensures(visit_order());
    vstd::seq_lib::lemma_sorted_unique(order, visits(nodes), visit_order());
}

} // verus!
