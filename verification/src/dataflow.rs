//! The data-flow graph: a `petgraph` graph of operators, and what its contents are.

use petgraph::graph::{EdgeIndex, Graph};
use petgraph::visit::EdgeRef;
use petgraph::{Directed, Direction};
use vstd::prelude::*;

use crate::operator::{OperatorView, Tmp};
use crate::sharding::{NodeIndex, Sharding};

verus! {

/// The nodes of the graph.
pub type Node = Tmp;

/// The edges of the graph.
pub type Edge = Sharding;

/// The data-flow graph.
pub type FlowGraph = Graph<Node, Edge, Directed, u32>;

/// `petgraph::graph::Graph`, a graph of weighted nodes and edges.
#[verifier::external_type_specification]
#[verifier::external_body]
#[verifier::reject_recursive_types(N)]
#[verifier::reject_recursive_types(E)]
#[verifier::reject_recursive_types(Ty)]
#[verifier::reject_recursive_types(Ix)]
pub struct ExGraph<N, E, Ty, Ix>(petgraph::graph::Graph<N, E, Ty, Ix>);

/// `petgraph::Directed`, which marks a graph as directed.
#[verifier::external_type_specification]
#[verifier::external_body]
pub struct ExDirected(petgraph::Directed);

/// An edge of the graph.
pub struct EdgeView {
    pub source: NodeIndex,
    pub target: NodeIndex,
    pub weight: Sharding,
}

/// What a graph holds: the operators by node index, and the edges in the order in which they were
/// added, the oldest first.
#[verifier::ext_equal]
pub struct Flow {
    pub nodes: Seq<OperatorView>,
    pub edges: Seq<EdgeView>,
}

/// The operators that a graph holds, by node index.
pub uninterp spec fn graph_nodes(graph: Graph<Node, Edge, Directed, u32>) -> Seq<OperatorView>;

/// The edges that a graph holds, in the order in which they were added, the oldest first. The graph
/// shows this order among the edges that leave a node and among those that reach a node.
pub uninterp spec fn graph_edges(graph: Graph<Node, Edge, Directed, u32>) -> Seq<EdgeView>;

/// The edge indices of the edges that a graph holds, listed as the edges are.
pub uninterp spec fn graph_edge_ids(graph: Graph<Node, Edge, Directed, u32>) -> Seq<usize>;

/// What a graph holds.
pub open spec fn flow(graph: FlowGraph) -> Flow {
    Flow { nodes: graph_nodes(graph), edges: graph_edges(graph) }
}

/// Whether two edges join the same two nodes in the same direction.
pub open spec fn joins_same(left: EdgeView, right: EdgeView) -> bool {
    left.source == right.source && left.target == right.target
}

/// No two edges join the same two nodes in the same direction.
pub open spec fn single(edges: Seq<EdgeView>) -> bool {
    forall|i: int, j: int|
        0 <= i < j < edges.len() ==> !joins_same(#[trigger] edges[i], #[trigger] edges[j])
}

impl Flow {
    /// Every column comes from operators with a smaller index.
    pub open spec fn sources_precede(self) -> bool {
        forall|node: int, column: int, i: int|
            0 <= node < self.nodes.len() && 0 <= column < self.nodes[node].sources.len() && 0 <= i
                < self.nodes[node].sources[column].len() ==> (
            #[trigger] self.nodes[node].sources[column][i]).0 < node
    }

    /// No operator looks into one with a larger index.
    pub open spec fn lookups_precede(self) -> bool {
        forall|node: int, i: int|
            0 <= node < self.nodes.len() && 0 <= i < self.nodes[node].lookups.len() ==> (
            #[trigger] self.nodes[node].lookups[i]).0 <= node
    }

    /// Every edge runs from a smaller index to a larger one.
    pub open spec fn edges_ascend(self) -> bool {
        forall|i: int|
            0 <= i < self.edges.len() ==> (#[trigger] self.edges[i]).source < self.edges[i].target
                < self.nodes.len()
    }

    /// No two edges join the same two nodes in the same direction.
    pub open spec fn edges_single(self) -> bool {
        single(self.edges)
    }

    /// Every operator looks into operators of the graph.
    pub open spec fn lookups_within(self) -> bool {
        forall|node: int, i: int|
            0 <= node < self.nodes.len() && 0 <= i < self.nodes[node].lookups.len() ==> (
            #[trigger] self.nodes[node].lookups[i]).0 < self.nodes.len()
    }

    /// Columns come from operators that were added before, and lookups are into operators of the
    /// graph.
    pub open spec fn wf(self) -> bool {
        &&& self.sources_precede()
        &&& self.lookups_within()
    }

    /// A node is added after its parents, and gets a larger index.
    pub open spec fn topological(self) -> bool {
        &&& self.lookups_precede()
        &&& self.edges_ascend()
    }

    /// Every edge joins nodes of the graph.
    pub open spec fn edges_within(self) -> bool {
        forall|i: int|
            0 <= i < self.edges.len() ==> (#[trigger] self.edges[i]).source < self.nodes.len()
                && self.edges[i].target < self.nodes.len()
    }
}

/// The edges that leave a node, the newest first: target and weight of each.
pub open spec fn out_edges(edges: Seq<EdgeView>, source: NodeIndex) -> Seq<(NodeIndex, Sharding)>
    decreases edges.len(),
{
    if edges.len() == 0 {
        Seq::empty()
    } else {
        let older = out_edges(edges.drop_last(), source);
        let edge = edges.last();
        if edge.source == source {
            seq![(edge.target, edge.weight)] + older
        } else {
            older
        }
    }
}

/// The places of the edges that leave a node, the newest first.
pub open spec fn out_places(edges: Seq<EdgeView>, source: NodeIndex) -> Seq<int>
    decreases edges.len(),
{
    if edges.len() == 0 {
        Seq::empty()
    } else {
        let older = out_places(edges.drop_last(), source);
        if edges.last().source == source {
            seq![edges.len() - 1] + older
        } else {
            older
        }
    }
}

/// The sources of the edges that reach a node, the newest edge first.
pub open spec fn parents(edges: Seq<EdgeView>, target: NodeIndex) -> Seq<NodeIndex>
    decreases edges.len(),
{
    if edges.len() == 0 {
        Seq::empty()
    } else {
        let older = parents(edges.drop_last(), target);
        if edges.last().target == target {
            seq![edges.last().source] + older
        } else {
            older
        }
    }
}

/// The place of the newest edge between two nodes.
pub open spec fn newest(edges: Seq<EdgeView>, source: NodeIndex, target: NodeIndex) -> Option<int>
    decreases edges.len(),
{
    if edges.len() == 0 {
        None
    } else if edges.last().source == source && edges.last().target == target {
        Some(edges.len() - 1)
    } else {
        newest(edges.drop_last(), source, target)
    }
}

/// The edges once the newest edge between two nodes has a weight, for which an edge is added where
/// there is none.
pub open spec fn upsert(
    edges: Seq<EdgeView>,
    source: NodeIndex,
    target: NodeIndex,
    weight: Sharding,
) -> Seq<EdgeView> {
    let edge = EdgeView { source, target, weight };
    match newest(edges, source, target) {
        Some(i) => edges.update(i, edge),
        None => edges.push(edge),
    }
}

/// The newest edge between two nodes joins them, and no later edge does.
pub proof fn lemma_newest(edges: Seq<EdgeView>, source: NodeIndex, target: NodeIndex)
    ensures
        match newest(edges, source, target) {
            Some(i) => {
                &&& 0 <= i < edges.len()
                &&& edges[i].source == source
                &&& edges[i].target == target
                &&& forall|j: int|
                    i < j < edges.len() ==> !((#[trigger] edges[j]).source == source
                        && edges[j].target == target)
            },
            None => forall|j: int|
                0 <= j < edges.len() ==> !((#[trigger] edges[j]).source == source && edges[j].target
                    == target),
        },
    decreases edges.len(),
{
    if edges.len() > 0 {
        let older = edges.drop_last();
        lemma_newest(older, source, target);
        assert forall|j: int| 0 <= j < older.len() implies #[trigger] edges[j] == older[j] by {}
    }
}

/// The places of the edges that leave a node are the places of all edges that do, from the newest
/// on, and hold the edges that leave it.
pub proof fn lemma_out_places(edges: Seq<EdgeView>, source: NodeIndex)
    ensures
        out_places(edges, source).len() == out_edges(edges, source).len(),
        forall|i: int|
            #![trigger out_places(edges, source)[i]]
            0 <= i < out_places(edges, source).len() ==> {
                let place = out_places(edges, source)[i];
                &&& 0 <= place < edges.len()
                &&& edges[place].source == source
                &&& out_edges(edges, source)[i] == (edges[place].target, edges[place].weight)
            },
        forall|i: int, j: int|
            0 <= i < j < out_places(edges, source).len() ==> (#[trigger] out_places(
                edges,
                source,
            )[i]) > (#[trigger] out_places(edges, source)[j]),
        forall|place: int|
            0 <= place < edges.len() && (#[trigger] edges[place]).source == source ==> out_places(
                edges,
                source,
            ).contains(place),
    decreases edges.len(),
{
    if edges.len() > 0 {
        let older = edges.drop_last();
        let places = out_places(edges, source);
        let before = out_places(older, source);
        let out = out_edges(edges, source);
        let shift: int = if edges.last().source == source {
            1
        } else {
            0
        };
        lemma_out_places(older, source);
        assert(forall|i: int| 0 <= i < before.len() ==> places[i + shift] == #[trigger] before[i]);
        assert forall|i: int| #![trigger places[i]] 0 <= i < places.len() implies {
            let place = places[i];
            &&& 0 <= place < edges.len()
            &&& edges[place].source == source
            &&& out[i] == (edges[place].target, edges[place].weight)
        } by {
            if i >= shift {
                assert(places[i] == before[i - shift]);
                assert(older[before[i - shift]] == edges[places[i]]);
                assert(out[i] == out_edges(older, source)[i - shift]);
            }
        }
        assert forall|i: int, j: int| 0 <= i < j < places.len() implies (#[trigger] places[i]) > (
        #[trigger] places[j]) by {
            assert(places[j] == before[j - shift]);
            if i >= shift {
                assert(places[i] == before[i - shift]);
            }
        }
        assert forall|place: int|
            0 <= place < edges.len() && (#[trigger] edges[place]).source
                == source implies places.contains(place) by {
            if place < older.len() {
                assert(older[place] == edges[place]);
                let k = choose|k: int| 0 <= k < before.len() && before[k] == place;
                assert(places[k + shift] == place);
            } else {
                assert(places[0] == place);
            }
        }
    }
}

/// The image of an element is among the images.
pub proof fn lemma_filter_map_keeps<A, B>(items: Seq<A>, f: spec_fn(A) -> Option<B>, item: A)
    requires
        items.contains(item),
        f(item) is Some,
    ensures
        items.filter_map(f).contains(f(item)->0),
    decreases items.len(),
{
    let rest = items.drop_last();
    let all = items.filter_map(f);
    let before = rest.filter_map(f);
    items.lemma_filter_map_take_succ(f, items.len() - 1);
    assert(items.take(items.len() as int) =~= items);
    assert(items.take(items.len() - 1) =~= rest);
    let k = choose|k: int| 0 <= k < items.len() && items[k] == item;
    if k < rest.len() {
        assert(rest[k] == item);
        lemma_filter_map_keeps(rest, f, item);
        let j = choose|j: int| 0 <= j < before.len() && before[j] == f(item)->0;
        assert(all[j] == f(item)->0);
    } else {
        assert(all[before.len() as int] == f(item)->0);
    }
}

/// An empty graph, by `petgraph::graph::Graph::default`.
#[verifier::external_body]
pub(crate) fn new_graph() -> (graph: FlowGraph)
    ensures
        graph_nodes(graph) == Seq::<OperatorView>::empty(),
        graph_edges(graph) == Seq::<EdgeView>::empty(),
{
    Graph::default()
}

/// A copy of a graph, by `petgraph::graph::Graph::clone`: it keeps the indices and clones the
/// weights, and cloning an operator keeps what is observable of it.
#[verifier::external_body]
pub(crate) fn clone_graph(graph: &FlowGraph) -> (copy: FlowGraph)
    ensures
        graph_nodes(copy) == graph_nodes(*graph),
        graph_edges(copy) == graph_edges(*graph),
        graph_edge_ids(copy) == graph_edge_ids(*graph),
{
    graph.clone()
}

/// The number of nodes, by `petgraph::graph::Graph::node_count`. Node indices are 32 bits wide and
/// the largest is kept free, which bounds the number.
#[verifier::external_body]
pub(crate) fn node_count(graph: &FlowGraph) -> (count: usize)
    ensures
        count == graph_nodes(*graph).len(),
        count <= u32::MAX,
{
    graph.node_count()
}

/// The number of edges, by `petgraph::graph::Graph::edge_count`. Edge indices are 32 bits wide and
/// the largest is kept free, which bounds the number.
#[verifier::external_body]
pub(crate) fn edge_count(graph: &FlowGraph) -> (count: usize)
    ensures
        count == graph_edges(*graph).len(),
        count <= u32::MAX,
{
    graph.edge_count()
}

/// The operator at a node, by the `Index` of `petgraph::graph::Graph`.
#[verifier::external_body]
pub(crate) fn operator(graph: &FlowGraph, node: NodeIndex) -> (operator: &Node)
    requires
        node < graph_nodes(*graph).len(),
    ensures
        operator@ == graph_nodes(*graph)[node as int],
{
    &graph[petgraph::graph::NodeIndex::new(node as usize)]
}

/// The operator at a node, for change, by the `IndexMut` of `petgraph::graph::Graph`. The graph
/// keeps its other operators and its edges.
#[verifier::external_body]
pub(crate) fn operator_mut(graph: &mut FlowGraph, node: NodeIndex) -> (operator: &mut Node)
    requires
        node < graph_nodes(*old(graph)).len(),
    ensures
        operator@ == graph_nodes(*old(graph))[node as int],
        graph_nodes(*final(graph)) == graph_nodes(*old(graph)).update(
            node as int,
            final(operator)@,
        ),
        graph_edges(*final(graph)) == graph_edges(*old(graph)),
{
    &mut graph[petgraph::graph::NodeIndex::new(node as usize)]
}

/// Adds a node, by `petgraph::graph::Graph::add_node`, which panics where every index is taken.
#[verifier::external_body]
pub(crate) fn add_node(graph: &mut FlowGraph, operator: Node) -> (node: NodeIndex)
    requires
        graph_nodes(*old(graph)).len() < u32::MAX,
    ensures
        node == graph_nodes(*old(graph)).len(),
        graph_nodes(*final(graph)) == graph_nodes(*old(graph)).push(operator@),
        graph_edges(*final(graph)) == graph_edges(*old(graph)),
{
    graph.add_node(operator).index() as u32
}

/// Adds an edge, by `petgraph::graph::Graph::add_edge`, which panics where a node is missing or
/// every edge index is taken.
#[verifier::external_body]
pub(crate) fn add_edge(graph: &mut FlowGraph, source: NodeIndex, target: NodeIndex, weight: Edge)
    requires
        source < graph_nodes(*old(graph)).len(),
        target < graph_nodes(*old(graph)).len(),
        graph_edges(*old(graph)).len() < u32::MAX,
    ensures
        graph_nodes(*final(graph)) == graph_nodes(*old(graph)),
        graph_edges(*final(graph)) == graph_edges(*old(graph)).push(
            EdgeView { source, target, weight },
        ),
{
    graph.add_edge(
        petgraph::graph::NodeIndex::new(source as usize),
        petgraph::graph::NodeIndex::new(target as usize),
        weight,
    );
}

/// Adds an edge or replaces the weight of the one that `find_edge` finds, by
/// `petgraph::graph::Graph::update_edge`, which panics where it has to add an edge and
/// `add_edge` panics.
#[verifier::external_body]
pub(crate) fn update_edge(
    graph: &mut FlowGraph,
    source: NodeIndex,
    target: NodeIndex,
    weight: Edge,
)
    requires
        source < graph_nodes(*old(graph)).len(),
        target < graph_nodes(*old(graph)).len(),
        newest(graph_edges(*old(graph)), source, target) is None ==> graph_edges(*old(graph)).len()
            < u32::MAX,
    ensures
        graph_nodes(*final(graph)) == graph_nodes(*old(graph)),
        graph_edges(*final(graph)) == upsert(graph_edges(*old(graph)), source, target, weight),
{
    graph.update_edge(
        petgraph::graph::NodeIndex::new(source as usize),
        petgraph::graph::NodeIndex::new(target as usize),
        weight,
    );
}

/// The edges that leave a node, each with its edge index, by
/// `petgraph::graph::Graph::edges_directed`, which walks the list that `add_edge` puts each new
/// edge in front of. An edge reaches a node of the graph, as `add_edge` makes sure.
#[verifier::external_body]
pub(crate) fn edges_out_of(graph: &FlowGraph, node: NodeIndex) -> (edges: Vec<
    (NodeIndex, Edge, usize),
>)
    ensures
        edges@.len() == out_places(graph_edges(*graph), node).len(),
        forall|i: int|
            #![trigger edges@[i]]
            0 <= i < edges@.len() ==> {
                let place = out_places(graph_edges(*graph), node)[i];
                &&& edges@[i].0 == graph_edges(*graph)[place].target
                &&& edges@[i].1 == graph_edges(*graph)[place].weight
                &&& edges@[i].2 == graph_edge_ids(*graph)[place]
                &&& place < graph_edge_ids(*graph).len()
                &&& edges@[i].0 < graph_nodes(*graph).len()
            },
{
    graph.edges_directed(
        petgraph::graph::NodeIndex::new(node as usize),
        Direction::Outgoing,
    ).map(|edge| (edge.target().index() as u32, *edge.weight(), edge.id().index())).collect()
}

/// The edges that leave a node, the newest first: target and weight of each.
pub(crate) fn children_of(graph: &FlowGraph, node: NodeIndex) -> (children: Vec<(NodeIndex, Edge)>)
    ensures
        children@ == out_edges(graph_edges(*graph), node),
{
    let edges = edges_out_of(graph, node);
    let mut children: Vec<(NodeIndex, Edge)> = Vec::new();
    proof {
        lemma_out_places(graph_edges(*graph), node);
    }
    for i in 0..edges.len()
        invariant
            edges@.len() == out_edges(graph_edges(*graph), node).len(),
            children@ == out_edges(graph_edges(*graph), node).take(i as int),
            forall|j: int|
                #![trigger edges@[j]]
                0 <= j < edges@.len() ==> (edges@[j].0, edges@[j].1) == out_edges(
                    graph_edges(*graph),
                    node,
                )[j],
    {
        assert((edges@[i as int].0, edges@[i as int].1) == out_edges(
            graph_edges(*graph),
            node,
        )[i as int]);
        children.push((edges[i].0, edges[i].1));
    }
    children
}

/// The sources of the edges that reach a node, by `petgraph::graph::Graph::neighbors_directed`,
/// whose documentation lists the neighbor of the most recently added edge first. An edge leaves a
/// node of the graph, as `add_edge` makes sure.
#[verifier::external_body]
pub(crate) fn parents_of(graph: &FlowGraph, node: NodeIndex) -> (nodes: Vec<NodeIndex>)
    ensures
        nodes@ == parents(graph_edges(*graph), node),
        forall|i: int|
            0 <= i < nodes@.len() ==> (#[trigger] nodes@[i]) < graph_nodes(*graph).len(),
{
    graph.neighbors_directed(
        petgraph::graph::NodeIndex::new(node as usize),
        Direction::Incoming,
    ).map(|parent| parent.index() as u32).collect()
}

/// The edge index of the newest edge between two nodes, by `petgraph::graph::Graph::find_edge`,
/// which walks the edges that leave the source from the newest on.
#[verifier::external_body]
pub(crate) fn find_edge(graph: &FlowGraph, source: NodeIndex, target: NodeIndex) -> (edge: Option<
    usize,
>)
    ensures
        match newest(graph_edges(*graph), source, target) {
            Some(i) => edge == Some(graph_edge_ids(*graph)[i]) && i < graph_edge_ids(*graph).len(),
            None => edge is None,
        },
{
    graph.find_edge(
        petgraph::graph::NodeIndex::new(source as usize),
        petgraph::graph::NodeIndex::new(target as usize),
    ).map(|edge| edge.index())
}

/// Takes the edge with an edge index out, by `petgraph::graph::Graph::remove_edge`. The other edges
/// keep their order; which of them changes its index is not stated.
#[verifier::external_body]
pub(crate) fn remove_edge(graph: &mut FlowGraph, edge: usize) -> (weight: Option<Edge>)
    ensures
        graph_nodes(*final(graph)) == graph_nodes(*old(graph)),
        forall|i: int|
            0 <= i < graph_edge_ids(*old(graph)).len() && #[trigger] graph_edge_ids(*old(graph))[i]
                == edge ==> {
                &&& weight == Some(graph_edges(*old(graph))[i].weight)
                &&& graph_edges(*final(graph)) == graph_edges(*old(graph)).remove(i)
            },
{
    graph.remove_edge(EdgeIndex::new(edge))
}

} // verus!
