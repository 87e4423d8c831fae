//! Mirrors of sharded operators, for keys that do not fit the way the operator is sharded.

use std::collections::{HashMap, HashSet};
use vstd::prelude::*;

use crate::dataflow;
use crate::dataflow::{
    add_edge, add_node, edge_count, edges_out_of, node_count, operator, operator_mut,
    remove_edge, EdgeView, Flow, FlowGraph,
};
use crate::error::CommitError;
use crate::materialization;
use crate::materialization::{ascending_keys, Materialization, MaterializationView};
use crate::resolve::resolve_column;
use crate::sharding::{Column, NodeIndex, Sharding};
use crate::takeover;
use crate::visit::{VisitHeap, VisitNode};

verus! {

/// State of a sharded operator that is needed a second time, sharded differently.
#[derive(Clone, Copy, Debug, PartialEq, Eq)]
pub struct Reshard {
    /// The operator that keeps the state.
    pub node: NodeIndex,
    /// The key that the state is looked up by.
    pub column: usize,
    /// What the key resolves to, and hence what the copy has to be sharded by.
    pub want: Column,
}

impl Flow {
    /// The keys of a node that fit its sharding: those that resolve to it.
    pub open spec fn fitting(self, node: NodeIndex, sharding: Column, keys: Set<usize>) -> Set<
        usize,
    > {
        keys.filter(|key: usize| self.resolve(node, key) == Some(sharding))
    }

    /// The copies that are needed for the keys of a node that do not fit its sharding, in ascending
    /// order of the keys.
    pub open spec fn reshards_of(self, node: NodeIndex, sharding: Column, keys: Set<usize>) -> Seq<
        Reshard,
    > {
        materialization::ascending(keys).filter_map(
            |key: usize|
                if self.resolve(node, key) == Some(sharding) {
                    None
                } else {
                    Some(Reshard { node, column: key, want: self.resolve(node, key)->0 })
                },
        )
    }

    /// The keys of a node exist as columns.
    pub open spec fn keys_of_resolve(self, node: NodeIndex, keys: Set<usize>) -> bool {
        forall|key: usize| #[trigger] keys.contains(key) ==> self.resolve(node, key) is Some
    }

    /// The keys of the sharded nodes before `end` exist as columns.
    pub open spec fn keys_resolve(
        self,
        assigned: Map<NodeIndex, Column>,
        materializations: Map<NodeIndex, MaterializationView>,
        end: int,
    ) -> bool {
        forall|node: NodeIndex|
            node < end && assigned.contains_key(node) && materializations.contains_key(node)
                ==> #[trigger] self.keys_of_resolve(node, materializations[node].keys)
    }

    /// The materializations once the sharded nodes before `end` keep the keys that fit.
    pub open spec fn fitted(
        self,
        assigned: Map<NodeIndex, Column>,
        materializations: Map<NodeIndex, MaterializationView>,
        end: int,
    ) -> Map<NodeIndex, MaterializationView> {
        Map::new(
            |node: NodeIndex| materializations.contains_key(node),
            |node: NodeIndex|
                if node < end && assigned.contains_key(node) {
                    MaterializationView {
                        keys: self.fitting(node, assigned[node], materializations[node].keys),
                        plan: materializations[node].plan,
                    }
                } else {
                    materializations[node]
                },
        )
    }

    /// The copies that are needed for keys of nodes before `end` that do not fit.
    pub open spec fn reshards(
        self,
        assigned: Map<NodeIndex, Column>,
        materializations: Map<NodeIndex, MaterializationView>,
        end: int,
    ) -> Seq<Reshard>
        decreases end,
    {
        if end <= 0 {
            Seq::empty()
        } else {
            let before = self.reshards(assigned, materializations, end - 1);
            let node = (end - 1) as NodeIndex;
            if assigned.contains_key(node) && materializations.contains_key(node) {
                before + self.reshards_of(node, assigned[node], materializations[node].keys)
            } else {
                before
            }
        }
    }
}

/// Splits the keys of a sharded node into those that fit and the copies that the others need;
/// `None` where a key does not exist as a column.
fn split_keys_of(
    graph: &FlowGraph,
    node: NodeIndex,
    sharding: Column,
    keys: &HashSet<usize>,
) -> (split: Option<(HashSet<usize>, Vec<Reshard>)>)
    requires
        dataflow::flow(*graph).wf(),
        node < dataflow::flow(*graph).nodes.len(),
    ensures
        ({
            let flow = dataflow::flow(*graph);
            match split {
                Some((fit, reshards)) => {
                    &&& flow.keys_of_resolve(node, keys@)
                    &&& fit@ == flow.fitting(node, sharding, keys@)
                    &&& reshards@ == flow.reshards_of(node, sharding, keys@)
                },
                None => !flow.keys_of_resolve(node, keys@),
            }
        }),
{
    let ghost flow = dataflow::flow(*graph);
    let ghost f = |key: usize|
        if flow.resolve(node, key) == Some(sharding) {
            None
        } else {
            Some(Reshard { node, column: key, want: flow.resolve(node, key)->0 })
        };
    let list = ascending_keys(keys);
    let mut fit: HashSet<usize> = HashSet::new();
    let mut reshards: Vec<Reshard> = Vec::new();
    proof {
        materialization::lemma_ascending(keys@);
    }
    for i in 0..list.len()
        invariant
            flow == dataflow::flow(*graph),
            flow.wf(),
            node < flow.nodes.len(),
            f == (|key: usize|
                if flow.resolve(node, key) == Some(sharding) {
                    None
                } else {
                    Some(Reshard { node, column: key, want: flow.resolve(node, key)->0 })
                }),
            list@ == materialization::ascending(keys@),
            forall|key: usize| #[trigger]
                materialization::ascending(keys@).contains(key) <==> keys@.contains(key),
            forall|j: int| 0 <= j < i ==> flow.resolve(node, #[trigger] list@[j]) is Some,
            forall|key: usize| #[trigger]
                fit@.contains(key) ==> keys@.contains(key) && flow.resolve(node, key) == Some(
                    sharding,
                ),
            forall|j: int|
                0 <= j < i && flow.resolve(node, #[trigger] list@[j]) == Some(sharding)
                    ==> fit@.contains(list@[j]),
            reshards@ == list@.take(i as int).filter_map(f),
    {
        proof {
            list@.lemma_filter_map_take_succ(f, i as int);
            assert(list@.contains(list@[i as int]));
        }
        let key: usize = list[i];
        match resolve_column(graph, node, key) {
            Some(want) => {
                if want.0 == sharding.0 && want.1 == sharding.1 {
                    fit.insert(key);
                } else {
                    reshards.push(Reshard { node, column: key, want });
                }
            },
            None => {
                return None;
            },
        }
    }
    assert(list@.take(list@.len() as int) =~= list@);
    assert forall|key: usize| #[trigger] keys@.contains(key) implies flow.resolve(
        node,
        key,
    ) is Some && (flow.resolve(node, key) == Some(sharding) ==> fit@.contains(key)) by {
        assert(materialization::ascending(keys@).contains(key));
        let j = choose|j: int| 0 <= j < list@.len() && list@[j] == key;
        assert(flow.resolve(node, list@[j]) is Some);
    }
    assert(fit@ =~= flow.fitting(node, sharding, keys@));
    Some((fit, reshards))
}

/// Takes from every materialization of a sharded node the keys that do not resolve to the sharding,
/// and lists the copies that they need.
pub fn split_keys(
    graph: &FlowGraph,
    assigned: &HashMap<NodeIndex, Column>,
    materializations: HashMap<NodeIndex, Materialization>,
) -> (split: Result<(HashMap<NodeIndex, Materialization>, Vec<Reshard>), CommitError>)
    requires
        dataflow::flow(*graph).wf(),
    ensures
        ({
            let flow = dataflow::flow(*graph);
            let end = flow.nodes.len() as int;
            let before = materialization::views(materializations@);
            match split {
                Ok((fitted, reshards)) => {
                    &&& flow.keys_resolve(assigned@, before, end)
                    &&& materialization::views(fitted@) == flow.fitted(assigned@, before, end)
                    &&& reshards@ == flow.reshards(assigned@, before, end)
                },
                Err(error) => error == CommitError::UnknownColumn && !flow.keys_resolve(
                    assigned@,
                    before,
                    end,
                ),
            }
        }),
{
    let ghost flow = dataflow::flow(*graph);
    let ghost before = materialization::views(materializations@);
    let count: usize = node_count(graph);
    let mut fitted = materializations;
    let mut reshards: Vec<Reshard> = Vec::new();
    let mut node: NodeIndex = 0;
    assert(materialization::views(fitted@) =~= flow.fitted(assigned@, before, 0));
    while (node as usize) < count
        invariant
            flow == dataflow::flow(*graph),
            flow.wf(),
            before == materialization::views(materializations@),
            count == flow.nodes.len(),
            node <= count <= u32::MAX,
            flow.keys_resolve(assigned@, before, node as int),
            materialization::views(fitted@) == flow.fitted(assigned@, before, node as int),
            reshards@ == flow.reshards(assigned@, before, node as int),
        decreases count - node,
    {
        let ghost held = fitted@;
        if let Some(sharding) = assigned.get(&node) {
            assert(flow.fitted(assigned@, before, node as int).contains_key(node)
                == before.contains_key(node));
            assert(materialization::views(held).contains_key(node) == held.contains_key(node));
            if let Some(mut materialization) = fitted.remove(&node) {
                assert(materialization::views(held)[node] == materialization@);
                assert(before[node] == materialization@);
                match split_keys_of(graph, node, *sharding, &materialization.keys) {
                    Some((fit, mut needed)) => {
                        materialization.keys = fit;
                        fitted.insert(node, materialization);
                        assert(materialization::views(fitted@) =~= materialization::views(
                            held,
                        ).insert(node, materialization@));
                        assert(materialization@ == flow.fitted(assigned@, before, node + 1)[node]);
                        reshards.append(&mut needed);
                    },
                    None => {
                        assert(!flow.keys_of_resolve(node, before[node].keys));
                        return Err(CommitError::UnknownColumn);
                    },
                }
            } else {
                assert(fitted@ =~= held);
            }
        }
        assert forall|other: NodeIndex|
            other != node && before.contains_key(other) implies flow.fitted(
            assigned@,
            before,
            node as int,
        )[other] == #[trigger] flow.fitted(assigned@, before, node + 1)[other] by {}
        assert(materialization::views(fitted@) =~= flow.fitted(assigned@, before, node + 1));
        assert(flow.keys_resolve(assigned@, before, node + 1));
        node = node + 1;
    }
    Ok((fitted, reshards))
}

/// A mirror: a node that keeps copies of state of another.
#[derive(Clone, Copy, Debug, PartialEq, Eq)]
pub struct Mirror {
    /// The node that is mirrored.
    pub node: NodeIndex,
    /// What the mirror is sharded by.
    pub want: Column,
}

impl Reshard {
    /// The mirror that keeps the copy.
    pub open spec fn mirror(self) -> Mirror {
        Mirror { node: self.node, want: self.want }
    }
}

/// The mirrors that copies need: one for each node and sharding, in the order in which they are
/// first needed.
pub open spec fn mirrors(reshards: Seq<Reshard>) -> Seq<Mirror>
    decreases reshards.len(),
{
    if reshards.len() == 0 {
        Seq::empty()
    } else {
        let before = mirrors(reshards.drop_last());
        let mirror = reshards.last().mirror();
        if before.contains(mirror) {
            before
        } else {
            before.push(mirror)
        }
    }
}

/// The keys of the copies that a mirror keeps.
pub open spec fn mirror_keys(reshards: Seq<Reshard>, mirror: Mirror) -> Set<usize> {
    Set::new(
        |column: usize|
            reshards.contains(Reshard { node: mirror.node, column, want: mirror.want }),
    )
}

/// No mirror is there twice, each is for a copy, and each copy has one.
pub proof fn lemma_mirrors(reshards: Seq<Reshard>)
    ensures
        mirrors(reshards).no_duplicates(),
        mirrors(reshards).len() <= reshards.len(),
        forall|i: int|
            0 <= i < reshards.len() ==> mirrors(reshards).contains(
                (#[trigger] reshards[i]).mirror(),
            ),
        forall|j: int|
            0 <= j < mirrors(reshards).len() ==> is_needed(
                reshards,
                #[trigger] mirrors(reshards)[j],
            ),
    decreases reshards.len(),
{
    if reshards.len() > 0 {
        let earlier = reshards.drop_last();
        let before = mirrors(earlier);
        let all = mirrors(reshards);
        let last = reshards.last().mirror();
        lemma_mirrors(earlier);
        assert forall|i: int| 0 <= i < reshards.len() implies all.contains(
            (#[trigger] reshards[i]).mirror(),
        ) by {
            if i < earlier.len() {
                assert(earlier[i] == reshards[i]);
                let k = choose|k: int| 0 <= k < before.len() && before[k] == reshards[i].mirror();
                assert(all[k] == reshards[i].mirror());
            } else if !before.contains(last) {
                assert(all[before.len() as int] == last);
            }
        }
        assert forall|j: int| 0 <= j < all.len() implies is_needed(
            reshards,
            #[trigger] all[j],
        ) by {
            if j < before.len() {
                assert(all[j] == before[j]);
                let i = choose|i: int|
                    0 <= i < earlier.len() && (#[trigger] earlier[i]).mirror() == all[j];
                assert(reshards[i].mirror() == all[j]);
            } else {
                assert(reshards[reshards.len() - 1].mirror() == all[j]);
            }
        }
    }
}

/// Whether a copy needs the mirror.
pub open spec fn is_needed(reshards: Seq<Reshard>, mirror: Mirror) -> bool {
    exists|i: int| 0 <= i < reshards.len() && (#[trigger] reshards[i]).mirror() == mirror
}

/// Whether a mirror is among mirrors.
fn has_mirror(mirrors: &Vec<Mirror>, mirror: Mirror) -> (has: bool)
    ensures
        has == mirrors@.contains(mirror),
{
    for i in 0..mirrors.len()
        invariant
            forall|j: int| 0 <= j < i ==> #[trigger] mirrors@[j] != mirror,
    {
        let other: Mirror = mirrors[i];
        if other.node == mirror.node && other.want.0 == mirror.want.0 && other.want.1
            == mirror.want.1 {
            assert(mirrors@[i as int] == mirror);
            return true;
        }
    }
    false
}

/// Finds the mirrors that copies need.
pub fn mirrors_of(reshards: &Vec<Reshard>) -> (found: Vec<Mirror>)
    ensures
        found@ == mirrors(reshards@),
{
    let mut found: Vec<Mirror> = Vec::new();
    for i in 0..reshards.len()
        invariant
            found@ == mirrors(reshards@.take(i as int)),
    {
        assert(reshards@.take(i + 1).drop_last() =~= reshards@.take(i as int));
        let mirror = Mirror { node: reshards[i].node, want: reshards[i].want };
        if !has_mirror(&found, mirror) {
            found.push(mirror);
        }
    }
    assert(reshards@.take(reshards@.len() as int) =~= reshards@);
    found
}

/// The keys of the copies that a mirror keeps.
fn mirror_keys_of(reshards: &Vec<Reshard>, mirror: Mirror) -> (keys: HashSet<usize>)
    ensures
        keys@ == mirror_keys(reshards@, mirror),
{
    let mut keys: HashSet<usize> = HashSet::new();
    for i in 0..reshards.len()
        invariant
            forall|j: int|
                0 <= j < i && (#[trigger] reshards@[j]).mirror() == mirror ==> keys@.contains(
                    reshards@[j].column,
                ),
            forall|key: usize| #[trigger]
                keys@.contains(key) ==> mirror_keys(reshards@, mirror).contains(key),
    {
        let reshard: Reshard = reshards[i];
        if reshard.node == mirror.node && reshard.want.0 == mirror.want.0 && reshard.want.1
            == mirror.want.1 {
            keys.insert(reshard.column);
            assert(reshards@[i as int] == (Reshard {
                node: mirror.node,
                column: reshard.column,
                want: mirror.want,
            }));
        }
    }
    assert forall|key: usize| mirror_keys(reshards@, mirror).contains(key) implies keys@.contains(
        key,
    ) by {
        let reshard = Reshard { node: mirror.node, column: key, want: mirror.want };
        let j = choose|j: int| 0 <= j < reshards@.len() && reshards@[j] == reshard;
        assert(reshards@[j].mirror() == mirror);
    }
    assert(keys@ =~= mirror_keys(reshards@, mirror));
    keys
}

/// Whether an edge leaves a node and requires the sharding by that column.
pub open spec fn demands(edge: EdgeView, node: NodeIndex, want: Column) -> bool {
    edge.source == node && edge.weight == Sharding::By(want.0, want.1)
}

/// The edges that demand a sharding of a node, the newest first, as edges out of the mirror.
pub open spec fn moved(
    edges: Seq<EdgeView>,
    node: NodeIndex,
    mirror: NodeIndex,
    want: Column,
) -> Seq<EdgeView>
    decreases edges.len(),
{
    if edges.len() == 0 {
        Seq::empty()
    } else {
        let older = moved(edges.drop_last(), node, mirror, want);
        let edge = edges.last();
        if demands(edge, node, want) {
            seq![EdgeView { source: mirror, target: edge.target, weight: edge.weight }] + older
        } else {
            older
        }
    }
}

/// The edge that feeds a mirror.
pub open spec fn feed(node: NodeIndex, mirror: NodeIndex, want: Column) -> EdgeView {
    EdgeView { source: node, target: mirror, weight: Sharding::By(want.0, want.1) }
}

/// The edges once a mirror feeds whatever demanded its sharding of the node that it mirrors, and
/// the node feeds the mirror.
pub open spec fn diverted(
    edges: Seq<EdgeView>,
    node: NodeIndex,
    mirror: NodeIndex,
    want: Column,
) -> Seq<EdgeView> {
    (edges.filter(|edge: EdgeView| !demands(edge, node, want)) + moved(
        edges,
        node,
        mirror,
        want,
    )).push(feed(node, mirror, want))
}

impl Flow {
    /// The graph with a mirror. The node feeds the mirror, and the mirror feeds instead of it
    /// whatever demanded the sharding of the mirror.
    pub open spec fn with_mirror(self, mirror: Mirror) -> Flow {
        let at = self.nodes.len() as NodeIndex;
        Flow {
            nodes: self.nodes.push(self.nodes[mirror.node as int]),
            edges: diverted(self.edges, mirror.node, at, mirror.want),
        }
    }

    /// The graph with mirrors, in order.
    pub open spec fn with_mirrors(self, mirrors: Seq<Mirror>) -> Flow
        decreases mirrors.len(),
    {
        if mirrors.len() == 0 {
            self
        } else {
            self.with_mirrors(mirrors.drop_last()).with_mirror(mirrors.last())
        }
    }
}

/// Mirrors add as many nodes and edges as there are mirrors.
pub proof fn lemma_with_mirrors(flow: Flow, mirrors: Seq<Mirror>)
    ensures
        flow.with_mirrors(mirrors).nodes.len() == flow.nodes.len() + mirrors.len(),
        flow.with_mirrors(mirrors).edges.len() == flow.edges.len() + mirrors.len(),
    decreases mirrors.len(),
{
    if mirrors.len() > 0 {
        let mirror = mirrors.last();
        let before = flow.with_mirrors(mirrors.drop_last());
        lemma_with_mirrors(flow, mirrors.drop_last());
        takeover::lemma_without_all(
            before.edges,
            mirror.node,
            before.nodes.len() as NodeIndex,
            mirror.want,
        );
    }
}

/// The place of the newest edge that demands a sharding of a node.
pub open spec fn newest_demand(edges: Seq<EdgeView>, node: NodeIndex, want: Column) -> Option<int>
    decreases edges.len(),
{
    if edges.len() == 0 {
        None
    } else if demands(edges.last(), node, want) {
        Some(edges.len() - 1)
    } else {
        newest_demand(edges.drop_last(), node, want)
    }
}

/// The newest edge that demands a sharding demands it, and no later edge does.
proof fn lemma_newest_demand(edges: Seq<EdgeView>, node: NodeIndex, want: Column)
    ensures
        match newest_demand(edges, node, want) {
            Some(i) => {
                &&& 0 <= i < edges.len()
                &&& demands(edges[i], node, want)
                &&& forall|j: int|
                    i < j < edges.len() ==> !demands(#[trigger] edges[j], node, want)
            },
            None => forall|j: int|
                0 <= j < edges.len() ==> !demands(#[trigger] edges[j], node, want),
        },
    decreases edges.len(),
{
    if edges.len() > 0 {
        let older = edges.drop_last();
        lemma_newest_demand(older, node, want);
        assert forall|j: int| 0 <= j < older.len() implies #[trigger] edges[j] == older[j] by {}
    }
}

/// Finds the newest edge that demands a sharding of a node: its target and its edge index.
fn find_demand(graph: &FlowGraph, node: NodeIndex, want: Column) -> (found: Option<
    (NodeIndex, usize),
>)
    ensures
        match newest_demand(dataflow::flow(*graph).edges, node, want) {
            Some(place) => {
                &&& found == Some(
                    (
                        dataflow::flow(*graph).edges[place].target,
                        dataflow::graph_edge_ids(*graph)[place],
                    ),
                )
                &&& place < dataflow::graph_edge_ids(*graph).len()
                &&& dataflow::flow(*graph).edges[place].target < dataflow::flow(*graph).nodes.len()
            },
            None => found is None,
        },
{
    let ghost edges = dataflow::flow(*graph).edges;
    let ghost places = dataflow::out_places(edges, node);
    let out = edges_out_of(graph, node);
    proof {
        dataflow::lemma_out_places(edges, node);
        lemma_newest_demand(edges, node, want);
    }
    for i in 0..out.len()
        invariant
            edges == dataflow::flow(*graph).edges,
            places == dataflow::out_places(edges, node),
            out@.len() == places.len(),
            forall|j: int|
                #![trigger out@[j]]
                0 <= j < out@.len() ==> {
                    &&& out@[j].0 == edges[places[j]].target
                    &&& out@[j].1 == edges[places[j]].weight
                    &&& out@[j].2 == dataflow::graph_edge_ids(*graph)[places[j]]
                    &&& places[j] < dataflow::graph_edge_ids(*graph).len()
                    &&& out@[j].0 < dataflow::flow(*graph).nodes.len()
                },
            forall|j: int|
                #![trigger places[j]]
                0 <= j < places.len() ==> 0 <= places[j] < edges.len() && edges[places[j]].source
                    == node,
            forall|j: int, k: int|
                0 <= j < k < places.len() ==> (#[trigger] places[j]) > (#[trigger] places[k]),
            forall|place: int|
                0 <= place < edges.len() && (#[trigger] edges[place]).source == node
                    ==> places.contains(place),
            forall|j: int|
                #![trigger places[j]]
                0 <= j < i ==> !demands(edges[places[j]], node, want),
            match newest_demand(edges, node, want) {
                Some(i) => {
                    &&& 0 <= i < edges.len()
                    &&& demands(edges[i], node, want)
                    &&& forall|j: int|
                        i < j < edges.len() ==> !demands(#[trigger] edges[j], node, want)
                },
                None => forall|j: int|
                    0 <= j < edges.len() ==> !demands(#[trigger] edges[j], node, want),
            },
    {
        let (target, weight, edge) = out[i];
        assert(out@[i as int].1 == edges[places[i as int]].weight);
        if let Sharding::By(operator, column) = weight {
            if operator == want.0 && column == want.1 {
                proof {
                    let place = newest_demand(edges, node, want)->0;
                    assert(demands(edges[places[i as int]], node, want));
                    assert(places.contains(place));
                    let k = choose|k: int| 0 <= k < places.len() && places[k] == place;
                    assert(k >= i);
                    if k > i {
                        assert(places[i as int] > places[k]);
                    }
                }
                return Some((target, edge));
            }
        }
    }
    proof {
        if let Some(place) = newest_demand(edges, node, want) {
            assert(places.contains(place));
            let k = choose|k: int| 0 <= k < places.len() && places[k] == place;
            assert(!demands(edges[places[k]], node, want));
        }
    }
    None
}

/// Adds a mirror: it feeds what demanded its sharding of the node that it mirrors, and the node
/// feeds the mirror.
fn add_mirror(graph: &mut FlowGraph, mirror: Mirror) -> (at: NodeIndex)
    requires
        mirror.node < dataflow::flow(*old(graph)).nodes.len() < u32::MAX,
        dataflow::flow(*old(graph)).edges.len() < u32::MAX,
    ensures
        at == dataflow::flow(*old(graph)).nodes.len(),
        dataflow::flow(*final(graph)) == dataflow::flow(*old(graph)).with_mirror(mirror),
{
    let ghost edges = dataflow::flow(*graph).edges;
    let Mirror { node, want } = mirror;
    let copy = operator(graph, node).mirror();
    let at: NodeIndex = add_node(graph, copy);
    let ghost nodes = dataflow::flow(*graph).nodes;
    let ghost moving = moved(edges, node, at, want);
    let ghost mut count: nat = 0;
    assert(dataflow::flow(*graph).edges =~= takeover::without_newest(edges, node, want, 0)
        + moving.take(0));
    // what feeds the mirror also demands the sharding, and is added once the others are moved
    loop
        invariant
            node < at,
            nodes.len() == at + 1,
            edges.len() < u32::MAX,
            moving == moved(edges, node, at, want),
            count <= moving.len(),
            dataflow::flow(*graph).nodes == nodes,
            dataflow::flow(*graph).edges == takeover::without_newest(edges, node, want, count)
                + moving.take(count as int),
            dataflow::flow(*graph).edges.len() == edges.len(),
        ensures
            count == moving.len(),
        decreases moving.len() - count,
    {
        let ghost now = dataflow::flow(*graph).edges;
        let ghost left = takeover::without_newest(edges, node, want, count);
        proof {
            lemma_newest_demand(now, node, want);
            takeover::lemma_moved(edges, node, at, want);
        }
        match find_demand(graph, node, want) {
            Some((target, edge)) => {
                let ghost place = newest_demand(now, node, want)->0;
                proof {
                    if place >= left.len() {
                        assert(now[place] == moving[place - left.len()]);
                    }
                    assert(now[place] == left[place]);
                    if count == moving.len() {
                        takeover::lemma_without_all(edges, node, at, want);
                        assert(left.contains(left[place]));
                        edges.lemma_filter_contains_rev(
                            |edge: EdgeView| !demands(edge, node, want),
                            left[place],
                        );
                    }
                    let next = takeover::lemma_take_next(edges, node, at, want, count);
                    assert(now[next] == left[next]);
                    if next < place {
                        assert(!demands(left[place], node, want));
                    }
                    if place < next {
                        assert(!demands(now[next], node, want));
                    }
                    assert(now.remove(place) =~= left.remove(place) + moving.take(count as int));
                    assert(moving.take((count + 1) as int) =~= moving.take(count as int).push(
                        moving[count as int],
                    ));
                }
                if let Some(weight) = remove_edge(graph, edge) {
                    add_edge(graph, at, target, weight);
                    operator_mut(graph, target).rewire(node, at);
                }
                proof {
                    assert(dataflow::flow(*graph).nodes =~= nodes);
                    count = count + 1;
                    assert(dataflow::flow(*graph).edges =~= takeover::without_newest(
                        edges,
                        node,
                        want,
                        count,
                    ) + moving.take(count as int));
                }
            },
            None => {
                proof {
                    if count < moving.len() {
                        let next = takeover::lemma_take_next(edges, node, at, want, count);
                        assert(now[next] == left[next]);
                        assert(!demands(now[next], node, want));
                    }
                }
                break;
            },
        }
    }
    add_edge(graph, node, at, Sharding::from(want));
    proof {
        takeover::lemma_without_all(edges, node, at, want);
        assert(moving.take(moving.len() as int) =~= moving);
    }
    at
}

/// The new nodes before `end` as nodes to visit, each at the weight of its own index.
pub open spec fn new_visits(added: Set<NodeIndex>, end: int) -> Seq<VisitNode>
    decreases end,
{
    if end <= 0 {
        Seq::empty()
    } else if added.contains((end - 1) as NodeIndex) {
        new_visits(added, end - 1).push(
            VisitNode { logical: ((end - 1) as NodeIndex, 0), index: (end - 1) as NodeIndex },
        )
    } else {
        new_visits(added, end - 1)
    }
}

/// The mirrors as nodes to visit, each half-way between the node that it mirrors and the next. The
/// first mirror has the index `first`.
pub open spec fn mirror_visits(mirrors: Seq<Mirror>, first: nat) -> Seq<VisitNode> {
    Seq::new(
        mirrors.len(),
        |i: int|
            VisitNode {
                logical: (mirrors[i].node, usize::MAX / 2),
                index: (first + i) as NodeIndex,
            },
    )
}

/// The edges from nodes to their mirrors. The first mirror has the index `first`.
pub open spec fn mirror_shuffles(mirrors: Seq<Mirror>, first: nat) -> Seq<(NodeIndex, NodeIndex)> {
    Seq::new(mirrors.len(), |i: int| (mirrors[i].node, (first + i) as NodeIndex))
}

/// The new nodes once `count` mirrors are among them. The first mirror has the index `first`.
pub open spec fn with_new(added: Set<NodeIndex>, first: nat, count: nat) -> Set<NodeIndex> {
    Set::new(|node: NodeIndex| added.contains(node) || first <= node < first + count)
}

/// The materializations once each mirror has the keys that it is for. The first mirror has the
/// index `first`.
pub open spec fn with_copies(
    materializations: Map<NodeIndex, MaterializationView>,
    reshards: Seq<Reshard>,
    mirrors: Seq<Mirror>,
    first: nat,
) -> Map<NodeIndex, MaterializationView> {
    Map::new(
        |node: NodeIndex|
            materializations.contains_key(node) || first <= node < first + mirrors.len(),
        |node: NodeIndex|
            if first <= node < first + mirrors.len() {
                MaterializationView {
                    keys: mirror_keys(reshards, mirrors[node - first]),
                    plan: None,
                }
            } else {
                materializations[node]
            },
    )
}

/// The shardings once each mirror is sharded by what it is for. The first mirror has the index
/// `first`.
pub open spec fn with_mirror_shardings(
    assigned: Map<NodeIndex, Column>,
    mirrors: Seq<Mirror>,
    first: nat,
) -> Map<NodeIndex, Column> {
    Map::new(
        |node: NodeIndex| assigned.contains_key(node) || first <= node < first + mirrors.len(),
        |node: NodeIndex|
            if first <= node < first + mirrors.len() {
                mirrors[node - first].want
            } else {
                assigned[node]
            },
    )
}

/// The new nodes as nodes to visit.
pub fn visits_of_new(graph: &FlowGraph, added: &HashSet<NodeIndex>) -> (visits: VisitHeap)
    ensures
        visits@ == new_visits(added@, dataflow::flow(*graph).nodes.len() as int).to_multiset(),
{
    broadcast use vstd::seq_lib::group_to_multiset_ensures;

    let count: usize = node_count(graph);
    let mut visits = VisitHeap::new();
    let mut node: NodeIndex = 0;
    assert(visits@ =~= new_visits(added@, 0).to_multiset());
    while (node as usize) < count
        invariant
            count == dataflow::flow(*graph).nodes.len(),
            node <= count <= u32::MAX,
            visits@ == new_visits(added@, node as int).to_multiset(),
        decreases count - node,
    {
        if added.contains(&node) {
            proof {
                vstd::seq_lib::to_multiset_build(
                    new_visits(added@, node as int),
                    VisitNode { logical: (node, 0), index: node },
                );
            }
            visits.push(VisitNode { logical: (node, 0), index: node });
        }
        node = node + 1;
    }
    visits
}

/// Shards the mirrors by what they are for.
pub fn shard_mirrors(
    assigned: HashMap<NodeIndex, Column>,
    mirrors: &Vec<Mirror>,
    first: NodeIndex,
) -> (shardings: HashMap<NodeIndex, Column>)
    requires
        first + mirrors@.len() <= u32::MAX,
    ensures
        shardings@ == with_mirror_shardings(assigned@, mirrors@, first as nat),
{
    let mut shardings = assigned;
    assert(shardings@ =~= with_mirror_shardings(assigned@, mirrors@.take(0), first as nat));
    for i in 0..mirrors.len()
        invariant
            first + mirrors@.len() <= u32::MAX,
            shardings@ == with_mirror_shardings(
                assigned@,
                mirrors@.take(i as int),
                first as nat,
            ),
    {
        shardings.insert(first + i as NodeIndex, mirrors[i].want);
        assert(shardings@ =~= with_mirror_shardings(
            assigned@,
            mirrors@.take(i + 1),
            first as nat,
        ));
    }
    assert(mirrors@.take(mirrors@.len() as int) =~= mirrors@);
    shardings
}

/// Adds the mirrors. Each is new, materialized under the keys that it is for, fed by a shuffle, and
/// visited after what it feeds and before what it mirrors.
pub fn add_mirrors(
    graph: &mut FlowGraph,
    added: &mut HashSet<NodeIndex>,
    materializations: &mut HashMap<NodeIndex, Materialization>,
    shuffles: &mut Vec<(NodeIndex, NodeIndex)>,
    visits: &mut VisitHeap,
    reshards: &Vec<Reshard>,
    mirrors: &Vec<Mirror>,
) -> (result: Result<(), CommitError>)
    requires
        forall|i: int|
            0 <= i < mirrors@.len() ==> (#[trigger] mirrors@[i]).node < dataflow::flow(
                *old(graph),
            ).nodes.len(),
    ensures
        ({
            let flow = dataflow::flow(*old(graph));
            let first = flow.nodes.len();
            let count = mirrors@.len();
            let room = first + count <= u32::MAX && flow.edges.len() + count <= u32::MAX;
            match result {
                Ok(_) => {
                    &&& room
                    &&& dataflow::flow(*final(graph)) == flow.with_mirrors(mirrors@)
                    &&& final(added)@ == with_new(old(added)@, first, count)
                    &&& materialization::views(final(materializations)@) == with_copies(
                        materialization::views(old(materializations)@),
                        reshards@,
                        mirrors@,
                        first,
                    )
                    &&& final(shuffles)@ == old(shuffles)@ + mirror_shuffles(mirrors@, first)
                    &&& final(visits)@ == old(visits)@.add(
                        mirror_visits(mirrors@, first).to_multiset(),
                    )
                },
                Err(error) => {
                    &&& error == CommitError::GraphFull
                    &&& !room
                    &&& *final(graph) == *old(graph)
                    &&& *final(added) == *old(added)
                    &&& *final(materializations) == *old(materializations)
                    &&& *final(shuffles) == *old(shuffles)
                    &&& *final(visits) == *old(visits)
                },
            }
        }),
{
    broadcast use vstd::seq_lib::group_to_multiset_ensures;

    let ghost flow = dataflow::flow(*graph);
    let ghost first = flow.nodes.len();
    let ghost views = materialization::views(materializations@);
    let count: usize = mirrors.len();
    let nodes: usize = node_count(graph);
    let edges: usize = edge_count(graph);
    if count > u32::MAX as usize - nodes || count > u32::MAX as usize - edges {
        return Err(CommitError::GraphFull);
    }
    assert(mirrors@.take(0) =~= Seq::<Mirror>::empty());
    assert(added@ =~= with_new(added@, first, 0));
    assert(views =~= with_copies(views, reshards@, mirrors@.take(0), first));
    assert(shuffles@ =~= shuffles@ + mirror_shuffles(mirrors@.take(0), first));
    assert(mirror_visits(mirrors@.take(0), first) =~= Seq::<VisitNode>::empty());
    assert(visits@ =~= visits@.add(mirror_visits(mirrors@.take(0), first).to_multiset()));
    for i in 0..count
        invariant
            flow == dataflow::flow(*old(graph)),
            first == flow.nodes.len(),
            views == materialization::views(old(materializations)@),
            count == mirrors@.len(),
            first + count <= u32::MAX,
            flow.edges.len() + count <= u32::MAX,
            forall|i: int| 0 <= i < mirrors@.len() ==> (#[trigger] mirrors@[i]).node < first,
            dataflow::flow(*graph) == flow.with_mirrors(mirrors@.take(i as int)),
            added@ == with_new(old(added)@, first, i as nat),
            materialization::views(materializations@) == with_copies(
                views,
                reshards@,
                mirrors@.take(i as int),
                first,
            ),
            shuffles@ == old(shuffles)@ + mirror_shuffles(mirrors@.take(i as int), first),
            visits@ == old(visits)@.add(
                mirror_visits(mirrors@.take(i as int), first).to_multiset(),
            ),
    {
        let mirror: Mirror = mirrors[i];
        let ghost before = mirrors@.take(i as int);
        let ghost after = mirrors@.take(i + 1);
        let ghost held = materializations@;
        proof {
            assert(after.drop_last() =~= before);
            lemma_with_mirrors(flow, before);
        }
        let at: NodeIndex = add_mirror(graph, mirror);
        let materialization = Materialization {
            keys: mirror_keys_of(reshards, mirror),
            plan: None,
        };
        materializations.insert(at, materialization);
        shuffles.push((mirror.node, at));
        added.insert(at);
        let visit = VisitNode { logical: (mirror.node, usize::MAX / 2), index: at };
        visits.push(visit);
        proof {
            assert(added@ =~= with_new(old(added)@, first, (i + 1) as nat));
            assert(materialization::views(materializations@) =~= materialization::views(
                held,
            ).insert(at, materialization@));
            assert(materialization::views(materializations@) =~= with_copies(
                views,
                reshards@,
                after,
                first,
            ));
            assert(shuffles@ =~= old(shuffles)@ + mirror_shuffles(after, first));
            assert(mirror_visits(after, first) =~= mirror_visits(before, first).push(visit));
            vstd::seq_lib::to_multiset_build(mirror_visits(before, first), visit);
            assert(visits@ =~= old(visits)@.add(mirror_visits(after, first).to_multiset()));
        }
    }
    assert(mirrors@.take(count as int) =~= mirrors@);
    Ok(())
}

} // verus!
