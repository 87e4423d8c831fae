//! Which edges every plan has, what they require, and where they are shuffled.

use vstd::prelude::*;

use super::shards;
use super::terms;
use crate::assign;
use crate::assign::Requirement;
use crate::dataflow;
use crate::dataflow::{EdgeView, Flow};
use crate::guarantee;
use crate::migration;
use crate::reshard;
use crate::reshard::Mirror;
use crate::sharding::{Column, NodeIndex, Sharding};
use crate::takeover;

verus! {

/// Whether a requirement runs from one node to another.
pub open spec fn runs_between(
    requirements: Seq<Requirement>,
    source: NodeIndex,
    target: NodeIndex,
) -> bool {
    exists|r: int|
        0 <= r < requirements.len() && (#[trigger] requirements[r]).target == source
            && requirements[r].child == target
}

/// Whether a later edge joins the same two nodes.
pub open spec fn is_older(edges: Seq<EdgeView>, e: int) -> bool {
    exists|later: int|
        e < later < edges.len() && dataflow::joins_same(#[trigger] edges[later], edges[e])
}

/// Requirements leave every edge in its place and change the weight of an edge only if it is the
/// newest between nodes that a requirement runs between. What they add are edges between such
/// nodes, where there was none.
pub proof fn lemma_with_requirements(edges: Seq<EdgeView>, requirements: Seq<Requirement>)
    ensures
        ({
            let after = assign::with_requirements(edges, requirements);
            &&& edges.len() <= after.len()
            &&& forall|e: int|
                #![trigger after[e]]
                0 <= e < edges.len() ==> {
                    &&& dataflow::joins_same(after[e], edges[e])
                    &&& !runs_between(requirements, edges[e].source, edges[e].target) || is_older(
                        edges,
                        e,
                    ) ==> after[e] == edges[e]
                }
            &&& forall|e: int|
                #![trigger after[e]]
                edges.len() <= e < after.len() ==> runs_between(
                    requirements,
                    after[e].source,
                    after[e].target,
                )
            &&& forall|e: int, other: int|
                0 <= other < e && edges.len() <= e < after.len() ==> !dataflow::joins_same(
                    #[trigger] after[other],
                    #[trigger] after[e],
                )
        }),
    decreases requirements.len(),
{
    if requirements.len() > 0 {
        let earlier = requirements.drop_last();
        let last = requirements.last();
        let before = assign::with_requirements(edges, earlier);
        let after = assign::with_requirements(edges, requirements);
        lemma_with_requirements(edges, earlier);
        dataflow::lemma_newest(before, last.target, last.child);
        assert(requirements[requirements.len() - 1] == last);
        assert forall|source: NodeIndex, target: NodeIndex| #[trigger]
            runs_between(earlier, source, target) implies runs_between(
            requirements,
            source,
            target,
        ) by {
            let r = choose|r: int|
                0 <= r < earlier.len() && (#[trigger] earlier[r]).target == source
                    && earlier[r].child == target;
            assert(requirements[r] == earlier[r]);
        }
        assert forall|e: int| #![trigger after[e]] 0 <= e < edges.len() implies {
            &&& dataflow::joins_same(after[e], edges[e])
            &&& !runs_between(requirements, edges[e].source, edges[e].target) || is_older(edges, e)
                ==> after[e] == edges[e]
        } by {
            assert(dataflow::joins_same(before[e], edges[e]));
            if dataflow::newest(before, last.target, last.child) == Some(e) {
                assert(requirements[requirements.len() - 1].child == edges[e].target);
                if is_older(edges, e) {
                    let later = choose|later: int|
                        e < later < edges.len() && dataflow::joins_same(
                            #[trigger] edges[later],
                            edges[e],
                        );
                    assert(dataflow::joins_same(before[later], edges[later]));
                }
            } else {
                assert(after[e] == before[e]);
            }
        }
        assert forall|e: int| #![trigger after[e]] edges.len() <= e < after.len() implies
            runs_between(requirements, after[e].source, after[e].target) by {
            if e < before.len() {
                assert(dataflow::joins_same(after[e], before[e]));
                assert(runs_between(earlier, before[e].source, before[e].target));
            } else {
                assert(requirements[requirements.len() - 1].target == after[e].source);
            }
        }
        assert forall|e: int, other: int|
            0 <= other < e && edges.len() <= e < after.len() implies !dataflow::joins_same(
            #[trigger] after[other],
            #[trigger] after[e],
        ) by {
            assert(dataflow::joins_same(after[other], before[other]));
            if e < before.len() {
                assert(dataflow::joins_same(after[e], before[e]));
                assert(!dataflow::joins_same(before[other], before[e]));
            }
        }
    }
}

/// The last requirement between two nodes is kept as the weight of the newest edge between them.
proof fn lemma_last_requirement(edges: Seq<EdgeView>, requirements: Seq<Requirement>, r: int) -> (e:
    int)
    requires
        0 <= r < requirements.len(),
        forall|q: int|
            #![trigger requirements[q]]
            r < q < requirements.len() ==> !(requirements[q].target == requirements[r].target
                && requirements[q].child == requirements[r].child),
    ensures
        ({
            let after = assign::with_requirements(edges, requirements);
            &&& 0 <= e < after.len()
            &&& after[e] == requirements[r].edge()
            &&& forall|later: int|
                #![trigger after[later]]
                e < later < after.len() ==> !dataflow::joins_same(after[later], after[e])
        }),
    decreases requirements.len(),
{
    let earlier = requirements.drop_last();
    let last = requirements.last();
    let before = assign::with_requirements(edges, earlier);
    let after = assign::with_requirements(edges, requirements);
    dataflow::lemma_newest(before, last.target, last.child);
    if r < earlier.len() {
        assert forall|q: int|
            #![trigger earlier[q]]
            r < q < earlier.len() implies !(earlier[q].target == earlier[r].target
            && earlier[q].child == earlier[r].child) by {
            assert(earlier[q] == requirements[q]);
        }
        let e = lemma_last_requirement(edges, earlier, r);
        assert(requirements[requirements.len() - 1] == last);
        assert(after[e] == before[e]);
        assert forall|later: int|
            #![trigger after[later]]
            e < later < after.len() implies !dataflow::joins_same(after[later], after[e]) by {
            if later < before.len() {
                assert(dataflow::joins_same(after[later], before[later]));
            }
        }
        e
    } else {
        match dataflow::newest(before, last.target, last.child) {
            Some(e) => {
                assert forall|later: int|
                    #![trigger after[later]]
                    e < later < after.len() implies !dataflow::joins_same(
                    after[later],
                    after[e],
                ) by {
                    assert(after[later] == before[later]);
                }
                e
            },
            None => before.len() as int,
        }
    }
}

/// What a new operator requires of another that it looks into is kept along the newest edge between
/// them: what its last lookup into the other resolves to.
pub proof fn law_lookup_kept_along_edge(
    flow: Flow,
    added: Set<NodeIndex>,
    assigned: Map<NodeIndex, Column>,
    node: NodeIndex,
    k: int,
)
    requires
        migration::plannable(flow, added),
        added.contains(node),
        0 <= k < flow.nodes[node as int].lookups.len(),
        added.contains(flow.nodes[node as int].lookups[k].0),
        flow.nodes[node as int].lookups[k].0 != node,
        forall|m: int|
            k < m < flow.nodes[node as int].lookups.len() ==> (
            #[trigger] flow.nodes[node as int].lookups[m]).0
                != flow.nodes[node as int].lookups[k].0,
    ensures
        flow.plan(added, assigned) is Ok ==> {
            let (target, column) = flow.nodes[node as int].lookups[k];
            let edges = flow.recorded(added).edges;
            &&& flow.resolve(target, column) is Some
            &&& exists|e: int|
                #![trigger edges[e]]
                {
                    &&& 0 <= e < edges.len()
                    &&& edges[e].source == target
                    &&& edges[e].target == node
                    &&& flow.resolve(target, column) matches Some((base, by)) && edges[e].weight
                        == Sharding::By(base, by)
                    &&& forall|later: int|
                        e < later < edges.len() ==> !((#[trigger] edges[later]).source == target
                            && edges[later].target == node)
                }
        },
{
    if flow.plan(added, assigned) is Ok {
        let end = flow.nodes.len() as int;
        let requirements = flow.requirements(added, end);
        let lookups = flow.nodes[node as int].lookups;
        let edges = flow.recorded(added).edges;
        shards::law_lookup_is_required(flow, added, assigned, node, k);
        let r = shards::lemma_lookup_required(flow, added, end, node, k);
        assert forall|q: int|
            #![trigger requirements[q]]
            r < q < requirements.len() implies !(requirements[q].target == requirements[r].target
            && requirements[q].child == requirements[r].child) by {
            if requirements[q].child == node {
                let m = choose|m: int|
                    #![trigger lookups[m]]
                    k < m < lookups.len() && lookups[m].0 == requirements[q].target;
                assert(lookups[m].0 != lookups[k].0);
            }
        }
        let e = lemma_last_requirement(flow.edges, requirements, r);
        assert forall|later: int| e < later < edges.len() implies !((
        #[trigger] edges[later]).source == lookups[k].0 && edges[later].target == node) by {
            assert(!dataflow::joins_same(edges[later], edges[e]));
        }
        assert(edges[e].source == lookups[k].0);
    }
}

/// Whether a new operator looks into another new operator.
pub open spec fn looks_into(
    flow: Flow,
    added: Set<NodeIndex>,
    by: NodeIndex,
    node: NodeIndex,
) -> bool {
    exists|column: usize| terms::wants(flow, added, by, node, column)
}

/// Remembering what lookups require leaves every edge where it is, and as it is unless it is the
/// newest one from a new operator to a new operator that looks into it. It adds edges from new
/// operators to others that look into them, one where there was none.
pub proof fn law_other_edges_as_they_were(
    flow: Flow,
    added: Set<NodeIndex>,
    assigned: Map<NodeIndex, Column>,
)
    requires
        migration::plannable(flow, added),
    ensures
        flow.plan(added, assigned) is Ok ==> {
            let edges = flow.recorded(added).edges;
            &&& flow.recorded(added).nodes == flow.nodes
            &&& flow.edges.len() <= edges.len()
            &&& forall|e: int|
                #![trigger edges[e]]
                0 <= e < flow.edges.len() ==> {
                    &&& edges[e].source == flow.edges[e].source
                    &&& edges[e].target == flow.edges[e].target
                    &&& !looks_into(flow, added, edges[e].target, edges[e].source) || is_older(
                        flow.edges,
                        e,
                    ) ==> edges[e].weight == flow.edges[e].weight
                }
            &&& forall|e: int|
                #![trigger edges[e]]
                flow.edges.len() <= e < edges.len() ==> looks_into(
                    flow,
                    added,
                    edges[e].target,
                    edges[e].source,
                )
            &&& forall|e: int, other: int|
                0 <= other < e && flow.edges.len() <= e < edges.len() ==> !((
                #[trigger] edges[other]).source == (#[trigger] edges[e]).source
                    && edges[other].target == edges[e].target)
        },
{
    if flow.plan(added, assigned) is Ok {
        let end = flow.nodes.len() as int;
        let requirements = flow.requirements(added, end);
        let edges = flow.recorded(added).edges;
        lemma_with_requirements(flow.edges, requirements);
        assert forall|source: NodeIndex, target: NodeIndex| #[trigger]
            runs_between(requirements, source, target) implies looks_into(
            flow,
            added,
            target,
            source,
        ) by {
            let r = choose|r: int|
                0 <= r < requirements.len() && (#[trigger] requirements[r]).target == source
                    && requirements[r].child == target;
            shards::lemma_required_by_lookup(flow, added, end, r);
            let column = choose|column: usize|
                requirements[r].column == flow.resolve(requirements[r].target, column)->0
                    && #[trigger] terms::wants(
                    flow,
                    added,
                    requirements[r].child,
                    requirements[r].target,
                    column,
                );
            assert(terms::wants(flow, added, target, source, column));
        }
        assert forall|e: int| #![trigger edges[e]] 0 <= e < flow.edges.len() implies {
            &&& edges[e].source == flow.edges[e].source
            &&& edges[e].target == flow.edges[e].target
            &&& !looks_into(flow, added, edges[e].target, edges[e].source) || is_older(
                flow.edges,
                e,
            ) ==> edges[e].weight == flow.edges[e].weight
        } by {
            assert(dataflow::joins_same(edges[e], flow.edges[e]));
        }
        assert forall|e: int, other: int|
            0 <= other < e && flow.edges.len() <= e < edges.len() implies !((
        #[trigger] edges[other]).source == (#[trigger] edges[e]).source && edges[other].target
            == edges[e].target) by {
            assert(!dataflow::joins_same(edges[other], edges[e]));
        }
    }
}

/// An edge that demands the sharding of a mirror is among those that move.
proof fn lemma_moves(
    edges: Seq<EdgeView>,
    node: NodeIndex,
    mirror: NodeIndex,
    want: Column,
    e: int,
)
    requires
        0 <= e < edges.len(),
        reshard::demands(edges[e], node, want),
    ensures
        reshard::moved(edges, node, mirror, want).contains(
            EdgeView { source: mirror, target: edges[e].target, weight: edges[e].weight },
        ),
    decreases edges.len(),
{
    let older = edges.drop_last();
    let moving = reshard::moved(edges, node, mirror, want);
    let rest = reshard::moved(older, node, mirror, want);
    let edge = EdgeView { source: mirror, target: edges[e].target, weight: edges[e].weight };
    if e < older.len() {
        assert(older[e] == edges[e]);
        lemma_moves(older, node, mirror, want, e);
        let k = choose|k: int| 0 <= k < rest.len() && rest[k] == edge;
        if reshard::demands(edges.last(), node, want) {
            assert(moving[k + 1] == edge);
        } else {
            assert(moving[k] == edge);
        }
    } else {
        assert(moving[0] == edge);
    }
}

/// Whether a mirror took an edge over. The first mirror has the index `first`.
pub open spec fn is_taken(
    edges: Seq<EdgeView>,
    mirrors: Seq<Mirror>,
    first: nat,
    edge: EdgeView,
    i: int,
) -> bool {
    &&& 0 <= i < mirrors.len()
    &&& edge.source == first + i
    &&& edge.weight == Sharding::By(mirrors[i].want.0, mirrors[i].want.1)
    &&& edges.contains(
        EdgeView { source: mirrors[i].node, target: edge.target, weight: edge.weight },
    )
}

/// Whether an edge feeds a mirror. The first mirror has the index `first`.
pub open spec fn is_feed(mirrors: Seq<Mirror>, first: nat, edge: EdgeView, i: int) -> bool {
    &&& 0 <= i < mirrors.len()
    &&& edge.source == mirrors[i].node
    &&& edge.target == first + i
    &&& edge.weight == Sharding::By(mirrors[i].want.0, mirrors[i].want.1)
}

/// Whether a mirror took an edge over, or the edge feeds a mirror. The first mirror has the index
/// `first`.
pub open spec fn comes_with_mirrors(
    edges: Seq<EdgeView>,
    mirrors: Seq<Mirror>,
    first: nat,
    edge: EdgeView,
) -> bool {
    ||| exists|i: int| is_taken(edges, mirrors, first, edge, i)
    ||| exists|i: int| is_feed(mirrors, first, edge, i)
}

/// What mirrors take over, and what feeds them.
proof fn lemma_taken_over_edges(
    edges: Seq<EdgeView>,
    mirrors: Seq<Mirror>,
    first: nat,
    edge: EdgeView,
)
    requires
        first + mirrors.len() <= u32::MAX,
    ensures
        takeover::taken_over(edges, mirrors, first).contains(edge) <==> comes_with_mirrors(
            edges,
            mirrors,
            first,
            edge,
        ),
    decreases mirrors.len(),
{
    let all = takeover::taken_over(edges, mirrors, first);
    if mirrors.len() > 0 {
        let earlier = mirrors.drop_last();
        let last = mirrors.len() - 1;
        let Mirror { node, want } = mirrors.last();
        let at = (first + last) as NodeIndex;
        let before = takeover::taken_over(edges, earlier, first);
        let moving = reshard::moved(edges, node, at, want);
        let feed = reshard::feed(node, at, want);
        assert(mirrors[last] == mirrors.last());
        lemma_taken_over_edges(edges, earlier, first, edge);
        takeover::lemma_moved(edges, node, at, want);
        if all.contains(edge) {
            let k = choose|k: int| 0 <= k < all.len() && all[k] == edge;
            if k < before.len() {
                assert(before[k] == edge);
                assert(before.contains(edge));
                if exists|i: int| is_taken(edges, earlier, first, edge, i) {
                    let i = choose|i: int| is_taken(edges, earlier, first, edge, i);
                    assert(earlier[i] == mirrors[i]);
                    assert(is_taken(edges, mirrors, first, edge, i));
                } else {
                    let i = choose|i: int| is_feed(earlier, first, edge, i);
                    assert(earlier[i] == mirrors[i]);
                    assert(is_feed(mirrors, first, edge, i));
                }
            } else if k < before.len() + moving.len() {
                assert(moving[k - before.len()] == edge);
                assert(is_taken(edges, mirrors, first, edge, last));
            } else {
                assert(edge == feed);
                assert(is_feed(mirrors, first, edge, last));
            }
        }
        if comes_with_mirrors(edges, mirrors, first, edge) {
            let i = if exists|i: int| is_taken(edges, mirrors, first, edge, i) {
                choose|i: int| is_taken(edges, mirrors, first, edge, i)
            } else {
                choose|i: int| is_feed(mirrors, first, edge, i)
            };
            if i < last {
                assert(earlier[i] == mirrors[i]);
                assert(is_taken(edges, mirrors, first, edge, i) ==> is_taken(
                    edges,
                    earlier,
                    first,
                    edge,
                    i,
                ));
                assert(is_feed(mirrors, first, edge, i) ==> is_feed(earlier, first, edge, i));
                let k = choose|k: int| 0 <= k < before.len() && before[k] == edge;
                assert(all[k] == edge);
            } else if is_feed(mirrors, first, edge, i) {
                assert(edge == feed);
                assert(all[all.len() - 1] == feed);
            } else {
                let was = EdgeView { source: node, target: edge.target, weight: edge.weight };
                let e = choose|e: int| 0 <= e < edges.len() && edges[e] == was;
                lemma_moves(edges, node, at, want, e);
                let k = choose|k: int| 0 <= k < moving.len() && moving[k] == edge;
                assert(all[before.len() + k] == edge);
            }
        }
    } else {
        assert(!all.contains(edge));
    }
}

/// The edges of a graph with mirrors: those that no mirror takes over, those that mirrors take
/// over, and those that feed mirrors.
pub proof fn lemma_mirrored_edges(
    flow: Flow,
    added: Set<NodeIndex>,
    assigned: Map<NodeIndex, Column>,
    edge: EdgeView,
)
    requires
        flow.wf(),
        flow.has_room(added, assigned),
    ensures
        ({
            let edges = flow.recorded(added).edges;
            let mirrors = flow.new_mirrors(added, assigned);
            let first = flow.nodes.len();
            &&& forall|i: int|
                #![trigger mirrors[i]]
                0 <= i < mirrors.len() ==> mirrors[i].node < first
            &&& mirrors.no_duplicates()
            &&& flow.mirrored(added, assigned).edges.contains(edge) <==> {
                ||| edges.contains(edge) && !takeover::demanded(mirrors, edge)
                ||| comes_with_mirrors(edges, mirrors, first, edge)
            }
        }),
{
    let edges = flow.recorded(added).edges;
    let mirrors = flow.new_mirrors(added, assigned);
    let first = flow.nodes.len();
    let all = flow.mirrored(added, assigned).edges;
    let stay = |edge: EdgeView| !takeover::demanded(mirrors, edge);
    let left = edges.filter(stay);
    let taken = takeover::taken_over(edges, mirrors, first);
    migration::lemma_undecided(flow, added, assigned);
    takeover::lemma_mirrors_take_over(flow.recorded(added), mirrors);
    lemma_taken_over_edges(edges, mirrors, first, edge);
    assert(all == left + taken);
    if all.contains(edge) {
        let k = choose|k: int| 0 <= k < all.len() && all[k] == edge;
        if k < left.len() {
            assert(left[k] == edge);
            assert(left.contains(edge));
            edges.lemma_filter_contains_rev(stay, edge);
            edges.lemma_filter_pred(stay, k);
        } else {
            assert(taken[k - left.len()] == edge);
        }
    }
    if edges.contains(edge) && stay(edge) {
        let k = choose|k: int| 0 <= k < edges.len() && edges[k] == edge;
        edges.lemma_filter_contains(stay, k);
        assert(left.contains(edges[k]));
        let j = choose|j: int| 0 <= j < left.len() && left[j] == edge;
        assert(all[j] == edge);
    }
    if taken.contains(edge) {
        let j = choose|j: int| 0 <= j < taken.len() && taken[j] == edge;
        assert(all[left.len() + j] == edge);
    }
}

/// The edges of a plan: those that no mirror takes over, those that mirrors take over, and those
/// that feed mirrors.
pub proof fn lemma_plan_edges(
    flow: Flow,
    added: Set<NodeIndex>,
    assigned: Map<NodeIndex, Column>,
    edge: EdgeView,
)
    requires
        flow.wf(),
        flow.plan(added, assigned) is Ok,
    ensures
        ({
            let plan = flow.plan(added, assigned)->Ok_0;
            let edges = flow.recorded(added).edges;
            let mirrors = flow.new_mirrors(added, assigned);
            let first = flow.nodes.len();
            &&& first + mirrors.len() == plan.flow.nodes.len() <= u32::MAX
            &&& forall|i: int|
                #![trigger mirrors[i]]
                0 <= i < mirrors.len() ==> mirrors[i].node < first
            &&& mirrors.no_duplicates()
            &&& plan.flow.edges.contains(edge) <==> {
                ||| edges.contains(edge) && !takeover::demanded(mirrors, edge)
                ||| comes_with_mirrors(edges, mirrors, first, edge)
            }
        }),
{
    guarantee::lemma_plan(flow, added, assigned);
    lemma_mirrored_edges(flow, added, assigned, edge);
}

/// Every mirror is fed, along an edge that is shuffled, by the operator that it is a copy of, and
/// the edge requires the sharding of the mirror.
pub proof fn law_mirror_is_fed(
    flow: Flow,
    added: Set<NodeIndex>,
    assigned: Map<NodeIndex, Column>,
    mirror: NodeIndex,
)
    requires
        migration::plannable(flow, added),
    ensures
        flow.plan(added, assigned) matches Ok(plan) ==> {
            flow.nodes.len() <= mirror < plan.flow.nodes.len() ==> exists|node: NodeIndex|
                {
                    &&& node < flow.nodes.len()
                    &&& plan.shardings.contains_key(mirror)
                    &&& #[trigger] terms::has_edge(
                        plan.flow.edges,
                        node,
                        mirror,
                        plan.shardings[mirror],
                    )
                    &&& plan.flow.nodes[mirror as int] == flow.nodes[node as int]
                    &&& plan.shuffles.contains((node, mirror))
                }
        },
{
    if let Ok(plan) = flow.plan(added, assigned) {
        if flow.nodes.len() <= mirror < plan.flow.nodes.len() {
            let mirrors = flow.new_mirrors(added, assigned);
            let first = flow.nodes.len();
            let i = mirror - first;
            let node = mirrors[i].node;
            let edge = reshard::feed(node, mirror, mirrors[i].want);
            lemma_plan_edges(flow, added, assigned, edge);
            guarantee::law_plan_shardings(flow, added, assigned, mirror);
            guarantee::law_operators_kept(flow, added, assigned);
            assert(is_feed(mirrors, first, edge, i));
            assert(terms::has_edge(plan.flow.edges, node, mirror, plan.shardings[mirror]));
            let contested = flow.contested(added, assigned);
            let feeding = reshard::mirror_shuffles(mirrors, first);
            assert(feeding[i] == (node, mirror));
            assert(plan.shuffles[contested.len() + i] == (node, mirror));
        }
    }
}

/// What feeds a mirror: an operator of the graph that it is a copy of, and no other.
pub proof fn law_mirror_is_fed_by_one(
    flow: Flow,
    added: Set<NodeIndex>,
    assigned: Map<NodeIndex, Column>,
    e: int,
)
    requires
        migration::plannable(flow, added),
        flow.edges_within(),
    ensures
        flow.plan(added, assigned) matches Ok(plan) ==> {
            let edges = plan.flow.edges;
            0 <= e < edges.len() && edges[e].target >= flow.nodes.len() ==> {
                let (node, mirror) = (edges[e].source, edges[e].target);
                &&& node < flow.nodes.len()
                &&& mirror < plan.flow.nodes.len()
                &&& edges[e].weight == Sharding::By(
                    plan.shardings[mirror].0,
                    plan.shardings[mirror].1,
                )
                &&& plan.flow.nodes[mirror as int] == flow.nodes[node as int]
                &&& plan.shuffles.contains((node, mirror))
                &&& forall|other: int|
                    0 <= other < edges.len() && (#[trigger] edges[other]).target == mirror
                        ==> edges[other].source == node
            }
        },
{
    if let Ok(plan) = flow.plan(added, assigned) {
        let edges = plan.flow.edges;
        if 0 <= e < edges.len() && edges[e].target >= flow.nodes.len() {
            let mirrors = flow.new_mirrors(added, assigned);
            let first = flow.nodes.len();
            let mirror = edges[e].target;
            let i = mirror - first;
            lemma_feeds(flow, added, assigned, edges[e]);
            lemma_plan_edges(flow, added, assigned, edges[e]);
            guarantee::law_plan_shardings(flow, added, assigned, mirror);
            guarantee::law_operators_kept(flow, added, assigned);
            assert(mirrors[i].node == edges[e].source);
            let contested = flow.contested(added, assigned);
            let feeding = reshard::mirror_shuffles(mirrors, first);
            assert(feeding[i] == (edges[e].source, mirror));
            assert(plan.shuffles[contested.len() + i] == (edges[e].source, mirror));
            assert forall|other: int|
                0 <= other < edges.len() && (#[trigger] edges[other]).target
                    == mirror implies edges[other].source == edges[e].source by {
                lemma_feeds(flow, added, assigned, edges[other]);
            }
        }
    }
}

/// An edge of a plan that reaches a mirror feeds it.
pub proof fn lemma_feeds(
    flow: Flow,
    added: Set<NodeIndex>,
    assigned: Map<NodeIndex, Column>,
    edge: EdgeView,
)
    requires
        migration::plannable(flow, added),
        flow.edges_within(),
        flow.plan(added, assigned) is Ok,
        flow.plan(added, assigned)->Ok_0.flow.edges.contains(edge),
        edge.target >= flow.nodes.len(),
    ensures
        is_feed(
            flow.new_mirrors(added, assigned),
            flow.nodes.len(),
            edge,
            edge.target - flow.nodes.len(),
        ),
{
    let edges = flow.recorded(added).edges;
    let mirrors = flow.new_mirrors(added, assigned);
    let first = flow.nodes.len();
    lemma_plan_edges(flow, added, assigned, edge);
    lemma_recorded_within(flow, added);
    assert(!edges.contains(edge));
    if exists|i: int| is_taken(edges, mirrors, first, edge, i) {
        let i = choose|i: int| is_taken(edges, mirrors, first, edge, i);
        let was = EdgeView { source: mirrors[i].node, target: edge.target, weight: edge.weight };
        assert(edges.contains(was));
    }
}

/// Edges that hold requirements join nodes of the graph, as the others do.
pub proof fn lemma_recorded_within(flow: Flow, added: Set<NodeIndex>)
    requires
        migration::plannable(flow, added),
        flow.edges_within(),
        flow.nodes.len() <= u32::MAX,
    ensures
        forall|edge: EdgeView| #[trigger]
            flow.recorded(added).edges.contains(edge) ==> edge.source < flow.nodes.len()
                && edge.target < flow.nodes.len(),
{
    let end = flow.nodes.len() as int;
    let edges = flow.recorded(added).edges;
    let requirements = flow.requirements(added, end);
    migration::lemma_requirements_within(flow, added, end);
    lemma_with_requirements(flow.edges, requirements);
    assert forall|edge: EdgeView| #[trigger] edges.contains(edge) implies edge.source
        < flow.nodes.len() && edge.target < flow.nodes.len() by {
        let e = choose|e: int| 0 <= e < edges.len() && edges[e] == edge;
        if e < flow.edges.len() {
            assert(dataflow::joins_same(edges[e], flow.edges[e]));
        } else {
            assert(runs_between(requirements, edges[e].source, edges[e].target));
            let r = choose|r: int|
                0 <= r < requirements.len() && (#[trigger] requirements[r]).target
                    == edges[e].source && requirements[r].child == edges[e].target;
            assert(requirements[r].target < flow.nodes.len());
        }
    }
}

/// A node is mirrored where a mirror of it is needed.
pub proof fn lemma_is_mirror(
    flow: Flow,
    added: Set<NodeIndex>,
    assigned: Map<NodeIndex, Column>,
    mirror: NodeIndex,
    node: NodeIndex,
)
    requires
        migration::plannable(flow, added),
        flow.edges_within(),
        flow.plan(added, assigned) is Ok,
    ensures
        ({
            let plan = flow.plan(added, assigned)->Ok_0;
            let mirrors = flow.new_mirrors(added, assigned);
            let first = flow.nodes.len();
            terms::is_mirror(flow, plan, mirror, node) <==> first <= mirror < first + mirrors.len()
                && mirrors[mirror - first].node == node
        }),
{
    let plan = flow.plan(added, assigned)->Ok_0;
    let mirrors = flow.new_mirrors(added, assigned);
    let first = flow.nodes.len();
    guarantee::lemma_plan(flow, added, assigned);
    if terms::is_mirror(flow, plan, mirror, node) {
        let e = choose|e: int|
            0 <= e < plan.flow.edges.len() && (#[trigger] plan.flow.edges[e]).source == node
                && plan.flow.edges[e].target == mirror;
        lemma_feeds(flow, added, assigned, plan.flow.edges[e]);
    }
    if first <= mirror < first + mirrors.len() && mirrors[mirror - first].node == node {
        let edge = reshard::feed(node, mirror, mirrors[mirror - first].want);
        lemma_plan_edges(flow, added, assigned, edge);
        assert(is_feed(mirrors, first, edge, mirror - first));
        let e = choose|e: int| 0 <= e < plan.flow.edges.len() && plan.flow.edges[e] == edge;
        assert(plan.flow.edges[e].source == node);
    }
}

/// An edge that requires of an operator the sharding of one of its mirrors leaves the mirror in its
/// place.
pub proof fn law_edge_moves_to_mirror(
    flow: Flow,
    added: Set<NodeIndex>,
    assigned: Map<NodeIndex, Column>,
    edge: EdgeView,
    mirror: NodeIndex,
)
    requires
        migration::plannable(flow, added),
        flow.edges_within(),
        flow.recorded(added).edges.contains(edge),
    ensures
        flow.plan(added, assigned) matches Ok(plan) ==> {
            terms::is_mirror(flow, plan, mirror, edge.source) && edge.weight == Sharding::By(
                plan.shardings[mirror].0,
                plan.shardings[mirror].1,
            ) ==> {
                &&& !plan.flow.edges.contains(edge)
                &&& plan.flow.edges.contains(
                    EdgeView { source: mirror, target: edge.target, weight: edge.weight },
                )
            }
        },
{
    if let Ok(plan) = flow.plan(added, assigned) {
        if terms::is_mirror(flow, plan, mirror, edge.source) && edge.weight == Sharding::By(
            plan.shardings[mirror].0,
            plan.shardings[mirror].1,
        ) {
            let edges = flow.recorded(added).edges;
            let mirrors = flow.new_mirrors(added, assigned);
            let first = flow.nodes.len();
            let i = mirror - first;
            let moved = EdgeView { source: mirror, target: edge.target, weight: edge.weight };
            lemma_is_mirror(flow, added, assigned, mirror, edge.source);
            guarantee::law_plan_shardings(flow, added, assigned, mirror);
            lemma_plan_edges(flow, added, assigned, edge);
            lemma_plan_edges(flow, added, assigned, moved);
            lemma_recorded_within(flow, added);
            assert(reshard::demands(edge, mirrors[i].node, mirrors[i].want));
            assert(is_taken(edges, mirrors, first, moved, i));
        }
    }
}

/// An edge that requires of an operator the sharding of none of its mirrors stays.
pub proof fn law_edge_stays(
    flow: Flow,
    added: Set<NodeIndex>,
    assigned: Map<NodeIndex, Column>,
    edge: EdgeView,
)
    requires
        migration::plannable(flow, added),
        flow.edges_within(),
        flow.recorded(added).edges.contains(edge),
    ensures
        flow.plan(added, assigned) matches Ok(plan) ==> {
            plan.flow.edges.contains(edge) || exists|mirror: NodeIndex| #[trigger]
                terms::is_mirror(flow, plan, mirror, edge.source) && edge.weight == Sharding::By(
                    plan.shardings[mirror].0,
                    plan.shardings[mirror].1,
                )
        },
{
    if let Ok(plan) = flow.plan(added, assigned) {
        let mirrors = flow.new_mirrors(added, assigned);
        let first = flow.nodes.len();
        lemma_plan_edges(flow, added, assigned, edge);
        if takeover::demanded(mirrors, edge) {
            let i = choose|i: int|
                0 <= i < mirrors.len() && reshard::demands(
                    edge,
                    (#[trigger] mirrors[i]).node,
                    mirrors[i].want,
                );
            let mirror = (first + i) as NodeIndex;
            lemma_is_mirror(flow, added, assigned, mirror, edge.source);
            guarantee::law_plan_shardings(flow, added, assigned, mirror);
            assert(terms::is_mirror(flow, plan, mirror, edge.source));
        }
    }
}

/// An edge of a plan between operators of the graph was there, and one that leaves a mirror left
/// the operator that is mirrored and required the sharding of the mirror. There are as many edges
/// more as there are mirrors.
pub proof fn law_edge_was_there(
    flow: Flow,
    added: Set<NodeIndex>,
    assigned: Map<NodeIndex, Column>,
    e: int,
)
    requires
        migration::plannable(flow, added),
        flow.edges_within(),
    ensures
        flow.plan(added, assigned) matches Ok(plan) ==> {
            let before = flow.recorded(added).edges;
            let edges = plan.flow.edges;
            &&& edges.len() - before.len() == plan.flow.nodes.len() - flow.nodes.len()
            &&& 0 <= e < edges.len() && edges[e].target < flow.nodes.len() ==> {
                ||| edges[e].source < flow.nodes.len() && before.contains(edges[e])
                ||| exists|node: NodeIndex|
                    {
                        &&& #[trigger] terms::is_mirror(flow, plan, edges[e].source, node)
                        &&& edges[e].weight == Sharding::By(
                            plan.shardings[edges[e].source].0,
                            plan.shardings[edges[e].source].1,
                        )
                        &&& before.contains(
                            EdgeView {
                                source: node,
                                target: edges[e].target,
                                weight: edges[e].weight,
                            },
                        )
                    }
            }
        },
{
    if let Ok(plan) = flow.plan(added, assigned) {
        let before = flow.recorded(added).edges;
        let edges = plan.flow.edges;
        let mirrors = flow.new_mirrors(added, assigned);
        let first = flow.nodes.len();
        reshard::lemma_with_mirrors(flow.recorded(added), mirrors);
        if 0 <= e < edges.len() && edges[e].target < flow.nodes.len() {
            let edge = edges[e];
            lemma_plan_edges(flow, added, assigned, edge);
            lemma_recorded_within(flow, added);
            assert(edges.contains(edge));
            if !before.contains(edge) || takeover::demanded(mirrors, edge) {
                let i = choose|i: int| is_taken(before, mirrors, first, edge, i);
                let node = mirrors[i].node;
                lemma_is_mirror(flow, added, assigned, edge.source, node);
                guarantee::law_plan_shardings(flow, added, assigned, edge.source);
                assert(terms::is_mirror(flow, plan, edge.source, node));
            }
        }
    }
}

/// What is among the mismatched edges of a node leaves the node and does not require the sharding.
proof fn lemma_mismatched_edge(
    edges: Seq<EdgeView>,
    node: NodeIndex,
    column: Column,
    edge: (NodeIndex, NodeIndex),
) -> (e: int)
    requires
        assign::mismatched(edges, node, column).contains(edge),
    ensures
        edge.0 == node,
        0 <= e < edges.len(),
        edges[e].source == node,
        edges[e].target == edge.1,
        edges[e].weight != Sharding::By(column.0, column.1),
{
    let out = dataflow::out_edges(edges, node);
    let places = dataflow::out_places(edges, node);
    let f = |edge: (NodeIndex, Sharding)|
        if edge.1 == Sharding::By(column.0, column.1) {
            None
        } else {
            Some((node, edge.0))
        };
    assert(assign::mismatched(edges, node, column) == out.filter_map(f));
    out.lemma_filter_map_contains(f, edge);
    let item = choose|item: (NodeIndex, Sharding)|
        #![trigger out.contains(item)]
        out.contains(item) && f(item) == Some(edge);
    let k = choose|k: int| 0 <= k < out.len() && out[k] == item;
    dataflow::lemma_out_places(edges, node);
    assert(out[k] == (edges[places[k]].target, edges[places[k]].weight));
    places[k]
}

/// What is shuffled is a mismatched edge of a node of which different shardings are required.
proof fn lemma_shuffled_edge(
    edges: Seq<EdgeView>,
    requirements: Seq<Requirement>,
    assigned: Map<NodeIndex, Column>,
    end: int,
    edge: (NodeIndex, NodeIndex),
)
    requires
        end <= u32::MAX,
        assign::shuffled(edges, requirements, assigned, end).contains(edge),
    ensures
        edge.0 < end,
        assign::conflicts(
            assign::requested(requirements, edge.0),
            assign::chosen(requirements, assigned, edge.0),
        ),
        assign::mismatched(
            edges,
            edge.0,
            assign::chosen(requirements, assigned, edge.0),
        ).contains(edge),
    decreases end,
{
    let all = assign::shuffled(edges, requirements, assigned, end);
    let k = choose|k: int| 0 <= k < all.len() && all[k] == edge;
    if end > 0 {
        let before = assign::shuffled(edges, requirements, assigned, end - 1);
        let node = (end - 1) as NodeIndex;
        let own = assign::mismatched(edges, node, assign::chosen(requirements, assigned, node));
        if k < before.len() {
            assert(before[k] == edge);
            lemma_shuffled_edge(edges, requirements, assigned, end - 1, edge);
        } else {
            assert(own[k - before.len()] == edge);
            assert(own.contains(edge));
            let e = lemma_mismatched_edge(
                edges,
                node,
                assign::chosen(requirements, assigned, node),
                edge,
            );
        }
    }
}

/// Whether different shardings are asked of an operator: it is looked up by a column that does not
/// resolve to what a plan shards it by.
pub open spec fn is_contested(
    flow: Flow,
    added: Set<NodeIndex>,
    plan: migration::MigrationPlanView,
    node: NodeIndex,
) -> bool {
    exists|column: usize| #[trigger]
        terms::is_wanted(flow, added, node, column) && flow.resolve(node, column) != Some(
            plan.shardings[node],
        )
}

/// Whether an edge does not require what a plan shards its source by.
pub open spec fn has_mismatch(
    edges: Seq<EdgeView>,
    plan: migration::MigrationPlanView,
    source: NodeIndex,
    target: NodeIndex,
) -> bool {
    exists|e: int|
        {
            &&& 0 <= e < edges.len()
            &&& (#[trigger] edges[e]).source == source
            &&& edges[e].target == target
            &&& edges[e].weight != Sharding::By(plan.shardings[source].0, plan.shardings[source].1)
        }
}

/// What is shuffled: the edges that feed mirrors, and of the operators that others look up by a
/// column that does not fit their sharding the edges that do not require their sharding. Nothing
/// else is.
pub proof fn law_shuffles(
    flow: Flow,
    added: Set<NodeIndex>,
    assigned: Map<NodeIndex, Column>,
    source: NodeIndex,
    target: NodeIndex,
)
    requires
        migration::plannable(flow, added),
        flow.edges_within(),
    ensures
        flow.plan(added, assigned) matches Ok(plan) ==> {
            plan.shuffles.contains((source, target)) <==> {
                ||| terms::is_mirror(flow, plan, target, source)
                ||| is_contested(flow, added, plan, source) && has_mismatch(
                    flow.recorded(added).edges,
                    plan,
                    source,
                    target,
                )
            }
        },
{
    if let Ok(plan) = flow.plan(added, assigned) {
        let end = flow.nodes.len() as int;
        let first = flow.nodes.len();
        let edges = flow.recorded(added).edges;
        let requirements = flow.requirements(added, end);
        let required = flow.required(added, assigned);
        let contested = flow.contested(added, assigned);
        let mirrors = flow.new_mirrors(added, assigned);
        let feeding = reshard::mirror_shuffles(mirrors, first);
        let columns = assign::requested(requirements, source);
        let column = assign::chosen(requirements, required, source);
        guarantee::lemma_plan(flow, added, assigned);
        lemma_is_mirror(flow, added, assigned, target, source);
        shards::lemma_requested_by_lookups(flow, added, source);
        if columns.len() > 0 {
            assert(shards::is_required(flow, added, source, columns[0]));
            let by_column = choose|by_column: usize|
                flow.resolve(source, by_column)->0 == columns[0] && #[trigger] terms::is_wanted(
                    flow,
                    added,
                    source,
                    by_column,
                );
            let by = choose|by: NodeIndex| terms::wants(flow, added, by, source, by_column);
            assert(added.contains(source));
            guarantee::law_plan_shardings(flow, added, assigned, source);
            assert(plan.shardings[source] == column);
        }
        if plan.shuffles.contains((source, target)) {
            let k = choose|k: int|
                0 <= k < plan.shuffles.len() && plan.shuffles[k] == (source, target);
            if k < contested.len() {
                assert(contested[k] == (source, target));
                assert(contested.contains((source, target)));
                lemma_shuffled_edge(edges, requirements, required, end, (source, target));
                let e = lemma_mismatched_edge(edges, source, column, (source, target));
                let i = choose|i: int| 0 <= i < columns.len() && #[trigger] columns[i] != column;
                assert(shards::is_required(flow, added, source, columns[i]));
                let by_column = choose|by_column: usize|
                    flow.resolve(source, by_column)->0 == columns[i]
                        && #[trigger] terms::is_wanted(flow, added, source, by_column);
                shards::lemma_wanted_resolves(flow, added, assigned, source, by_column);
                assert(is_contested(flow, added, plan, source));
                assert(edges[e].source == source);
                assert(has_mismatch(edges, plan, source, target));
            } else {
                assert(feeding[k - contested.len()] == (source, target));
            }
        }
        if terms::is_mirror(flow, plan, target, source) {
            assert(feeding[target - first] == (source, target));
            assert(plan.shuffles[contested.len() + (target - first)] == (source, target));
        }
        if is_contested(flow, added, plan, source) && has_mismatch(edges, plan, source, target) {
            let by_column = choose|by_column: usize| #[trigger]
                terms::is_wanted(flow, added, source, by_column) && flow.resolve(source, by_column)
                    != Some(plan.shardings[source]);
            shards::lemma_wanted_resolves(flow, added, assigned, source, by_column);
            let want = flow.resolve(source, by_column)->0;
            assert(columns.contains(want));
            let i = choose|i: int| 0 <= i < columns.len() && columns[i] == want;
            assert(columns[i] != column);
            assert(assign::conflicts(columns, column));
            let e = choose|e: int|
                {
                    &&& 0 <= e < edges.len()
                    &&& (#[trigger] edges[e]).source == source
                    &&& edges[e].target == target
                    &&& edges[e].weight != Sharding::By(
                        plan.shardings[source].0,
                        plan.shardings[source].1,
                    )
                };
            assign::lemma_mismatched(edges, e, column);
            assign::lemma_shuffled(edges, requirements, required, end, source);
            let own = assign::mismatched(edges, source, column);
            let j = choose|j: int| 0 <= j < own.len() && own[j] == (source, target);
            assert(contested.contains(own[j]));
            let k = choose|k: int| 0 <= k < contested.len() && contested[k] == (source, target);
            assert(plan.shuffles[k] == (source, target));
        }
    }
}

/// Of edges that each join two nodes once, no two mismatched ones of a node are the same.
proof fn lemma_mismatched_once(edges: Seq<EdgeView>, node: NodeIndex, column: Column)
    requires
        dataflow::single(edges),
    ensures
        assign::mismatched(edges, node, column).no_duplicates(),
{
    let out = dataflow::out_edges(edges, node);
    let places = dataflow::out_places(edges, node);
    let f = |edge: (NodeIndex, Sharding)|
        if edge.1 == Sharding::By(column.0, column.1) {
            None
        } else {
            Some((node, edge.0))
        };
    dataflow::lemma_out_places(edges, node);
    assert forall|i: int, j: int| 0 <= i < j < out.len() implies (#[trigger] out[i]).0 != (
    #[trigger] out[j]).0 by {
        assert(places[i] > places[j]);
        assert(!dataflow::joins_same(edges[places[j]], edges[places[i]]));
    }
    lemma_images_differ(out, f, out.len() as int);
    assert(out.take(out.len() as int) =~= out);
    assert(assign::mismatched(edges, node, column) == out.filter_map(f));
}

/// Targets that differ are mapped to edges that differ.
proof fn lemma_images_differ(
    out: Seq<(NodeIndex, Sharding)>,
    f: spec_fn((NodeIndex, Sharding)) -> Option<(NodeIndex, NodeIndex)>,
    end: int,
)
    requires
        0 <= end <= out.len(),
        forall|i: int, j: int|
            0 <= i < j < out.len() ==> (#[trigger] out[i]).0 != (#[trigger] out[j]).0,
        forall|edge: (NodeIndex, Sharding)|
            (#[trigger] f(edge)) matches Some((_, target)) ==> target == edge.0,
    ensures
        out.take(end).filter_map(f).no_duplicates(),
    decreases end,
{
    if end > 0 {
        lemma_images_differ(out, f, end - 1);
        out.lemma_filter_map_take_succ(f, end - 1);
        let before = out.take(end - 1).filter_map(f);
        let all = out.take(end).filter_map(f);
        if f(out[end - 1]) is Some {
            assert forall|i: int, j: int|
                0 <= i < all.len() && 0 <= j < all.len() && i != j implies all[i] != all[j] by {
                let low = if i < j {
                    i
                } else {
                    j
                };
                let high = if i < j {
                    j
                } else {
                    i
                };
                assert(all[low] == before[low]);
                if high < before.len() {
                    assert(all[high] == before[high]);
                } else {
                    let part = out.take(end - 1);
                    assert(part.filter_map(f).contains(before[low]));
                    part.lemma_filter_map_contains(f, before[low]);
                    let item = choose|item: (NodeIndex, Sharding)|
                        #![trigger part.contains(item)]
                        part.contains(item) && f(item) == Some(before[low]);
                    let k = choose|k: int| 0 <= k < part.len() && part[k] == item;
                    assert(out[k] == item);
                    assert(out[k].0 != out[end - 1].0);
                }
            }
        } else {
            assert(all =~= before);
        }
    } else {
        assert(out.take(0).filter_map(f) =~= Seq::empty());
    }
}

/// Of edges that each join two nodes once, no two that are shuffled are the same.
proof fn lemma_shuffled_once(
    edges: Seq<EdgeView>,
    requirements: Seq<Requirement>,
    assigned: Map<NodeIndex, Column>,
    end: int,
)
    requires
        end <= u32::MAX,
        dataflow::single(edges),
    ensures
        assign::shuffled(edges, requirements, assigned, end).no_duplicates(),
    decreases end,
{
    if end > 0 {
        let before = assign::shuffled(edges, requirements, assigned, end - 1);
        let all = assign::shuffled(edges, requirements, assigned, end);
        let node = (end - 1) as NodeIndex;
        let column = assign::chosen(requirements, assigned, node);
        let own = assign::mismatched(edges, node, column);
        lemma_shuffled_once(edges, requirements, assigned, end - 1);
        lemma_mismatched_once(edges, node, column);
        if assign::conflicts(assign::requested(requirements, node), column) {
            assert forall|i: int, j: int|
                0 <= i < before.len() <= j < all.len() implies #[trigger] all[i]
                != #[trigger] all[j] by {
                assert(all[i] == before[i]);
                assert(before.contains(before[i]));
                lemma_shuffled_edge(edges, requirements, assigned, end - 1, before[i]);
                assert(all[j] == own[j - before.len()]);
                assert(own.contains(own[j - before.len()]));
                let e = lemma_mismatched_edge(edges, node, column, own[j - before.len()]);
            }
            assert forall|i: int, j: int|
                0 <= i < all.len() && 0 <= j < all.len() && i != j implies all[i] != all[j] by {
                if i < before.len() && j < before.len() {
                    assert(all[i] == before[i] && all[j] == before[j]);
                } else if i >= before.len() && j >= before.len() {
                    assert(all[i] == own[i - before.len()]);
                    assert(all[j] == own[j - before.len()]);
                } else if i < before.len() {
                    assert(all[i] != all[j]);
                } else {
                    assert(all[j] != all[i]);
                }
            }
        }
    }
}

/// Nothing is shuffled twice, where no two edges join the same two operators.
pub proof fn law_shuffled_once(
    flow: Flow,
    added: Set<NodeIndex>,
    assigned: Map<NodeIndex, Column>,
)
    requires
        migration::plannable(flow, added),
        flow.edges_within(),
        flow.edges_single(),
    ensures
        flow.plan(added, assigned) matches Ok(plan) ==> plan.shuffles.no_duplicates(),
{
    if let Ok(plan) = flow.plan(added, assigned) {
        let end = flow.nodes.len() as int;
        let first = flow.nodes.len();
        let edges = flow.recorded(added).edges;
        let requirements = flow.requirements(added, end);
        let required = flow.required(added, assigned);
        let contested = flow.contested(added, assigned);
        let mirrors = flow.new_mirrors(added, assigned);
        let feeding = reshard::mirror_shuffles(mirrors, first);
        guarantee::lemma_plan(flow, added, assigned);
        migration::lemma_requirements_within(flow, added, end);
        takeover::lemma_with_requirements_single(flow.edges, requirements, first);
        lemma_shuffled_once(edges, requirements, required, end);
        lemma_recorded_within(flow, added);
        assert forall|i: int, j: int|
            0 <= i < contested.len() <= j < plan.shuffles.len() implies #[trigger] plan.shuffles[i]
            != #[trigger] plan.shuffles[j] by {
            let edge = contested[i];
            assert(plan.shuffles[i] == edge);
            assert(contested.contains(edge));
            lemma_shuffled_edge(edges, requirements, required, end, edge);
            let e = lemma_mismatched_edge(
                edges,
                edge.0,
                assign::chosen(requirements, required, edge.0),
                edge,
            );
            assert(edges.contains(edges[e]));
            assert(plan.shuffles[j] == feeding[j - contested.len()]);
        }
        assert forall|i: int, j: int|
            0 <= i < plan.shuffles.len() && 0 <= j < plan.shuffles.len() && i
                != j implies plan.shuffles[i] != plan.shuffles[j] by {
            if i < contested.len() && j < contested.len() {
                assert(plan.shuffles[i] == contested[i] && plan.shuffles[j] == contested[j]);
            } else if i >= contested.len() && j >= contested.len() {
                assert(plan.shuffles[i] == feeding[i - contested.len()]);
                assert(plan.shuffles[j] == feeding[j - contested.len()]);
            } else if i < contested.len() {
                assert(plan.shuffles[i] != plan.shuffles[j]);
            } else {
                assert(plan.shuffles[j] != plan.shuffles[i]);
            }
        }
    }
}

} // verus!
