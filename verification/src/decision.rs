//! What holds of the decisions about how materialized state is kept.

use vstd::prelude::*;

use crate::ancestry;
use crate::dataflow::{EdgeView, Flow};
use crate::materialization;
use crate::materialization::MaterializationView;
use crate::order;
use crate::replay;
use crate::reshard::Mirror;
use crate::sharding::NodeIndex;
use crate::visit;
use crate::visit::VisitNode;

verus! {

/// Whether all materialized state above full state is full.
pub open spec fn full_upward(
    edges: Seq<EdgeView>,
    materializations: Map<NodeIndex, MaterializationView>,
) -> bool {
    forall|node: NodeIndex, ancestor: NodeIndex|
        replay::full(materializations, node) && #[trigger] ancestry::above(edges, node).contains(
            ancestor,
        ) && materializations.contains_key(ancestor) ==> replay::full(materializations, ancestor)
}

/// What is above a node is above whatever the node is above.
proof fn lemma_leads_on(
    edges: Seq<EdgeView>,
    from: NodeIndex,
    by: NodeIndex,
    to: NodeIndex,
    steps: nat,
    further: nat,
)
    requires
        ancestry::leads(edges, from, by, steps),
        ancestry::leads(edges, by, to, further),
    ensures
        ancestry::leads(edges, from, to, steps + further),
    decreases steps,
{
    if steps > 0 {
        let i = choose|i: int|
            0 <= i < edges.len() && (#[trigger] edges[i]).source == from && ancestry::leads(
                edges,
                edges[i].target,
                by,
                (steps - 1) as nat,
            );
        lemma_leads_on(edges, edges[i].target, by, to, (steps - 1) as nat, further);
        assert((steps - 1) as nat + further == (steps + further - 1) as nat);
    }
}

/// Deciding how the state at a node is kept leaves all materialized state above full state full.
proof fn lemma_decided_full_upward(
    flow: Flow,
    added: Set<NodeIndex>,
    materializations: Map<NodeIndex, MaterializationView>,
    node: NodeIndex,
)
    requires
        full_upward(flow.edges, materializations),
    ensures
        flow.decided(added, materializations, node) matches Ok(after) ==> full_upward(
            flow.edges,
            after,
        ),
{
    if let Ok(after) = flow.decided(added, materializations, node) {
        let upward = ancestry::above(flow.edges, node);
        assert forall|lower: NodeIndex, ancestor: NodeIndex|
            replay::full(after, lower) && #[trigger] ancestry::above(flow.edges, lower).contains(
                ancestor,
            ) && after.contains_key(ancestor) implies replay::full(after, ancestor) by {
            if replay::full(materializations, lower) {
                assert(replay::full(materializations, ancestor));
            } else {
                assert(upward.contains(lower));
                let steps = choose|steps: nat|
                    ancestry::leads(flow.edges, ancestor, lower, steps);
                let further = choose|further: nat|
                    ancestry::leads(flow.edges, lower, node, further);
                lemma_leads_on(flow.edges, ancestor, lower, node, steps, further);
                assert(upward.contains(ancestor));
            }
        }
    }
}

/// No partial materialization is above a full one.
pub proof fn law_no_partial_above_full(
    flow: Flow,
    added: Set<NodeIndex>,
    materializations: Map<NodeIndex, MaterializationView>,
    order: Seq<VisitNode>,
)
    requires
        full_upward(flow.edges, materializations),
    ensures
        flow.planned(added, materializations, order) matches Ok(after) ==> full_upward(
            flow.edges,
            after,
        ),
    decreases order.len(),
{
    if order.len() > 0 {
        law_no_partial_above_full(flow, added, materializations, order.drop_last());
        if let Ok(before) = flow.planned(added, materializations, order.drop_last()) {
            lemma_decided_full_upward(flow, added, before, order.last().index);
        }
    }
}

/// Materializations come and go by no decision, and neither do their keys. State that is full stays
/// so, and what is decided stays decided.
pub open spec fn decided_further(
    before: Map<NodeIndex, MaterializationView>,
    after: Map<NodeIndex, MaterializationView>,
) -> bool {
    &&& after.dom() == before.dom()
    &&& forall|node: NodeIndex|
        before.contains_key(node) ==> #[trigger] after[node].keys == before[node].keys
    &&& forall|node: NodeIndex|
        before.contains_key(node) && before[node].plan is Some ==> (
        #[trigger] after[node]).plan is Some
    &&& forall|node: NodeIndex| #[trigger] replay::full(before, node) ==> replay::full(after, node)
}

/// A decision takes nothing back.
pub proof fn lemma_decided_further(
    flow: Flow,
    added: Set<NodeIndex>,
    materializations: Map<NodeIndex, MaterializationView>,
    node: NodeIndex,
)
    ensures
        flow.decided(added, materializations, node) matches Ok(after) ==> {
            &&& decided_further(materializations, after)
            &&& after.contains_key(node) && !after[node].keys.is_empty()
                ==> after[node].plan is Some
        },
{
    if let Ok(after) = flow.decided(added, materializations, node) {
        assert(after.dom() =~= materializations.dom());
        ancestry::lemma_above_self(flow.edges, node);
    }
}

/// Of every node that is visited it is decided how its state is kept, if it has a key, and no
/// decision is taken back.
pub proof fn law_all_decided(
    flow: Flow,
    added: Set<NodeIndex>,
    materializations: Map<NodeIndex, MaterializationView>,
    order: Seq<VisitNode>,
)
    ensures
        flow.planned(added, materializations, order) matches Ok(after) ==> {
            &&& decided_further(materializations, after)
            &&& forall|i: int|
                #![trigger order[i]]
                0 <= i < order.len() && after.contains_key(order[i].index)
                    && !after[order[i].index].keys.is_empty() ==> after[order[i].index].plan is Some
        },
    decreases order.len(),
{
    if order.len() > 0 {
        let earlier = order.drop_last();
        let node = order.last().index;
        law_all_decided(flow, added, materializations, earlier);
        if let Ok(before) = flow.planned(added, materializations, earlier) {
            lemma_decided_further(flow, added, before, node);
            if let Ok(after) = flow.decided(added, before, node) {
                assert forall|i: int|
                    #![trigger order[i]]
                    0 <= i < order.len() && after.contains_key(order[i].index)
                        && !after[order[i].index].keys.is_empty() implies after[order[i].index].plan
                    is Some by {
                    if i < earlier.len() {
                        assert(earlier[i] == order[i]);
                        assert(before[order[i].index].keys == after[order[i].index].keys);
                    }
                }
                assert forall|other: NodeIndex|
                    materializations.contains_key(other) implies #[trigger] after[other].keys
                    == materializations[other].keys by {
                    assert(before[other].keys == materializations[other].keys);
                }
                assert forall|other: NodeIndex|
                    materializations.contains_key(other)
                        && materializations[other].plan is Some implies (
                #[trigger] after[other]).plan is Some by {
                    assert(before[other].plan is Some);
                }
                assert forall|other: NodeIndex| #[trigger]
                    replay::full(materializations, other) implies replay::full(after, other) by {
                    assert(replay::full(before, other));
                }
            }
        }
    }
}

/// Whether the state at a node is replayed on demand.
pub open spec fn partial(
    materializations: Map<NodeIndex, MaterializationView>,
    node: NodeIndex,
) -> bool {
    materializations.contains_key(node) && materializations[node].plan is Some
        && materializations[node].plan->0 is Partial
}

/// Whether a node is among those to visit.
pub open spec fn visited(order: Seq<VisitNode>, node: NodeIndex) -> bool {
    exists|i: int| 0 <= i < order.len() && (#[trigger] order[i]).index == node
}

/// State is replayed on demand only where that was decided at its node.
proof fn lemma_partial_visited(
    flow: Flow,
    added: Set<NodeIndex>,
    materializations: Map<NodeIndex, MaterializationView>,
    order: Seq<VisitNode>,
)
    requires
        forall|node: NodeIndex| !#[trigger] partial(materializations, node),
    ensures
        flow.planned(added, materializations, order) matches Ok(after) ==> forall|node: NodeIndex|
            #[trigger] partial(after, node) ==> visited(order, node),
    decreases order.len(),
{
    if order.len() > 0 {
        let earlier = order.drop_last();
        lemma_partial_visited(flow, added, materializations, earlier);
        if let Ok(before) = flow.planned(added, materializations, earlier) {
            if let Ok(after) = flow.decided(added, before, order.last().index) {
                assert forall|node: NodeIndex| #[trigger] partial(after, node) implies visited(
                    order,
                    node,
                ) by {
                    if partial(before, node) {
                        let i = choose|i: int|
                            0 <= i < earlier.len() && (#[trigger] earlier[i]).index == node;
                        assert(order[i].index == node);
                    } else {
                        assert(order[order.len() - 1].index == node);
                    }
                }
            }
        }
    }
}

/// Whether no node is visited twice.
pub open spec fn visits_differ(order: Seq<VisitNode>) -> bool {
    forall|i: int, j: int|
        0 <= i < j < order.len() ==> (#[trigger] order[i]).index != (#[trigger] order[j]).index
}

/// Where it is already decided how the state at a node is kept when the node is visited, the state
/// is full.
pub proof fn law_decided_before_is_full(
    flow: Flow,
    added: Set<NodeIndex>,
    materializations: Map<NodeIndex, MaterializationView>,
    order: Seq<VisitNode>,
    i: int,
)
    requires
        forall|node: NodeIndex| !#[trigger] partial(materializations, node),
        visits_differ(order),
        0 <= i < order.len(),
    ensures
        flow.planned(added, materializations, order.take(i)) matches Ok(before) ==> (
        before.contains_key(order[i].index) && before[order[i].index].plan is Some ==> replay::full(
            before,
            order[i].index,
        )),
{
    let earlier = order.take(i);
    let node = order[i].index;
    lemma_partial_visited(flow, added, materializations, earlier);
    if let Ok(before) = flow.planned(added, materializations, earlier) {
        if partial(before, node) {
            let j = choose|j: int| 0 <= j < earlier.len() && (#[trigger] earlier[j]).index == node;
            assert(order[j].index == node);
        }
        if before.contains_key(node) && before[node].plan is Some {
            assert(before[node].plan->0 is Full);
        }
    }
}

/// A decision to replay state on demand stands: in a visit leaves first no later decision makes the
/// state full.
pub proof fn lemma_partial_stands(
    flow: Flow,
    added: Set<NodeIndex>,
    mirrors: Seq<Mirror>,
    new: Set<NodeIndex>,
    materializations: Map<NodeIndex, MaterializationView>,
    node: NodeIndex,
    end: int,
)
    requires
        flow.edges_ascend(),
        flow.nodes.len() + mirrors.len() <= u32::MAX,
        forall|i: int|
            0 <= i < mirrors.len() ==> (#[trigger] mirrors[i]).node < flow.nodes.len(),
        mirrors.no_duplicates(),
        forall|node: NodeIndex| !#[trigger] partial(materializations, node),
        0 <= end <= visit::visits(order::to_visit(new, mirrors, flow.nodes.len())).len(),
        flow.with_mirrors(mirrors).planned(
            added,
            materializations,
            visit::visits(order::to_visit(new, mirrors, flow.nodes.len())).take(end),
        ) matches Ok(before) && partial(before, node),
    ensures
        ({
            let order = visit::visits(order::to_visit(new, mirrors, flow.nodes.len()));
            let mirrored = flow.with_mirrors(mirrors);
            let before = mirrored.planned(added, materializations, order.take(end))->Ok_0;
            mirrored.planned(added, materializations, order) matches Ok(after)
                ==> after.contains_key(node) && after[node].plan == before[node].plan
        }),
    decreases
            visit::visits(order::to_visit(new, mirrors, flow.nodes.len())).len() - end,
{
    let order = visit::visits(order::to_visit(new, mirrors, flow.nodes.len()));
    let mirrored = flow.with_mirrors(mirrors);
    let before = mirrored.planned(added, materializations, order.take(end))->Ok_0;
    if end == order.len() {
        assert(order.take(end) =~= order);
    } else {
        let at = order[end].index;
        assert(order.take(end + 1).drop_last() =~= order.take(end));
        assert(order.take(end + 1).last() == order[end]);
        lemma_partial_visited(mirrored, added, materializations, order.take(end));
        let i = choose|i: int|
            0 <= i < order.take(end).len() && (#[trigger] order.take(end)[i]).index == node;
        assert(order[i].index == node);
        match mirrored.planned(added, materializations, order.take(end + 1)) {
            Ok(next) => {
                if at != node && ancestry::above(mirrored.edges, at).contains(node) {
                    order::lemma_above_visited_later(flow, new, mirrors, end, i);
                }
                assert(next.contains_key(node) && next[node].plan == before[node].plan);
                lemma_partial_stands(
                    flow,
                    added,
                    mirrors,
                    new,
                    materializations,
                    node,
                    end + 1,
                );
            },
            Err(_) => {
                replay::lemma_planned_fails(mirrored, added, materializations, order, end + 1);
            },
        }
    }
}

/// Whether the paths that the state at a node is replayed over start there, at a key, and lead up
/// through what supplies it.
pub open spec fn paths_lead(
    flow: Flow,
    materializations: Map<NodeIndex, MaterializationView>,
    node: NodeIndex,
) -> bool {
    forall|i: int|
        #![trigger replay::paths_at(materializations, node)[i]]
        0 <= i < replay::paths_at(materializations, node).len() ==> {
            let path = replay::paths_at(materializations, node)[i];
            &&& path.len() > 0
            &&& path[0].0 == node
            &&& materializations[node].keys.contains(path[0].1)
            &&& flow.follows(path)
        }
}

/// The paths that state is replayed over start at the key of a materialization and lead up through
/// what supplies it.
pub proof fn law_paths_lead(
    flow: Flow,
    added: Set<NodeIndex>,
    materializations: Map<NodeIndex, MaterializationView>,
    order: Seq<VisitNode>,
)
    requires
        forall|node: NodeIndex| #[trigger] paths_lead(flow, materializations, node),
    ensures
        flow.planned(added, materializations, order) matches Ok(after) ==> forall|node: NodeIndex|
            #[trigger] paths_lead(flow, after, node),
    decreases order.len(),
{
    if order.len() > 0 {
        let at = order.last().index;
        law_paths_lead(flow, added, materializations, order.drop_last());
        if let Ok(before) = flow.planned(added, materializations, order.drop_last()) {
            if let Ok(after) = flow.decided(added, before, at) {
                let keys = materialization::ascending(before[at].keys);
                materialization::lemma_ascending(before[at].keys);
                assert forall|node: NodeIndex| #[trigger] paths_lead(flow, after, node) by {
                    assert(paths_lead(flow, before, node));
                    if replay::paths_at(after, node) == replay::paths_at(before, node) {
                        assert(before.contains_key(node) ==> after[node].keys
                            == before[node].keys);
                    } else {
                        let paths = replay::paths_at(after, node);
                        if paths.len() > 0 {
                            assert(node == at);
                            assert(paths == flow.key_paths(before, at, keys));
                        }
                        assert forall|i: int|
                            #![trigger paths[i]]
                            0 <= i < paths.len() implies {
                            let path = paths[i];
                            &&& path.len() > 0
                            &&& path[0].0 == node
                            &&& after[node].keys.contains(path[0].1)
                            &&& flow.follows(path)
                        } by {
                            replay::lemma_key_paths(flow, before, at, keys, i);
                            let k = choose|k: int|
                                0 <= k < keys.len() && flow.replays(
                                    before,
                                    at,
                                    #[trigger] keys[k],
                                    paths[i],
                                );
                            assert(keys.contains(keys[k]));
                            assert(after[node].keys.contains(keys[k]));
                        }
                    }
                }
            }
        }
    }
}

/// Whether one of the paths that the state at a node is replayed over starts at a column of the
/// node.
pub open spec fn has_path(
    materializations: Map<NodeIndex, MaterializationView>,
    node: NodeIndex,
    column: usize,
) -> bool {
    exists|i: int|
        #![trigger replay::paths_at(materializations, node)[i]]
        0 <= i < replay::paths_at(materializations, node).len() && replay::paths_at(
            materializations,
            node,
        )[i].len() > 0 && replay::paths_at(materializations, node)[i][0] == (node, column)
}

/// The paths of a node hold the paths of each of its keys.
proof fn lemma_key_has_path(
    flow: Flow,
    materializations: Map<NodeIndex, MaterializationView>,
    node: NodeIndex,
    keys: Seq<usize>,
    k: int,
) -> (i: int)
    requires
        0 <= k < keys.len(),
        flow.viable(materializations, node, keys[k]),
    ensures
        ({
            let paths = flow.key_paths(materializations, node, keys);
            &&& 0 <= i < paths.len()
            &&& flow.replays(materializations, node, keys[k], paths[i])
        }),
    decreases keys.len(),
{
    let earlier = keys.drop_last();
    let before = flow.key_paths(materializations, node, earlier);
    if k < earlier.len() {
        assert(earlier[k] == keys[k]);
        lemma_key_has_path(flow, materializations, node, earlier, k)
    } else {
        let own = flow.paths(materializations, node, keys.last());
        replay::lemma_viable_has_path(flow, materializations, node, keys.last());
        replay::law_paths_replay(flow, materializations, node, keys.last());
        assert(flow.key_paths(materializations, node, keys)[before.len() as int] == own[0]);
        before.len() as int
    }
}

/// Partial state has a path to replay it over for each of its keys.
pub proof fn law_keys_have_paths(
    flow: Flow,
    added: Set<NodeIndex>,
    materializations: Map<NodeIndex, MaterializationView>,
    order: Seq<VisitNode>,
)
    requires
        forall|node: NodeIndex| !#[trigger] partial(materializations, node),
    ensures
        flow.planned(added, materializations, order) matches Ok(after) ==> forall|
            node: NodeIndex,
            key: usize,
        |
            partial(after, node) && after[node].keys.contains(key) ==> #[trigger] has_path(
                after,
                node,
                key,
            ),
    decreases order.len(),
{
    if order.len() > 0 {
        let at = order.last().index;
        law_keys_have_paths(flow, added, materializations, order.drop_last());
        if let Ok(before) = flow.planned(added, materializations, order.drop_last()) {
            if let Ok(after) = flow.decided(added, before, at) {
                assert forall|node: NodeIndex, key: usize|
                    partial(after, node) && after[node].keys.contains(
                        key,
                    ) implies #[trigger] has_path(after, node, key) by {
                    if partial(before, node) {
                        assert(has_path(before, node, key));
                        assert(replay::paths_at(before, node) == replay::paths_at(after, node));
                        let i = choose|i: int|
                            #![trigger replay::paths_at(before, node)[i]]
                            0 <= i < replay::paths_at(before, node).len() && replay::paths_at(
                                before,
                                node,
                            )[i].len() > 0 && replay::paths_at(before, node)[i][0] == (node, key);
                        assert(replay::paths_at(after, node)[i][0] == (node, key));
                    } else {
                        let keys = materialization::ascending(before[node].keys);
                        materialization::lemma_ascending(before[node].keys);
                        assert(keys.contains(key));
                        let k = choose|k: int| 0 <= k < keys.len() && keys[k] == key;
                        let i = lemma_key_has_path(flow, before, node, keys, k);
                        assert(replay::paths_at(after, node)[i][0] == (node, key));
                    }
                }
            }
        }
    }
}

} // verus!
