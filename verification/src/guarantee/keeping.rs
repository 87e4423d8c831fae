//! How every plan keeps state, and over which paths it replays it.

use vstd::prelude::*;

use super::keys;
use super::terms;
use super::wiring;
use crate::ancestry;
use crate::dataflow::{EdgeView, Flow};
use crate::decision;
use crate::guarantee;
use crate::materialization;
use crate::materialization::MaterializationView;
use crate::migration;
use crate::migration::MigrationPlanView;
use crate::order;
use crate::replay;
use crate::sharding::{Column, NodeIndex};
use crate::trim;
use crate::visit;
use crate::visit::VisitNode;

verus! {

/// State that is replayed was decided to be when its node was visited, by what was full by then.
pub proof fn lemma_decided_when(
    flow: Flow,
    added: Set<NodeIndex>,
    materializations: Map<NodeIndex, MaterializationView>,
    order: Seq<VisitNode>,
    node: NodeIndex,
) -> (i: int)
    requires
        forall|other: NodeIndex| !#[trigger] decision::partial(materializations, other),
        flow.planned(added, materializations, order) is Ok,
        decision::partial(flow.planned(added, materializations, order)->Ok_0, node),
    ensures
        ({
            let after = flow.planned(added, materializations, order)->Ok_0;
            let before = flow.planned(added, materializations, order.take(i))->Ok_0;
            let keys = materialization::ascending(after[node].keys);
            &&& 0 <= i < order.len()
            &&& order[i].index == node
            &&& flow.planned(added, materializations, order.take(i)) is Ok
            &&& flow.keys_viable(before, node, after[node].keys)
            &&& replay::paths_at(after, node) == flow.key_paths(before, node, keys)
            &&& forall|other: NodeIndex| #[trigger]
                replay::full(before, other) ==> replay::full(after, other)
        }),
    decreases order.len(),
{
    if order.len() == 0 {
        assert(!decision::partial(materializations, node));
        0
    } else {
        let earlier = order.drop_last();
        let at = order.last().index;
        let held = flow.planned(added, materializations, earlier)->Ok_0;
        let after = flow.planned(added, materializations, order)->Ok_0;
        decision::lemma_decided_further(flow, added, held, at);
        if decision::partial(held, node) {
            let i = lemma_decided_when(flow, added, materializations, earlier, node);
            assert(earlier.take(i) =~= order.take(i));
            assert(after[node].keys == held[node].keys);
            assert(replay::paths_at(after, node) == replay::paths_at(held, node));
            let before = flow.planned(added, materializations, order.take(i))->Ok_0;
            assert forall|other: NodeIndex| #[trigger] replay::full(before, other) implies
                replay::full(after, other) by {
                assert(replay::full(held, other));
            }
            i
        } else {
            assert(node == at);
            assert(order.take(order.len() - 1) =~= earlier);
            order.len() - 1
        }
    }
}

/// What a way that meets no full state gets to from a column that can be replayed can be replayed.
proof fn lemma_viable_along(
    flow: Flow,
    materializations: Map<NodeIndex, MaterializationView>,
    path: Seq<Column>,
    j: int,
)
    requires
        path.len() > 0,
        flow.viable(materializations, path[0].0, path[0].1),
        flow.follows(path),
        0 <= j < path.len(),
        forall|i: int| 0 <= i < j ==> !replay::full(materializations, (#[trigger] path[i]).0),
    ensures
        flow.viable(materializations, path[j].0, path[j].1),
    decreases j,
{
    if j > 0 {
        lemma_viable_along(flow, materializations, path, j - 1);
        let (at, column) = path[j - 1];
        assert(flow.supplied_by(path[j - 1], path[j]));
        let sources = flow.source_of(at, column);
        let k = choose|k: int|
            0 <= k < sources.len() && sources[k] == (path[j].0, Some(path[j].1));
        assert(!replay::full(materializations, path[j - 1].0));
        assert(flow.source_of(at, column)[k] == sources[k]);
    }
}

/// A path among those of a key is among those of all keys.
proof fn lemma_among_key_paths(
    flow: Flow,
    materializations: Map<NodeIndex, MaterializationView>,
    node: NodeIndex,
    keys: Seq<usize>,
    k: int,
    path: Seq<Column>,
)
    requires
        0 <= k < keys.len(),
        flow.paths(materializations, node, keys[k]).contains(path),
    ensures
        flow.key_paths(materializations, node, keys).contains(path),
    decreases keys.len(),
{
    let earlier = keys.drop_last();
    let before = flow.key_paths(materializations, node, earlier);
    let all = flow.key_paths(materializations, node, keys);
    if k < earlier.len() {
        assert(earlier[k] == keys[k]);
        lemma_among_key_paths(flow, materializations, node, earlier, k, path);
        let i = choose|i: int| 0 <= i < before.len() && before[i] == path;
        assert(all[i] == path);
    } else {
        let own = flow.paths(materializations, node, keys.last());
        let i = choose|i: int| 0 <= i < own.len() && own[i] == path;
        assert(all[before.len() + i] == path);
    }
}

/// Where more is full later, a way to the first state that is full by then is the start of a way to
/// the first state that is full before.
proof fn lemma_whole_path(
    flow: Flow,
    before: Map<NodeIndex, MaterializationView>,
    after: Map<NodeIndex, MaterializationView>,
    node: NodeIndex,
    column: usize,
    path: Seq<Column>,
) -> (whole: Seq<Column>)
    requires
        forall|other: NodeIndex| #[trigger]
            replay::full(before, other) ==> replay::full(after, other),
        flow.viable(before, node, column),
        flow.replays(after, node, column, path),
    ensures
        flow.replays(before, node, column, whole),
        path.is_prefix_of(whole),
        trim::cut(after, whole) == path,
{
    let last = path.last();
    let start = path.drop_last();
    assert forall|i: int| 0 <= i < path.len() - 1 implies !replay::full(
        before,
        (#[trigger] path[i]).0,
    ) by {
        assert(!replay::full(after, path[i].0));
    }
    lemma_viable_along(flow, before, path, path.len() - 1);
    replay::lemma_viable_has_path(flow, before, last.0, last.1);
    replay::law_paths_replay(flow, before, last.0, last.1);
    let rest = flow.paths(before, last.0, last.1)[0];
    assert(flow.replays(before, last.0, last.1, rest));
    let whole = start + rest;
    assert(whole[start.len() as int] == rest[0]);
    assert forall|i: int| 0 <= i < path.len() implies whole[i] == #[trigger] path[i] by {}
    assert forall|i: int, j: int| 0 <= i && j == i + 1 && j < whole.len() implies flow.supplied_by(
        #[trigger] whole[i],
        #[trigger] whole[j],
    ) by {
        if j <= start.len() {
            assert(whole[i] == path[i]);
            assert(whole[j] == path[j]);
        } else {
            assert(whole[i] == rest[i - start.len()]);
            assert(whole[j] == rest[j - start.len()]);
        }
    }
    assert forall|i: int| 0 <= i < whole.len() - 1 implies !replay::full(
        before,
        (#[trigger] whole[i]).0,
    ) by {
        if i < start.len() {
            assert(whole[i] == path[i]);
        } else {
            assert(whole[i] == rest[i - start.len()]);
        }
    }
    assert(whole.last() == rest.last());
    assert(whole[0] == path[0]);
    trim::lemma_first_full(after, whole, 0);
    let at = trim::first_full(after, whole, 0);
    assert(replay::full(after, whole[start.len() as int].0));
    if at < start.len() {
        assert(whole[at] == path[at]);
        assert(!replay::full(after, path[at].0));
    }
    assert(trim::cut(after, whole) =~= path);
    assert(whole.take(path.len() as int) =~= path);
    whole
}

/// A path up through what supplies a column, in either wording.
pub proof fn lemma_goes_up(
    flow: Flow,
    added: Set<NodeIndex>,
    assigned: Map<NodeIndex, Column>,
    path: Seq<Column>,
)
    requires
        migration::plannable(flow, added),
        flow.plan(added, assigned) is Ok,
        path.len() > 0,
        path[0].0 < flow.plan(added, assigned)->Ok_0.flow.nodes.len(),
    ensures
        ({
            let plan = flow.plan(added, assigned)->Ok_0;
            plan.flow.follows(path) <==> terms::goes_up(plan.flow, path)
        }),
{
    let plan = flow.plan(added, assigned)->Ok_0;
    if plan.flow.follows(path) {
        assert forall|i: int, j: int|
            0 <= i && j == i + 1 && j < path.len() implies terms::comes_from(
            plan.flow,
            #[trigger] path[i],
            #[trigger] path[j],
        ) by {
            keys::lemma_sources_within(flow, added, assigned, path, i);
            assert(plan.flow.supplied_by(path[i], path[j]));
        }
    }
    if terms::goes_up(plan.flow, path) {
        assert forall|i: int, j: int|
            0 <= i && j == i + 1 && j < path.len() implies plan.flow.supplied_by(
            #[trigger] path[i],
            #[trigger] path[j],
        ) by {
            assert(terms::comes_from(plan.flow, path[i], path[j]));
        }
    }
}

/// State is replayed from everywhere that it comes from. Each way up from a key of state that is
/// replayed, through what supplies the key, that gets to where all of the state is kept and passes
/// no such node before, is one of the paths that the state is replayed over.
pub proof fn law_replayed_over_every_way(
    flow: Flow,
    added: Set<NodeIndex>,
    assigned: Map<NodeIndex, Column>,
    node: NodeIndex,
    key: usize,
    path: Seq<Column>,
)
    requires
        migration::plannable(flow, added),
        path.len() > 0,
        path[0] == (node, key),
    ensures
        flow.plan(added, assigned) matches Ok(plan) ==> {
            plan.added.contains(node) && terms::is_replayed(plan, node) && terms::is_asked(
                flow,
                added,
                plan,
                node,
                key,
            ) && terms::goes_up(plan.flow, path) && terms::ends_whole(plan, path)
                ==> terms::paths_of(plan, node).contains(path)
        },
{
    if let Ok(plan) = flow.plan(added, assigned) {
        if plan.added.contains(node) && terms::is_replayed(plan, node) && terms::is_asked(
            flow,
            added,
            plan,
            node,
            key,
        ) && terms::goes_up(plan.flow, path) && terms::ends_whole(plan, path) {
            let kept = flow.kept(added, assigned)->Ok_0;
            let undecided = flow.undecided(added, assigned);
            let order = flow.order(added, assigned);
            let end = plan.flow.nodes.len() as int;
            let after = plan.materializations;
            guarantee::lemma_plan(flow, added, assigned);
            lemma_goes_up(flow, added, assigned, path);
            keys::lemma_asked(flow, added, assigned, node, key);
            trim::lemma_trimmed(plan.added, kept, end);
            trim::lemma_trimmed_partial(plan.added, kept, end, node);
            assert forall|other: NodeIndex| !#[trigger] decision::partial(undecided, other) by {
                assert(undecided.contains_key(other) ==> undecided[other].plan is None);
            }
            assert(decision::partial(kept, node));
            let i = lemma_decided_when(plan.flow, plan.added, undecided, order, node);
            let before = plan.flow.planned(plan.added, undecided, order.take(i))->Ok_0;
            assert(kept[node].keys == undecided[node].keys);
            assert(plan.flow.viable(before, node, key));
            assert(replay::ends_full(kept, path)) by {
                assert(replay::full(after, path.last().0));
                assert forall|i: int| 0 <= i < path.len() - 1 implies !replay::full(
                    kept,
                    (#[trigger] path[i]).0,
                ) by {
                    assert(!terms::is_whole(plan, path[i].0));
                    assert(replay::full(after, path[i].0) == replay::full(kept, path[i].0));
                }
            }
            let whole = lemma_whole_path(plan.flow, before, kept, node, key, path);
            migration::lemma_undecided(flow, added, assigned);
            migration::lemma_with_mirrors_sources(
                flow.recorded(added),
                flow.new_mirrors(added, assigned),
            );
            replay::law_paths_complete(plan.flow, before, node, key, whole);
            let list = materialization::ascending(kept[node].keys);
            materialization::lemma_ascending(kept[node].keys);
            assert(list.contains(key));
            let k = choose|k: int| 0 <= k < list.len() && list[k] == key;
            lemma_among_key_paths(plan.flow, before, node, list, k, whole);
            let paths = replay::paths_at(kept, node);
            let p = choose|p: int| 0 <= p < paths.len() && paths[p] == whole;
            assert(replay::paths_at(after, node) == trim::cut_all(kept, paths));
            assert(replay::paths_at(after, node)[p] == path);
            assert(terms::paths_of(plan, node) == replay::paths_at(after, node));
        }
    }
}

/// Each path that state is replayed over starts at one of the keys that the state is looked up by,
/// goes up through what supplies the key to where all of the state is kept, and passes no such node
/// before.
pub proof fn law_paths_go_up(
    flow: Flow,
    added: Set<NodeIndex>,
    assigned: Map<NodeIndex, Column>,
    node: NodeIndex,
    i: int,
)
    requires
        migration::plannable(flow, added),
    ensures
        flow.plan(added, assigned) matches Ok(plan) ==> {
            plan.added.contains(node) && terms::is_replayed(plan, node) && 0 <= i
                < terms::paths_of(plan, node).len() ==> {
                let path = terms::paths_of(plan, node)[i];
                &&& path.len() > 0
                &&& path[0].0 == node
                &&& terms::is_asked(flow, added, plan, node, path[0].1)
                &&& terms::goes_up(plan.flow, path)
                &&& terms::ends_whole(plan, path)
            }
        },
{
    if let Ok(plan) = flow.plan(added, assigned) {
        if plan.added.contains(node) && terms::is_replayed(plan, node) && 0 <= i < terms::paths_of(
            plan,
            node,
        ).len() {
            let kept = flow.kept(added, assigned)->Ok_0;
            let undecided = flow.undecided(added, assigned);
            let end = plan.flow.nodes.len() as int;
            let path = terms::paths_of(plan, node)[i];
            guarantee::lemma_plan(flow, added, assigned);
            guarantee::law_plan_paths(flow, added, assigned, node);
            assert(path == replay::paths_at(plan.materializations, node)[i]);
            lemma_goes_up(flow, added, assigned, path);
            assert forall|other: NodeIndex| #[trigger]
                decision::paths_lead(plan.flow, undecided, other) by {
                assert(undecided.contains_key(other) ==> undecided[other].plan is None);
                assert(replay::paths_at(undecided, other).len() == 0);
            }
            decision::law_paths_lead(plan.flow, plan.added, undecided, flow.order(added, assigned));
            trim::lemma_trimmed(plan.added, kept, end);
            assert(decision::paths_lead(plan.flow, kept, node));
            let whole = replay::paths_at(kept, node)[i];
            trim::law_trimmed_to_first_full(plan.added, kept, end, node, i);
            assert(path[0] == whole[0]);
            assert(kept[node].keys == undecided[node].keys);
            keys::lemma_asked(flow, added, assigned, node, path[0].1);
            assert forall|j: int| 0 <= j < path.len() - 1 implies !terms::is_whole(
                plan,
                (#[trigger] path[j]).0,
            ) by {
                assert(!replay::full(plan.materializations, path[j].0));
            }
        }
    }
}

/// State that is replayed has a path for each of the keys that it is looked up by.
pub proof fn law_every_key_has_path(
    flow: Flow,
    added: Set<NodeIndex>,
    assigned: Map<NodeIndex, Column>,
    node: NodeIndex,
    key: usize,
)
    requires
        migration::plannable(flow, added),
    ensures
        flow.plan(added, assigned) matches Ok(plan) ==> {
            plan.added.contains(node) && terms::is_replayed(plan, node) && terms::is_asked(
                flow,
                added,
                plan,
                node,
                key,
            ) ==> exists|i: int|
                0 <= i < terms::paths_of(plan, node).len() && (#[trigger] terms::paths_of(
                    plan,
                    node,
                )[i])[0] == (node, key)
        },
{
    if let Ok(plan) = flow.plan(added, assigned) {
        if plan.added.contains(node) && terms::is_replayed(plan, node) && terms::is_asked(
            flow,
            added,
            plan,
            node,
            key,
        ) {
            guarantee::lemma_plan(flow, added, assigned);
            keys::lemma_asked(flow, added, assigned, node, key);
            guarantee::law_key_has_path(flow, added, assigned, node, key);
            let paths = replay::paths_at(plan.materializations, node);
            let i = choose|i: int|
                #![trigger paths[i]]
                0 <= i < paths.len() && paths[i].len() > 0 && paths[i][0] == (node, key);
            assert(terms::paths_of(plan, node)[i] == paths[i]);
        }
    }
}

/// No way up from a key of state that is replayed ends before it gets to where all of the state is
/// kept: what it has got to by then comes from somewhere, and every operator that it comes from can
/// supply it.
pub proof fn law_no_way_is_stuck(
    flow: Flow,
    added: Set<NodeIndex>,
    assigned: Map<NodeIndex, Column>,
    node: NodeIndex,
    key: usize,
    path: Seq<Column>,
)
    requires
        migration::plannable(flow, added),
        path.len() > 0,
        path[0] == (node, key),
    ensures
        flow.plan(added, assigned) matches Ok(plan) ==> {
            plan.added.contains(node) && terms::is_replayed(plan, node) && terms::is_asked(
                flow,
                added,
                plan,
                node,
                key,
            ) && terms::goes_up(plan.flow, path) && (forall|i: int|
                0 <= i < path.len() ==> !terms::is_whole(plan, (#[trigger] path[i]).0))
                ==> !terms::is_stuck(plan.flow, path.last())
        },
{
    if let Ok(plan) = flow.plan(added, assigned) {
        if plan.added.contains(node) && terms::is_replayed(plan, node) && terms::is_asked(
            flow,
            added,
            plan,
            node,
            key,
        ) && terms::goes_up(plan.flow, path) && (forall|i: int|
            0 <= i < path.len() ==> !terms::is_whole(plan, (#[trigger] path[i]).0)) {
            let kept = flow.kept(added, assigned)->Ok_0;
            let undecided = flow.undecided(added, assigned);
            let order = flow.order(added, assigned);
            let end = plan.flow.nodes.len() as int;
            guarantee::lemma_plan(flow, added, assigned);
            lemma_goes_up(flow, added, assigned, path);
            keys::lemma_asked(flow, added, assigned, node, key);
            trim::lemma_trimmed(plan.added, kept, end);
            trim::lemma_trimmed_partial(plan.added, kept, end, node);
            assert forall|other: NodeIndex| !#[trigger] decision::partial(undecided, other) by {
                assert(undecided.contains_key(other) ==> undecided[other].plan is None);
            }
            assert(decision::partial(kept, node));
            let i = lemma_decided_when(plan.flow, plan.added, undecided, order, node);
            let before = plan.flow.planned(plan.added, undecided, order.take(i))->Ok_0;
            assert(kept[node].keys == undecided[node].keys);
            assert(plan.flow.viable(before, node, key));
            assert forall|i: int| 0 <= i < path.len() implies !replay::full(
                before,
                (#[trigger] path[i]).0,
            ) by {
                assert(!terms::is_whole(plan, path[i].0));
                assert(replay::full(plan.materializations, path[i].0) == replay::full(
                    kept,
                    path[i].0,
                ));
            }
            replay::law_all_ways_lead_to_full(plan.flow, before, node, key, path);
            keys::lemma_sources_within(flow, added, assigned, path, path.len() - 1);
            lemma_stuck(plan.flow, path.last());
        }
    }
}

/// A column that comes from somewhere, and that all that it comes from can supply, is not stuck,
/// and any other is.
proof fn lemma_stuck(flow: Flow, column: Column)
    requires
        column.0 < flow.nodes.len(),
    ensures
        ({
            let sources = flow.source_of(column.0, column.1);
            terms::is_stuck(flow, column) <==> !(sources.len() > 0 && forall|i: int|
                0 <= i < sources.len() ==> (#[trigger] sources[i]).1 is Some)
        }),
{
    let sources = flow.source_of(column.0, column.1);
    if column.1 < flow.nodes[column.0 as int].sources.len() {
        assert(sources == flow.nodes[column.0 as int].sources[column.1 as int]);
    }
}

/// State at existing operators is left to them: it is not decided how it is kept.
proof fn lemma_existing_undecided(
    flow: Flow,
    added: Set<NodeIndex>,
    materializations: Map<NodeIndex, MaterializationView>,
    order: Seq<VisitNode>,
)
    requires
        forall|i: int| 0 <= i < order.len() ==> added.contains((#[trigger] order[i]).index),
        forall|node: NodeIndex| #[trigger]
            materializations.contains_key(node) ==> materializations[node].plan is None,
    ensures
        flow.planned(added, materializations, order) matches Ok(after) ==> forall|node: NodeIndex|
            #[trigger] after.contains_key(node) && !added.contains(node)
                ==> after[node].plan is None,
    decreases order.len(),
{
    if order.len() > 0 {
        let earlier = order.drop_last();
        let at = order.last().index;
        assert forall|i: int| 0 <= i < earlier.len() implies added.contains(
            (#[trigger] earlier[i]).index,
        ) by {
            assert(earlier[i] == order[i]);
        }
        lemma_existing_undecided(flow, added, materializations, earlier);
        assert(added.contains(order[order.len() - 1].index));
        if let Ok(before) = flow.planned(added, materializations, earlier) {
            if let Ok(after) = flow.decided(added, before, at) {
                let upward = ancestry::above(flow.edges, at);
                assert forall|node: NodeIndex| #[trigger]
                    after.contains_key(node) && !added.contains(
                        node,
                    ) implies after[node].plan is None by {
                    assert(before.contains_key(node));
                    if after[node] != before[node] {
                        assert(node != at);
                        assert(upward.contains(node));
                        assert(replay::settled_otherwise(added, before, node));
                    }
                }
            }
        }
    }
}

/// A plan does not decide how state at existing operators is kept.
pub proof fn law_existing_state_left(
    flow: Flow,
    added: Set<NodeIndex>,
    assigned: Map<NodeIndex, Column>,
    node: NodeIndex,
)
    requires
        migration::plannable(flow, added),
    ensures
        flow.plan(added, assigned) matches Ok(plan) ==> {
            plan.materializations.contains_key(node) && !plan.added.contains(node)
                ==> plan.materializations[node].plan is None
        },
{
    if let Ok(plan) = flow.plan(added, assigned) {
        let kept = flow.kept(added, assigned)->Ok_0;
        let undecided = flow.undecided(added, assigned);
        let order = flow.order(added, assigned);
        guarantee::lemma_plan(flow, added, assigned);
        assert forall|i: int| 0 <= i < order.len() implies plan.added.contains(
            (#[trigger] order[i]).index,
        ) by {
            order::lemma_visited_new(
                added,
                flow.new_mirrors(added, assigned),
                flow.nodes.len(),
                i,
            );
        }
        assert forall|other: NodeIndex| #[trigger] undecided.contains_key(other) implies
            undecided[other].plan is None by {}
        lemma_existing_undecided(plan.flow, plan.added, undecided, order);
        trim::lemma_trimmed_partial(
            plan.added,
            kept,
            plan.flow.nodes.len() as int,
            node,
        );
        if plan.materializations.contains_key(node) && !plan.added.contains(node) {
            assert(kept.contains_key(node));
        }
    }
}

/// A way leads from a node to another exactly if the node is above the other.
pub proof fn law_above_by_ways(edges: Seq<EdgeView>, from: NodeIndex, to: NodeIndex)
    ensures
        ancestry::above(edges, to).contains(from) <==> terms::leads_to(edges, from, to),
{
    if ancestry::above(edges, to).contains(from) {
        let steps = choose|steps: nat| ancestry::leads(edges, from, to, steps);
        let way = lemma_way(edges, from, to, steps);
        assert(terms::is_way(edges, way));
    }
    if terms::leads_to(edges, from, to) {
        let way = choose|way: Seq<NodeIndex>| #[trigger]
            terms::is_way(edges, way) && way.len() > 0 && way[0] == from && way.last() == to;
        lemma_leads(edges, way);
        assert(ancestry::leads(edges, from, to, (way.len() - 1) as nat));
    }
}

/// Steps make a way.
proof fn lemma_way(edges: Seq<EdgeView>, from: NodeIndex, to: NodeIndex, steps: nat) -> (way: Seq<
    NodeIndex,
>)
    requires
        ancestry::leads(edges, from, to, steps),
    ensures
        terms::is_way(edges, way),
        way.len() > 0,
        way[0] == from,
        way.last() == to,
    decreases steps,
{
    if steps == 0 {
        seq![from]
    } else {
        let e = choose|e: int|
            0 <= e < edges.len() && (#[trigger] edges[e]).source == from && ancestry::leads(
                edges,
                edges[e].target,
                to,
                (steps - 1) as nat,
            );
        let rest = lemma_way(edges, edges[e].target, to, (steps - 1) as nat);
        let way = seq![from] + rest;
        assert(way.last() == rest.last());
        assert forall|i: int, j: int| 0 <= i && j == i + 1 && j < way.len() implies terms::joins(
            edges,
            #[trigger] way[i],
            #[trigger] way[j],
        ) by {
            assert(way[j] == rest[j - 1]);
            if i == 0 {
                assert(edges[e].source == way[i]);
            } else {
                assert(way[i] == rest[i - 1]);
            }
        }
        way
    }
}

/// A way is made of steps.
proof fn lemma_leads(edges: Seq<EdgeView>, way: Seq<NodeIndex>)
    requires
        terms::is_way(edges, way),
        way.len() > 0,
    ensures
        ancestry::leads(edges, way[0], way.last(), (way.len() - 1) as nat),
    decreases way.len(),
{
    if way.len() > 1 {
        let rest = way.skip(1);
        assert forall|i: int, j: int| 0 <= i && j == i + 1 && j < rest.len() implies terms::joins(
            edges,
            #[trigger] rest[i],
            #[trigger] rest[j],
        ) by {
            assert(rest[i] == way[i + 1]);
            assert(rest[j] == way[j + 1]);
        }
        lemma_leads(edges, rest);
        assert(terms::joins(edges, way[0], way[1]));
        let e = choose|e: int|
            0 <= e < edges.len() && (#[trigger] edges[e]).source == way[0] && edges[e].target
                == way[1];
        assert(rest[0] == way[1]);
        assert(rest.last() == way.last());
        assert(edges[e].source == way[0]);
    }
}

/// State that becomes full does so because it is above a node that is visited and becomes full.
proof fn lemma_becomes_full(
    flow: Flow,
    added: Set<NodeIndex>,
    materializations: Map<NodeIndex, MaterializationView>,
    order: Seq<VisitNode>,
    i: int,
    node: NodeIndex,
) -> (q: int)
    requires
        0 <= i <= order.len(),
        flow.planned(added, materializations, order) is Ok,
        replay::full(flow.planned(added, materializations, order)->Ok_0, node),
        !replay::full(flow.planned(added, materializations, order.take(i))->Ok_0, node),
    ensures
        i <= q < order.len(),
        ancestry::above(flow.edges, order[q].index).contains(node),
        replay::full(flow.planned(added, materializations, order)->Ok_0, order[q].index),
        !flow.planned(added, materializations, order)->Ok_0[order[q].index].keys.is_empty(),
    decreases order.len(),
{
    let after = flow.planned(added, materializations, order)->Ok_0;
    assert(order.take(order.len() as int) =~= order);
    let earlier = order.drop_last();
    let at = order.last().index;
    let before = flow.planned(added, materializations, earlier)->Ok_0;
    assert(i < order.len());
    decision::lemma_decided_further(flow, added, before, at);
    if replay::full(before, node) {
        assert(earlier.take(i) =~= order.take(i));
        let q = lemma_becomes_full(flow, added, materializations, earlier, i, node);
        assert(replay::full(before, order[q].index));
        assert(after[order[q].index].keys == before[order[q].index].keys);
        q
    } else {
        ancestry::lemma_above_self(flow.edges, at);
        assert(replay::full(after, at));
        assert(after[at].keys == before[at].keys);
        order.len() - 1
    }
}

/// What is decided in part of a visit is decided, and what is full in part of it stays so.
proof fn lemma_planned_part(
    flow: Flow,
    added: Set<NodeIndex>,
    materializations: Map<NodeIndex, MaterializationView>,
    order: Seq<VisitNode>,
    i: int,
)
    requires
        0 <= i <= order.len(),
        flow.planned(added, materializations, order) is Ok,
    ensures
        ({
            let after = flow.planned(added, materializations, order)->Ok_0;
            let before = flow.planned(added, materializations, order.take(i))->Ok_0;
            &&& flow.planned(added, materializations, order.take(i)) is Ok
            &&& decision::decided_further(before, after)
        }),
    decreases order.len() - i,
{
    if i < order.len() {
        lemma_planned_part(flow, added, materializations, order, i + 1);
        assert(order.take(i + 1).drop_last() =~= order.take(i));
        let before = flow.planned(added, materializations, order.take(i))->Ok_0;
        let next = flow.planned(added, materializations, order.take(i + 1))->Ok_0;
        let after = flow.planned(added, materializations, order)->Ok_0;
        decision::lemma_decided_further(flow, added, before, order[i].index);
        assert forall|node: NodeIndex|
            before.contains_key(node) implies #[trigger] after[node].keys == before[node].keys by {
            assert(next[node].keys == before[node].keys);
        }
        assert forall|node: NodeIndex|
            before.contains_key(node) && before[node].plan is Some implies (
        #[trigger] after[node]).plan is Some by {
            assert(next[node].plan is Some);
        }
        assert forall|node: NodeIndex| #[trigger] replay::full(before, node) implies replay::full(
            after,
            node,
        ) by {
            assert(replay::full(next, node));
        }
    } else {
        assert(order.take(i) =~= order);
    }
}

/// Where a node stands: an operator at its own index, a mirror at that of the operator that it
/// mirrors.
pub open spec fn stands_at(
    flow: Flow,
    plan: MigrationPlanView,
    node: NodeIndex,
    at: NodeIndex,
) -> bool {
    if node < flow.nodes.len() {
        at == node
    } else {
        terms::is_mirror(flow, plan, node, at)
    }
}

/// Whether a node is further from the base tables than another: it stands at a larger index, or it
/// stands at the same and has the larger one. An operator is before its mirrors.
pub open spec fn is_deeper(
    flow: Flow,
    plan: MigrationPlanView,
    node: NodeIndex,
    other: NodeIndex,
) -> bool {
    exists|at: NodeIndex, by: NodeIndex| #[trigger]
        stands_at(flow, plan, node, at) && #[trigger] stands_at(flow, plan, other, by) && (at > by
            || at == by && node > other)
}

/// Whether all of the state at a node is kept because of nodes that are further from the base
/// tables than another: one that it leads to keeps all of its state.
pub open spec fn is_whole_by(
    flow: Flow,
    plan: MigrationPlanView,
    node: NodeIndex,
    other: NodeIndex,
) -> bool {
    plan.materializations.contains_key(node) && exists|whole: NodeIndex| #[trigger]
        terms::is_whole(plan, whole) && is_deeper(flow, plan, whole, other) && terms::leads_to(
            plan.flow.edges,
            node,
            whole,
        )
}

/// Whether a way up from a key of a node ends before it gets to where all of the state is kept
/// because of nodes further from the base tables.
pub open spec fn is_dead_end(
    flow: Flow,
    added: Set<NodeIndex>,
    plan: MigrationPlanView,
    node: NodeIndex,
    path: Seq<Column>,
) -> bool {
    &&& path.len() > 0
    &&& path[0].0 == node
    &&& terms::is_asked(flow, added, plan, node, path[0].1)
    &&& terms::goes_up(plan.flow, path)
    &&& terms::is_stuck(plan.flow, path.last())
    &&& forall|i: int|
        0 <= i < path.len() ==> !is_whole_by(flow, plan, (#[trigger] path[i]).0, node)
}

/// Nodes are visited in the order of how far they are from the base tables.
proof fn lemma_deeper_first(
    flow: Flow,
    added: Set<NodeIndex>,
    assigned: Map<NodeIndex, Column>,
    p: int,
    i: int,
)
    requires
        migration::plannable(flow, added),
        flow.topological(),
        flow.plan(added, assigned) is Ok,
        0 <= p < flow.order(added, assigned).len(),
        0 <= i < flow.order(added, assigned).len(),
        p != i,
    ensures
        p < i <==> is_deeper(
            flow,
            flow.plan(added, assigned)->Ok_0,
            flow.order(added, assigned)[p].index,
            flow.order(added, assigned)[i].index,
        ),
{
    let plan = flow.plan(added, assigned)->Ok_0;
    let order = flow.order(added, assigned);
    let mirrors = flow.new_mirrors(added, assigned);
    let first = flow.nodes.len();
    let node = order[p].index;
    let other = order[i].index;
    guarantee::lemma_plan(flow, added, assigned);
    order::lemma_visited_by_weight(added, mirrors, first, p);
    order::lemma_visited_by_weight(added, mirrors, first, i);
    order::lemma_visited_new(added, mirrors, first, p);
    order::lemma_visited_new(added, mirrors, first, i);
    order::lemma_visited_once(added, mirrors, first);
    assert(node != other) by {
        if p < i {
            assert(order[p].index != order[i].index);
        } else {
            assert(order[i].index != order[p].index);
        }
    }
    let at = if node < first {
        node
    } else {
        mirrors[node - first].node
    };
    let by = if other < first {
        other
    } else {
        mirrors[other - first].node
    };
    assert forall|x: NodeIndex| #[trigger] stands_at(flow, plan, node, x) <==> x == at by {
        wiring::lemma_is_mirror(flow, added, assigned, node, x);
    }
    assert forall|x: NodeIndex| #[trigger] stands_at(flow, plan, other, x) <==> x == by by {
        wiring::lemma_is_mirror(flow, added, assigned, other, x);
    }
    migration::lemma_undecided(flow, added, assigned);
    assert(stands_at(flow, plan, node, at));
    assert(stands_at(flow, plan, other, by));
    if node >= first {
        assert(mirrors[node - first].node < first);
    }
    if other >= first {
        assert(mirrors[other - first].node < first);
    }
    assert(order[i].below(order[p]) <==> at > by || at == by && node > other);
    assert(is_deeper(flow, plan, node, other) <==> at > by || at == by && node > other);
    assert(order[i].below(order[p]) != order[p].below(order[i]));
    if p < i {
        assert(visit::visit_order()(order[p], order[i]));
    } else {
        assert(visit::visit_order()(order[i], order[p]));
    }
}

/// What is full when a node is visited is what is kept in full because of nodes further from the
/// base tables.
proof fn lemma_full_by(
    flow: Flow,
    added: Set<NodeIndex>,
    assigned: Map<NodeIndex, Column>,
    i: int,
    node: NodeIndex,
)
    requires
        migration::plannable(flow, added),
        flow.topological(),
        flow.plan(added, assigned) is Ok,
        0 <= i < flow.order(added, assigned).len(),
    ensures
        ({
            let plan = flow.plan(added, assigned)->Ok_0;
            let order = flow.order(added, assigned);
            let undecided = flow.undecided(added, assigned);
            replay::full(
                plan.flow.planned(plan.added, undecided, order.take(i))->Ok_0,
                node,
            ) <==> is_whole_by(flow, plan, node, order[i].index)
        }),
{
    let plan = flow.plan(added, assigned)->Ok_0;
    let order = flow.order(added, assigned);
    let undecided = flow.undecided(added, assigned);
    let kept = flow.kept(added, assigned)->Ok_0;
    let end = plan.flow.nodes.len() as int;
    let part = order.take(i);
    let before = plan.flow.planned(plan.added, undecided, part)->Ok_0;
    let edges = plan.flow.edges;
    guarantee::lemma_plan(flow, added, assigned);
    lemma_planned_part(plan.flow, plan.added, undecided, order, i);
    trim::lemma_trimmed(plan.added, kept, end);
    assert(plan.materializations.dom() == kept.dom());
    assert forall|other: NodeIndex| !#[trigger] replay::full(undecided, other) by {
        assert(undecided.contains_key(other) ==> undecided[other].plan is None);
    }
    if replay::full(before, node) {
        assert(part.take(0) =~= Seq::<VisitNode>::empty());
        assert(!replay::full(undecided, node));
        let q = lemma_becomes_full(plan.flow, plan.added, undecided, part, 0, node);
        let whole = order[q].index;
        assert(part[q] == order[q]);
        assert(replay::full(kept, whole));
        assert(replay::full(plan.materializations, whole));
        assert(terms::is_whole(plan, whole));
        lemma_deeper_first(flow, added, assigned, q, i);
        law_above_by_ways(edges, node, whole);
        assert(kept.dom().contains(node));
        assert(is_whole_by(flow, plan, node, order[i].index));
    }
    if is_whole_by(flow, plan, node, order[i].index) {
        let whole = choose|whole: NodeIndex| #[trigger]
            terms::is_whole(plan, whole) && is_deeper(flow, plan, whole, order[i].index)
                && terms::leads_to(edges, node, whole);
        law_existing_state_left(flow, added, assigned, whole);
        assert(plan.added.contains(whole));
        guarantee::lemma_visited(flow, added, assigned, whole);
        let p = choose|p: int| 0 <= p < order.len() && (#[trigger] order[p]).index == whole;
        order::lemma_visited_once(
            added,
            flow.new_mirrors(added, assigned),
            flow.nodes.len(),
        );
        if p == i {
            lemma_not_deeper(flow, added, assigned, whole);
        }
        lemma_deeper_first(flow, added, assigned, p, i);
        assert(replay::full(plan.materializations, whole));
        assert(replay::full(kept, whole));
        if !replay::full(before, whole) {
            let q = lemma_becomes_full(plan.flow, plan.added, undecided, order, i, whole);
            assert(order[p].index != order[q].index);
            guarantee::law_above_visited_later(flow, added, assigned, q, p);
        }
        decision::law_no_partial_above_full(plan.flow, plan.added, undecided, part);
        law_above_by_ways(edges, node, whole);
        assert(before.dom() == kept.dom());
        assert(plan.materializations.dom().contains(node));
        assert(before.contains_key(node));
        assert(ancestry::above(edges, whole).contains(node));
        assert(replay::full(before, node));
    }
}

/// No node is further from the base tables than itself.
proof fn lemma_not_deeper(
    flow: Flow,
    added: Set<NodeIndex>,
    assigned: Map<NodeIndex, Column>,
    node: NodeIndex,
)
    requires
        migration::plannable(flow, added),
        flow.topological(),
        flow.plan(added, assigned) is Ok,
    ensures
        !is_deeper(flow, flow.plan(added, assigned)->Ok_0, node, node),
{
    let plan = flow.plan(added, assigned)->Ok_0;
    if is_deeper(flow, plan, node, node) {
        let (at, by) = choose|at: NodeIndex, by: NodeIndex| #[trigger]
            stands_at(flow, plan, node, at) && #[trigger] stands_at(flow, plan, node, by) && (at
                > by || at == by && node > node);
        wiring::lemma_is_mirror(flow, added, assigned, node, at);
        wiring::lemma_is_mirror(flow, added, assigned, node, by);
    }
}

/// A column that cannot be replayed has a way up that meets no full state and ends.
pub proof fn law_some_way_ends(
    flow: Flow,
    materializations: Map<NodeIndex, MaterializationView>,
    node: NodeIndex,
    column: usize,
) -> (path: Seq<Column>)
    requires
        flow.sources_precede(),
        node < flow.nodes.len(),
        !flow.viable(materializations, node, column),
    ensures
        path.len() > 0,
        path[0] == (node, column),
        flow.follows(path),
        forall|i: int|
            0 <= i < path.len() ==> !replay::full(materializations, (#[trigger] path[i]).0)
                && path[i].0 < flow.nodes.len(),
        terms::is_stuck(flow, path.last()),
    decreases node,
{
    let sources = flow.source_of(node, column);
    lemma_stuck(flow, (node, column));
    if terms::is_stuck(flow, (node, column)) {
        seq![(node, column)]
    } else {
        let k = choose|k: int|
            #![trigger flow.source_of(node, column)[k]]
            0 <= k < sources.len() && !(flow.source_of(node, column)[k].0 < node && flow.viable(
                materializations,
                flow.source_of(node, column)[k].0,
                flow.source_of(node, column)[k].1->0,
            ));
        assert(sources[k].1 is Some);
        assert(flow.nodes[node as int].sources[column as int][k].0 < node);
        let (ancestor, above) = (sources[k].0, sources[k].1->0);
        let rest = law_some_way_ends(flow, materializations, ancestor, above);
        let path = seq![(node, column)] + rest;
        assert forall|i: int, j: int|
            0 <= i && j == i + 1 && j < path.len() implies flow.supplied_by(
            #[trigger] path[i],
            #[trigger] path[j],
        ) by {
            assert(path[j] == rest[j - 1]);
            if i == 0 {
                assert(sources[k] == (ancestor, Some(above)));
            } else {
                assert(path[i] == rest[i - 1]);
            }
        }
        assert forall|i: int| 0 <= i < path.len() implies !replay::full(
            materializations,
            (#[trigger] path[i]).0,
        ) && path[i].0 < flow.nodes.len() by {
            if i > 0 {
                assert(path[i] == rest[i - 1]);
            }
        }
        assert(path.last() == rest.last());
        path
    }
}

/// When all of the state at a new node that is looked up is kept: where the node leads to another
/// that keeps all of its state, or where a way up from one of its keys ends before it gets to where
/// all of the state is kept because of nodes further from the base tables. Everywhere else it is
/// replayed.
pub proof fn law_kept_whole(
    flow: Flow,
    added: Set<NodeIndex>,
    assigned: Map<NodeIndex, Column>,
    node: NodeIndex,
    key: usize,
)
    requires
        migration::plannable(flow, added),
        flow.topological(),
    ensures
        flow.plan(added, assigned) matches Ok(plan) ==> {
            plan.added.contains(node) && terms::is_asked(flow, added, plan, node, key) ==> {
                &&& terms::is_whole(plan, node) <==> {
                    ||| exists|whole: NodeIndex| #[trigger]
                        terms::is_whole(plan, whole) && whole != node && terms::leads_to(
                            plan.flow.edges,
                            node,
                            whole,
                        )
                    ||| exists|path: Seq<Column>| is_dead_end(flow, added, plan, node, path)
                }
                &&& terms::is_whole(plan, node) || terms::is_replayed(plan, node)
            }
        },
{
    if let Ok(plan) = flow.plan(added, assigned) {
        if plan.added.contains(node) && terms::is_asked(flow, added, plan, node, key) {
            let order = flow.order(added, assigned);
            let undecided = flow.undecided(added, assigned);
            let kept = flow.kept(added, assigned)->Ok_0;
            let mirrors = flow.new_mirrors(added, assigned);
            let end = plan.flow.nodes.len() as int;
            let edges = plan.flow.edges;
            guarantee::lemma_plan(flow, added, assigned);
            guarantee::lemma_visited(flow, added, assigned, node);
            keys::lemma_asked(flow, added, assigned, node, key);
            let i = choose|i: int| 0 <= i < order.len() && (#[trigger] order[i]).index == node;
            let before = plan.flow.planned(plan.added, undecided, order.take(i))->Ok_0;
            let next = plan.flow.planned(plan.added, undecided, order.take(i + 1))->Ok_0;
            lemma_planned_part(plan.flow, plan.added, undecided, order, i);
            lemma_planned_part(plan.flow, plan.added, undecided, order, i + 1);
            assert(order.take(i + 1).drop_last() =~= order.take(i));
            assert(order.take(i + 1).last() == order[i]);
            assert(next == plan.flow.decided(plan.added, before, node)->Ok_0);
            trim::lemma_trimmed(plan.added, kept, end);
            trim::lemma_trimmed_partial(plan.added, kept, end, node);
            assert(replay::full(plan.materializations, node) == replay::full(kept, node));
            assert(terms::is_whole(plan, node) == replay::full(kept, node));
            decision::law_all_decided(plan.flow, plan.added, undecided, order.take(i));
            assert(before.contains_key(node));
            assert(before[node].keys == undecided[node].keys);
            let keys_here = before[node].keys;
            assert(keys_here.contains(key));
            assert(!keys_here.is_empty());
            assert forall|other: NodeIndex| !#[trigger] decision::partial(undecided, other) by {
                assert(undecided.contains_key(other) ==> undecided[other].plan is None);
            }
            order::lemma_visited_once(added, mirrors, flow.nodes.len());
            decision::law_decided_before_is_full(plan.flow, plan.added, undecided, order, i);
            ancestry::lemma_above_self(edges, node);
            let viable = plan.flow.keys_viable(before, node, keys_here);
            lemma_full_by(flow, added, assigned, i, node);
            // what the decision at the node comes to
            if replay::full(before, node) || !viable {
                assert(replay::full(next, node));
                assert(replay::full(kept, node));
            } else {
                assert(decision::partial(next, node));
                guarantee::law_partial_stands(flow, added, assigned, node, i + 1);
                assert(kept[node].plan == next[node].plan);
                assert(decision::partial(kept, node));
                assert(terms::is_replayed(plan, node));
            }
            // state that leads to whole state is whole
            if exists|whole: NodeIndex| #[trigger]
                terms::is_whole(plan, whole) && whole != node && terms::leads_to(
                    edges,
                    node,
                    whole,
                ) {
                let whole = choose|whole: NodeIndex| #[trigger]
                    terms::is_whole(plan, whole) && whole != node && terms::leads_to(
                        edges,
                        node,
                        whole,
                    );
                law_above_by_ways(edges, node, whole);
                guarantee::law_plan_full_upward(flow, added, assigned);
                assert(replay::full(plan.materializations, whole));
                assert(ancestry::above(edges, whole).contains(node));
                assert(plan.materializations.dom() == kept.dom());
                assert(kept.dom().contains(node));
                assert(plan.materializations.contains_key(node));
                assert(replay::full(plan.materializations, node));
            }
            if exists|path: Seq<Column>| is_dead_end(flow, added, plan, node, path) {
                let path = choose|path: Seq<Column>| is_dead_end(flow, added, plan, node, path);
                lemma_goes_up(flow, added, assigned, path);
                keys::lemma_sources_within(flow, added, assigned, path, path.len() - 1);
                keys::lemma_asked(flow, added, assigned, node, path[0].1);
                assert forall|j: int| 0 <= j < path.len() implies !replay::full(
                    before,
                    (#[trigger] path[j]).0,
                ) by {
                    assert(!is_whole_by(flow, plan, path[j].0, node));
                    lemma_full_by(flow, added, assigned, i, path[j].0);
                }
                if viable {
                    assert(keys_here.contains(path[0].1));
                    assert(plan.flow.viable(before, node, path[0].1));
                    replay::law_all_ways_lead_to_full(plan.flow, before, node, path[0].1, path);
                    lemma_stuck(plan.flow, path.last());
                }
                assert(!viable);
            }
            if terms::is_whole(plan, node) {
                if replay::full(before, node) {
                    let whole = choose|whole: NodeIndex| #[trigger]
                        terms::is_whole(plan, whole) && is_deeper(flow, plan, whole, node)
                            && terms::leads_to(edges, node, whole);
                    if whole == node {
                        lemma_not_deeper(flow, added, assigned, node);
                    }
                } else {
                    assert(!viable);
                    let bad = choose|bad: usize| #[trigger]
                        keys_here.contains(bad) && !plan.flow.viable(before, node, bad);
                    migration::lemma_undecided(flow, added, assigned);
                    migration::lemma_with_mirrors_sources(flow.recorded(added), mirrors);
                    let path = law_some_way_ends(plan.flow, before, node, bad);
                    keys::lemma_asked(flow, added, assigned, node, bad);
                    lemma_goes_up(flow, added, assigned, path);
                    assert forall|j: int| 0 <= j < path.len() implies !is_whole_by(
                        flow,
                        plan,
                        (#[trigger] path[j]).0,
                        node,
                    ) by {
                        lemma_full_by(flow, added, assigned, i, path[j].0);
                    }
                    assert(is_dead_end(flow, added, plan, node, path));
                }
            }
        }
    }
}

/// Where all of the state at a node is kept, it is kept at every node that leads there and has
/// state. So no existing operator that new ones look into leads there.
pub proof fn law_whole_upward(
    flow: Flow,
    added: Set<NodeIndex>,
    assigned: Map<NodeIndex, Column>,
    node: NodeIndex,
    whole: NodeIndex,
)
    requires
        migration::plannable(flow, added),
    ensures
        flow.plan(added, assigned) matches Ok(plan) ==> {
            terms::is_whole(plan, whole) && terms::leads_to(plan.flow.edges, node, whole)
                && plan.materializations.contains_key(node) ==> terms::is_whole(plan, node)
                && plan.added.contains(node)
        },
{
    if let Ok(plan) = flow.plan(added, assigned) {
        if terms::is_whole(plan, whole) && terms::leads_to(plan.flow.edges, node, whole)
            && plan.materializations.contains_key(node) {
            law_above_by_ways(plan.flow.edges, node, whole);
            guarantee::law_plan_full_upward(flow, added, assigned);
            assert(replay::full(plan.materializations, whole));
            assert(ancestry::above(plan.flow.edges, whole).contains(node));
            assert(replay::full(plan.materializations, node));
            law_existing_state_left(flow, added, assigned, node);
        }
    }
}

/// State at a new node that is not looked up by any key is kept in full exactly where the node
/// leads to another that keeps all of its state, and is replayed nowhere.
pub proof fn law_unasked_state(
    flow: Flow,
    added: Set<NodeIndex>,
    assigned: Map<NodeIndex, Column>,
    node: NodeIndex,
)
    requires
        migration::plannable(flow, added),
    ensures
        flow.plan(added, assigned) matches Ok(plan) ==> {
            plan.added.contains(node) && plan.materializations.contains_key(node) && (forall|
                key: usize,
            | !#[trigger] terms::is_asked(flow, added, plan, node, key)) ==> {
                &&& terms::is_whole(plan, node) <==> exists|whole: NodeIndex| #[trigger]
                    terms::is_whole(plan, whole) && whole != node && terms::leads_to(
                        plan.flow.edges,
                        node,
                        whole,
                    )
                &&& !terms::is_replayed(plan, node)
            }
        },
{
    if let Ok(plan) = flow.plan(added, assigned) {
        if plan.added.contains(node) && plan.materializations.contains_key(node) && (forall|
            key: usize,
        | !#[trigger] terms::is_asked(flow, added, plan, node, key)) {
            let order = flow.order(added, assigned);
            let undecided = flow.undecided(added, assigned);
            let kept = flow.kept(added, assigned)->Ok_0;
            let end = plan.flow.nodes.len() as int;
            let edges = plan.flow.edges;
            guarantee::lemma_plan(flow, added, assigned);
            trim::lemma_trimmed(plan.added, kept, end);
            assert(plan.materializations.dom() == kept.dom());
            assert(kept.dom().contains(node));
            assert(undecided.contains_key(node));
            assert(kept[node].keys == undecided[node].keys);
            if terms::is_replayed(plan, node) {
                guarantee::law_plan_paths(flow, added, assigned, node);
                assert(terms::paths_of(plan, node) == replay::paths_at(
                    plan.materializations,
                    node,
                ));
                law_paths_go_up(flow, added, assigned, node, 0);
                assert(terms::is_asked(
                    flow,
                    added,
                    plan,
                    node,
                    terms::paths_of(plan, node)[0][0].1,
                ));
            }
            if terms::is_whole(plan, node) {
                assert(replay::full(plan.materializations, node));
                assert(order.take(0) =~= Seq::<VisitNode>::empty());
                assert(!replay::full(undecided, node));
                let q = lemma_becomes_full(plan.flow, plan.added, undecided, order, 0, node);
                let whole = order[q].index;
                if whole == node {
                    let key = choose|key: usize| kept[node].keys.contains(key);
                    keys::lemma_asked(flow, added, assigned, node, key);
                }
                assert(replay::full(kept, whole));
                assert(replay::full(plan.materializations, whole));
                assert(terms::is_whole(plan, whole));
                law_above_by_ways(edges, node, whole);
            }
            if exists|whole: NodeIndex| #[trigger]
                terms::is_whole(plan, whole) && whole != node && terms::leads_to(
                    edges,
                    node,
                    whole,
                ) {
                let whole = choose|whole: NodeIndex| #[trigger]
                    terms::is_whole(plan, whole) && whole != node && terms::leads_to(
                        edges,
                        node,
                        whole,
                    );
                law_above_by_ways(edges, node, whole);
                guarantee::law_plan_full_upward(flow, added, assigned);
                assert(replay::full(plan.materializations, whole));
                assert(ancestry::above(edges, whole).contains(node));
                assert(replay::full(plan.materializations, node));
            }
        }
    }
}

/// The new nodes of a plan are those that were added and the mirrors, and the operators of the
/// graph are in it as they were.
pub proof fn law_nodes(flow: Flow, added: Set<NodeIndex>, assigned: Map<NodeIndex, Column>)
    requires
        migration::plannable(flow, added),
    ensures
        flow.plan(added, assigned) matches Ok(plan) ==> {
            &&& flow.nodes.len() <= plan.flow.nodes.len() <= u32::MAX
            &&& forall|node: NodeIndex|
                #![trigger plan.flow.nodes[node as int]]
                node < flow.nodes.len() ==> plan.flow.nodes[node as int] == flow.nodes[node as int]
            &&& forall|node: NodeIndex| #[trigger]
                plan.added.contains(node) <==> added.contains(node) || flow.nodes.len() <= node
                    < plan.flow.nodes.len()
        },
{
    if let Ok(plan) = flow.plan(added, assigned) {
        guarantee::lemma_plan(flow, added, assigned);
        guarantee::law_operators_kept(flow, added, assigned);
        assert forall|node: NodeIndex|
            #![trigger plan.flow.nodes[node as int]]
            node < flow.nodes.len() implies plan.flow.nodes[node as int]
            == flow.nodes[node as int] by {
            assert(plan.flow.nodes.take(flow.nodes.len() as int)[node as int]
                == flow.nodes[node as int]);
        }
    }
}

/// The paths by way of the first sources all go on by one of them.
proof fn lemma_paths_by_step(
    flow: Flow,
    materializations: Map<NodeIndex, MaterializationView>,
    node: NodeIndex,
    column: usize,
    end: int,
    i: int,
)
    requires
        end <= flow.source_of(node, column).len(),
        0 <= i < flow.paths_by(materializations, node, column, end).len(),
    ensures
        ({
            let path = flow.paths_by(materializations, node, column, end)[i];
            path.len() > 1 && exists|k: int|
                0 <= k < end && (#[trigger] flow.source_of(node, column)[k]) == (
                    path[1].0,
                    Some(path[1].1),
                )
        }),
    decreases end,
{
    let all = flow.paths_by(materializations, node, column, end);
    if end > 0 {
        let before = flow.paths_by(materializations, node, column, end - 1);
        if i < before.len() {
            assert(all[i] == before[i]);
            lemma_paths_by_step(flow, materializations, node, column, end - 1, i);
            let k = choose|k: int|
                0 <= k < end - 1 && (#[trigger] flow.source_of(node, column)[k]) == (
                    all[i][1].0,
                    Some(all[i][1].1),
                );
            assert(flow.source_of(node, column)[k] == (all[i][1].0, Some(all[i][1].1)));
        } else {
            let (ancestor, supplied) = flow.source_of(node, column)[end - 1];
            let further = flow.paths(materializations, ancestor, supplied->0);
            replay::law_paths_replay(flow, materializations, ancestor, supplied->0);
            let rest = further[i - before.len()];
            assert(flow.replays(materializations, ancestor, supplied->0, rest));
            assert(all[i] == seq![(node, column)] + rest);
            assert(all[i][1] == rest[0]);
        }
    }
}

/// Whether no operator lists a source of a column twice.
pub open spec fn sources_differ(flow: Flow) -> bool {
    forall|node: int, column: int|
        0 <= node < flow.nodes.len() && 0 <= column < flow.nodes[node].sources.len() ==> (
        #[trigger] flow.nodes[node].sources[column]).no_duplicates()
}

/// Where no source is listed twice, a column has no path twice.
pub proof fn law_paths_differ(
    flow: Flow,
    materializations: Map<NodeIndex, MaterializationView>,
    node: NodeIndex,
    column: usize,
)
    requires
        flow.sources_precede(),
        sources_differ(flow),
        node < flow.nodes.len(),
    ensures
        flow.paths(materializations, node, column).no_duplicates(),
    decreases node, flow.source_of(node, column).len() + 1,
{
    if !replay::full(materializations, node) {
        lemma_paths_by_differ(
            flow,
            materializations,
            node,
            column,
            flow.source_of(node, column).len() as int,
        );
    }
}

/// Where no source is listed twice, there is no path twice by way of the first sources.
proof fn lemma_paths_by_differ(
    flow: Flow,
    materializations: Map<NodeIndex, MaterializationView>,
    node: NodeIndex,
    column: usize,
    end: int,
)
    requires
        flow.sources_precede(),
        sources_differ(flow),
        node < flow.nodes.len(),
        end <= flow.source_of(node, column).len(),
    ensures
        flow.paths_by(materializations, node, column, end).no_duplicates(),
    decreases node, end,
{
    if end > 0 {
        let sources = flow.source_of(node, column);
        let before = flow.paths_by(materializations, node, column, end - 1);
        let all = flow.paths_by(materializations, node, column, end);
        let (ancestor, supplied) = sources[end - 1];
        lemma_paths_by_differ(flow, materializations, node, column, end - 1);
        assert(column < flow.nodes[node as int].sources.len());
        assert(flow.nodes[node as int].sources[column as int] == sources);
        assert(sources.no_duplicates());
        if supplied is Some && ancestor < node {
            let further = flow.paths(materializations, ancestor, supplied->0);
            law_paths_differ(flow, materializations, ancestor, supplied->0);
            replay::law_paths_replay(flow, materializations, ancestor, supplied->0);
            assert forall|i: int, j: int|
                0 <= i < j < all.len() implies #[trigger] all[i] != #[trigger] all[j] by {
                if j < before.len() {
                    assert(all[i] == before[i]);
                    assert(all[j] == before[j]);
                } else {
                    let rest = further[j - before.len()];
                    assert(all[j] == seq![(node, column)] + rest);
                    assert(all[j].skip(1) =~= rest);
                    if i < before.len() {
                        assert(all[i] == before[i]);
                        lemma_paths_by_step(
                            flow,
                            materializations,
                            node,
                            column,
                            end - 1,
                            i,
                        );
                        let k = choose|k: int|
                            0 <= k < end - 1 && (#[trigger] flow.source_of(node, column)[k]) == (
                                before[i][1].0,
                                Some(before[i][1].1),
                            );
                        assert(flow.replays(materializations, ancestor, supplied->0, rest));
                        assert(all[j][1] == rest[0]);
                        assert(sources[k] != sources[end - 1]);
                    } else {
                        let other = further[i - before.len()];
                        assert(all[i] == seq![(node, column)] + other);
                        assert(all[i].skip(1) =~= other);
                        assert(other != rest);
                    }
                }
            }
        }
    }
}

/// Where no source is listed twice, keys have no path twice.
proof fn lemma_key_paths_differ(
    flow: Flow,
    materializations: Map<NodeIndex, MaterializationView>,
    node: NodeIndex,
    keys: Seq<usize>,
)
    requires
        flow.sources_precede(),
        sources_differ(flow),
        node < flow.nodes.len(),
        keys.no_duplicates(),
    ensures
        flow.key_paths(materializations, node, keys).no_duplicates(),
    decreases keys.len(),
{
    if keys.len() > 0 {
        let earlier = keys.drop_last();
        let before = flow.key_paths(materializations, node, earlier);
        let own = flow.paths(materializations, node, keys.last());
        let all = flow.key_paths(materializations, node, keys);
        lemma_key_paths_differ(flow, materializations, node, earlier);
        law_paths_differ(flow, materializations, node, keys.last());
        replay::law_paths_replay(flow, materializations, node, keys.last());
        assert forall|i: int, j: int|
            0 <= i < j < all.len() implies #[trigger] all[i] != #[trigger] all[j] by {
            if j < before.len() {
                assert(all[i] == before[i]);
                assert(all[j] == before[j]);
            } else {
                assert(all[j] == own[j - before.len()]);
                assert(flow.replays(
                    materializations,
                    node,
                    keys.last(),
                    own[j - before.len()],
                ));
                if i < before.len() {
                    replay::lemma_key_paths(flow, materializations, node, earlier, i);
                    let k = choose|k: int|
                        0 <= k < earlier.len() && flow.replays(
                            materializations,
                            node,
                            #[trigger] earlier[k],
                            before[i],
                        );
                    assert(earlier[k] == keys[k]);
                    assert(keys[k] != keys[keys.len() - 1]);
                } else {
                    assert(all[i] == own[i - before.len()]);
                }
            }
        }
    }
}

/// Two paths of a node are the same only where they were cut short: where no operator lists a
/// source twice, and all of the state at the end of a path is kept because of nodes further from
/// the base tables, the path is there once.
pub proof fn law_path_is_there_once(
    flow: Flow,
    added: Set<NodeIndex>,
    assigned: Map<NodeIndex, Column>,
    node: NodeIndex,
    i: int,
    j: int,
)
    requires
        migration::plannable(flow, added),
        flow.topological(),
        sources_differ(flow),
        i != j,
    ensures
        flow.plan(added, assigned) matches Ok(plan) ==> {
            let paths = terms::paths_of(plan, node);
            plan.added.contains(node) && terms::is_replayed(plan, node) && 0 <= i < paths.len()
                && 0 <= j < paths.len() && is_whole_by(flow, plan, paths[i].last().0, node)
                ==> paths[i] != paths[j]
        },
{
    if let Ok(plan) = flow.plan(added, assigned) {
        let paths = terms::paths_of(plan, node);
        if plan.added.contains(node) && terms::is_replayed(plan, node) && 0 <= i < paths.len() && 0
            <= j < paths.len() && is_whole_by(flow, plan, paths[i].last().0, node) && paths[i]
            == paths[j] {
            let kept = flow.kept(added, assigned)->Ok_0;
            let undecided = flow.undecided(added, assigned);
            let order = flow.order(added, assigned);
            let mirrors = flow.new_mirrors(added, assigned);
            let end = plan.flow.nodes.len() as int;
            guarantee::lemma_plan(flow, added, assigned);
            trim::lemma_trimmed(plan.added, kept, end);
            trim::lemma_trimmed_partial(plan.added, kept, end, node);
            assert forall|other: NodeIndex| !#[trigger] decision::partial(undecided, other) by {
                assert(undecided.contains_key(other) ==> undecided[other].plan is None);
            }
            assert(decision::partial(kept, node));
            let v = lemma_decided_when(plan.flow, plan.added, undecided, order, node);
            let before = plan.flow.planned(plan.added, undecided, order.take(v))->Ok_0;
            let whole = replay::paths_at(kept, node);
            let list = materialization::ascending(kept[node].keys);
            materialization::lemma_ascending(kept[node].keys);
            assert(list.no_duplicates());
            migration::lemma_undecided(flow, added, assigned);
            migration::lemma_with_mirrors_sources(flow.recorded(added), mirrors);
            assert(sources_differ(plan.flow)) by {
                law_nodes(flow, added, assigned);
                guarantee::law_operators_kept(flow, added, assigned);
                assert forall|at: int, column: int|
                    0 <= at < plan.flow.nodes.len() && 0 <= column
                        < plan.flow.nodes[at].sources.len() implies (
                #[trigger] plan.flow.nodes[at].sources[column]).no_duplicates() by {
                    if at < flow.nodes.len() {
                        assert(plan.flow.nodes[(at as NodeIndex) as int] == flow.nodes[at]);
                        assert(flow.nodes[at].sources[column].no_duplicates());
                    } else {
                        let mirrored = mirrors[at - flow.nodes.len()].node as int;
                        assert(plan.flow.nodes[flow.nodes.len() + (at - flow.nodes.len())]
                            == flow.nodes[mirrored]);
                        assert(flow.nodes[mirrored].sources[column].no_duplicates());
                    }
                }
            }
            lemma_key_paths_differ(plan.flow, before, node, list);
            assert(paths == replay::paths_at(plan.materializations, node));
            assert(paths == trim::cut_all(kept, whole));
            lemma_uncut(plan.flow, before, kept, node, list, i, flow, added, assigned, v);
            lemma_uncut(plan.flow, before, kept, node, list, j, flow, added, assigned, v);
            assert(whole[i] == whole[j]);
        }
    }
}

/// A path that ends where state is full when its node is visited is not cut.
proof fn lemma_uncut(
    mirrored: Flow,
    before: Map<NodeIndex, MaterializationView>,
    kept: Map<NodeIndex, MaterializationView>,
    node: NodeIndex,
    list: Seq<usize>,
    i: int,
    flow: Flow,
    added: Set<NodeIndex>,
    assigned: Map<NodeIndex, Column>,
    v: int,
)
    requires
        migration::plannable(flow, added),
        flow.topological(),
        flow.plan(added, assigned) is Ok,
        mirrored == flow.plan(added, assigned)->Ok_0.flow,
        0 <= v < flow.order(added, assigned).len(),
        flow.order(added, assigned)[v].index == node,
        before == mirrored.planned(
            flow.plan(added, assigned)->Ok_0.added,
            flow.undecided(added, assigned),
            flow.order(added, assigned).take(v),
        )->Ok_0,
        replay::paths_at(kept, node) == mirrored.key_paths(before, node, list),
        0 <= i < replay::paths_at(kept, node).len(),
        replay::replayable(kept),
        is_whole_by(
            flow,
            flow.plan(added, assigned)->Ok_0,
            trim::cut(kept, replay::paths_at(kept, node)[i]).last().0,
            node,
        ),
    ensures
        trim::cut(kept, replay::paths_at(kept, node)[i]) == replay::paths_at(kept, node)[i],
{
    let path = replay::paths_at(kept, node)[i];
    let short = trim::cut(kept, path);
    assert(replay::passes_full(kept, path));
    trim::lemma_cut(kept, path);
    lemma_full_by(flow, added, assigned, v, short.last().0);
    replay::lemma_key_paths(mirrored, before, node, list, i);
    let k = choose|k: int|
        0 <= k < list.len() && mirrored.replays(before, node, #[trigger] list[k], path);
    let at = short.len() - 1;
    assert(short[at] == path[at]);
    if at < path.len() - 1 {
        assert(!replay::full(before, path[at].0));
    }
    assert(short =~= path);
}

} // verus!
