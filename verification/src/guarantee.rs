//! What every plan guarantees.

use vstd::prelude::*;

use crate::ancestry;
use crate::assign;
use crate::dataflow;
use crate::dataflow::Flow;
use crate::decision;
use crate::error::CommitError;
use crate::inherit;
use crate::materialization;
use crate::materialization::MaterializationView;
use crate::migration;
use crate::migration::MigrationPlanView;
use crate::order;
use crate::replay;
use crate::reshard;
use crate::reshard::{Mirror, Reshard};
use crate::resolve;
use crate::sharding::{Column, NodeIndex};
use crate::takeover;
use crate::trim;
use crate::visit;

pub mod failure;
pub mod keeping;
pub mod keys;
pub mod shards;
pub mod terms;
pub mod wiring;

verus! {

/// A key of a sharded node either fits the sharding and stays, or a copy is made for it.
pub proof fn law_key_stays_or_is_copied(
    flow: Flow,
    assigned: Map<NodeIndex, Column>,
    materializations: Map<NodeIndex, MaterializationView>,
    end: int,
    node: NodeIndex,
    key: usize,
)
    requires
        node < end <= u32::MAX,
        assigned.contains_key(node),
        materializations.contains_key(node),
        materializations[node].keys.contains(key),
    ensures
        if flow.resolve(node, key) == Some(assigned[node]) {
            flow.fitted(assigned, materializations, end)[node].keys.contains(key)
        } else {
            flow.reshards(assigned, materializations, end).contains(
                Reshard { node, column: key, want: flow.resolve(node, key)->0 },
            )
        },
{
    let keys = materializations[node].keys;
    let sharding = assigned[node];
    if flow.resolve(node, key) == Some(sharding) {
        assert(flow.fitting(node, sharding, keys).contains(key));
    } else {
        let list = materialization::ascending(keys);
        let f = |key: usize|
            if flow.resolve(node, key) == Some(sharding) {
                None
            } else {
                Some(Reshard { node, column: key, want: flow.resolve(node, key)->0 })
            };
        let own = flow.reshards_of(node, sharding, keys);
        materialization::lemma_ascending(keys);
        assert(list.contains(key));
        assert(own == list.filter_map(f));
        dataflow::lemma_filter_map_keeps(list, f, key);
        lemma_reshards(flow, assigned, materializations, end, node);
        let reshard = Reshard { node, column: key, want: flow.resolve(node, key)->0 };
        let k = choose|k: int| 0 <= k < own.len() && own[k] == reshard;
        assert(flow.reshards(assigned, materializations, end).contains(own[k]));
    }
}

/// The copies hold those of every sharded node.
proof fn lemma_reshards(
    flow: Flow,
    assigned: Map<NodeIndex, Column>,
    materializations: Map<NodeIndex, MaterializationView>,
    end: int,
    node: NodeIndex,
)
    requires
        node < end <= u32::MAX,
        assigned.contains_key(node),
        materializations.contains_key(node),
    ensures
        forall|i: int|
            0 <= i < flow.reshards_of(
                node,
                assigned[node],
                materializations[node].keys,
            ).len() ==> flow.reshards(assigned, materializations, end).contains(
                #[trigger] flow.reshards_of(node, assigned[node], materializations[node].keys)[i],
            ),
    decreases end,
{
    let own = flow.reshards_of(node, assigned[node], materializations[node].keys);
    let before = flow.reshards(assigned, materializations, end - 1);
    let all = flow.reshards(assigned, materializations, end);
    if node < end - 1 {
        lemma_reshards(flow, assigned, materializations, end - 1, node);
        assert forall|i: int| 0 <= i < own.len() implies all.contains(#[trigger] own[i]) by {
            assert(before.contains(own[i]));
            let k = choose|k: int| 0 <= k < before.len() && before[k] == own[i];
            assert(all[k] == own[i]);
        }
    } else {
        assert forall|i: int| 0 <= i < own.len() implies all.contains(#[trigger] own[i]) by {
            assert(all[before.len() + i] == own[i]);
        }
    }
}

/// The keys that a sharded node keeps all resolve to its sharding.
pub proof fn law_kept_keys_fit(
    flow: Flow,
    assigned: Map<NodeIndex, Column>,
    materializations: Map<NodeIndex, MaterializationView>,
    end: int,
    node: NodeIndex,
    key: usize,
)
    requires
        node < end,
        assigned.contains_key(node),
        materializations.contains_key(node),
        flow.fitted(assigned, materializations, end)[node].keys.contains(key),
    ensures
        flow.resolve(node, key) == Some(assigned[node]),
        materializations[node].keys.contains(key),
{
    assert(flow.fitting(node, assigned[node], materializations[node].keys).contains(key));
}

/// A lookup of a new node is among the lookups.
pub proof fn lemma_lookups(flow: Flow, added: Set<NodeIndex>, end: int, node: NodeIndex, i: int)
    requires
        node < end <= flow.nodes.len(),
        end <= u32::MAX,
        added.contains(node),
        0 <= i < flow.nodes[node as int].lookups.len(),
    ensures
        flow.lookups(added, end).contains(flow.nodes[node as int].lookups[i]),
    decreases end,
{
    let lookup = flow.nodes[node as int].lookups[i];
    let before = flow.lookups(added, end - 1);
    let all = flow.lookups(added, end);
    if node < end - 1 {
        lemma_lookups(flow, added, end - 1, node, i);
        let k = choose|k: int| 0 <= k < before.len() && before[k] == lookup;
        assert(all[k] == lookup);
    } else {
        assert(all[before.len() + i] == lookup);
    }
}

/// Lookups are served by keys of what they look into.
proof fn lemma_serving(lookups: Seq<Column>, lookup: Column)
    requires
        lookups.contains(lookup),
    ensures
        materialization::serving(lookups).contains_key(lookup.0),
        materialization::serving(lookups)[lookup.0].keys.contains(lookup.1),
{
    let f = |column: Column|
        if column.0 == lookup.0 {
            Some(column.1)
        } else {
            None
        };
    assert(materialization::columns_at(lookups, lookup.0) == lookups.filter_map(f));
    dataflow::lemma_filter_map_keeps(lookups, f, lookup);
    assert(materialization::columns_at(lookups, lookup.0).to_set().contains(lookup.1));
}

/// Whether a node is another node or a mirror of it. The first mirror has the index `first`.
pub open spec fn stands_for(
    mirrors: Seq<Mirror>,
    first: nat,
    node: NodeIndex,
    mirrored: NodeIndex,
) -> bool {
    node == mirrored || first <= node < first + mirrors.len() && mirrors[node - first].node
        == mirrored
}

/// Every lookup that a new node does is served: by state at the operator that it looks into or at a
/// mirror of it, keyed by the column of the lookup.
pub proof fn law_lookups_served(
    flow: Flow,
    added: Set<NodeIndex>,
    assigned: Map<NodeIndex, Column>,
    node: NodeIndex,
    i: int,
)
    requires
        flow.wf(),
        added.contains(node),
        node < flow.nodes.len(),
        0 <= i < flow.nodes[node as int].lookups.len(),
    ensures
        flow.plan(added, assigned) matches Ok(plan) ==> {
            let lookup = flow.nodes[node as int].lookups[i];
            exists|at: NodeIndex|
                stands_for(flow.new_mirrors(added, assigned), flow.nodes.len(), at, lookup.0)
                    && #[trigger] plan.materializations.contains_key(at)
                    && plan.materializations[at].keys.contains(lookup.1)
        },
{
    if let Ok(plan) = flow.plan(added, assigned) {
        let lookup = flow.nodes[node as int].lookups[i];
        let end = flow.nodes.len() as int;
        let first = flow.nodes.len();
        let recorded = flow.recorded(added);
        let demanded = flow.demanded(added);
        let sharded = flow.sharded(added, assigned);
        let copies = flow.copies(added, assigned);
        let mirrors = flow.new_mirrors(added, assigned);
        let undecided = flow.undecided(added, assigned);
        migration::lemma_undecided(flow, added, assigned);
        lemma_lookups(recorded, added, end, node, i);
        lemma_serving(recorded.lookups(added, end), lookup);
        assert(demanded.contains_key(lookup.0));
        let at = if sharded.contains_key(lookup.0) {
            law_key_stays_or_is_copied(recorded, sharded, demanded, end, lookup.0, lookup.1);
            if recorded.resolve(lookup.0, lookup.1) == Some(sharded[lookup.0]) {
                lookup.0
            } else {
                let reshard = Reshard {
                    node: lookup.0,
                    column: lookup.1,
                    want: recorded.resolve(lookup.0, lookup.1)->0,
                };
                let mirror = reshard.mirror();
                reshard::lemma_mirrors(copies);
                let i = choose|i: int| 0 <= i < copies.len() && copies[i] == reshard;
                assert(mirrors.contains(copies[i].mirror()));
                let k = choose|k: int| 0 <= k < mirrors.len() && mirrors[k] == mirror;
                assert(reshard::mirror_keys(copies, mirror).contains(lookup.1));
                assert(undecided[(first + k) as NodeIndex].keys == reshard::mirror_keys(
                    copies,
                    mirror,
                ));
                (first + k) as NodeIndex
            }
        } else {
            lookup.0
        };
        assert(undecided.contains_key(at) && undecided[at].keys.contains(lookup.1));
        lemma_plan_keys(flow, added, assigned);
        assert(plan.materializations[at].keys.contains(lookup.1));
    }
}

/// A plan has the materializations that were not decided yet, and all their keys.
pub proof fn lemma_plan_keys(flow: Flow, added: Set<NodeIndex>, assigned: Map<NodeIndex, Column>)
    requires
        flow.wf(),
    ensures
        flow.plan(added, assigned) matches Ok(plan) ==> {
            &&& plan.materializations.dom() == flow.undecided(added, assigned).dom()
            &&& trim::keys_kept(flow.undecided(added, assigned), plan.materializations)
        },
{
    if let Ok(plan) = flow.plan(added, assigned) {
        let kept = flow.kept(added, assigned)->Ok_0;
        lemma_plan(flow, added, assigned);
        trim::lemma_trimmed(plan.added, kept, plan.flow.nodes.len() as int);
        trim::law_keyed_along_paths(plan.added, kept, plan.flow.nodes.len() as int);
        let undecided = flow.undecided(added, assigned);
        assert forall|node: NodeIndex, key: usize|
            undecided.contains_key(node) && undecided[node].keys.contains(
                key,
            ) implies plan.materializations.contains_key(node)
            && #[trigger] plan.materializations[node].keys.contains(key) by {
            assert(kept[node].keys == undecided[node].keys);
        }
    }
}

/// The parts of a plan.
pub proof fn lemma_plan(flow: Flow, added: Set<NodeIndex>, assigned: Map<NodeIndex, Column>)
    requires
        flow.wf(),
    ensures
        flow.plan(added, assigned) matches Ok(plan) ==> {
            let kept = flow.kept(added, assigned)->Ok_0;
            &&& flow.kept(added, assigned) is Ok
            &&& plan.flow.nodes.len() == flow.nodes.len() + flow.new_mirrors(added, assigned).len()
            &&& plan.flow.nodes.len() <= u32::MAX
            &&& replay::replayable(kept)
            &&& decision::decided_further(flow.undecided(added, assigned), kept)
        },
{
    if flow.plan(added, assigned) is Ok {
        let recorded = flow.recorded(added);
        let mirrored = flow.mirrored(added, assigned);
        migration::lemma_undecided(flow, added, assigned);
        reshard::lemma_with_mirrors(recorded, flow.new_mirrors(added, assigned));
        replay::lemma_planned_replayable(
            mirrored,
            flow.all_new(added, assigned),
            flow.undecided(added, assigned),
            flow.order(added, assigned),
        );
        decision::law_all_decided(
            mirrored,
            flow.all_new(added, assigned),
            flow.undecided(added, assigned),
            flow.order(added, assigned),
        );
    }
}

/// No partial materialization of a plan is above a full one.
pub proof fn law_plan_full_upward(
    flow: Flow,
    added: Set<NodeIndex>,
    assigned: Map<NodeIndex, Column>,
)
    requires
        flow.wf(),
    ensures
        flow.plan(added, assigned) matches Ok(plan) ==> decision::full_upward(
            plan.flow.edges,
            plan.materializations,
        ),
{
    if let Ok(plan) = flow.plan(added, assigned) {
        let kept = flow.kept(added, assigned)->Ok_0;
        let undecided = flow.undecided(added, assigned);
        lemma_plan(flow, added, assigned);
        assert forall|node: NodeIndex| !#[trigger] replay::full(undecided, node) by {
            assert(undecided.contains_key(node) ==> undecided[node].plan is None);
        }
        decision::law_no_partial_above_full(
            plan.flow,
            plan.added,
            undecided,
            flow.order(added, assigned),
        );
        trim::lemma_trimmed(plan.added, kept, plan.flow.nodes.len() as int);
        let after = plan.materializations;
        assert(forall|node: NodeIndex| #[trigger]
            replay::full(after, node) == replay::full(kept, node));
    }
}

/// Partial state at a new node is replayed over paths that start at the node by one of its keys,
/// lead up through what supplies the key, end in a full materialization and pass none before. There
/// is at least one such path.
pub proof fn law_plan_paths(
    flow: Flow,
    added: Set<NodeIndex>,
    assigned: Map<NodeIndex, Column>,
    node: NodeIndex,
)
    requires
        flow.wf(),
    ensures
        flow.plan(added, assigned) matches Ok(plan) ==> (plan.added.contains(node) && node
            < plan.flow.nodes.len() && decision::partial(plan.materializations, node) ==> {
            let paths = replay::paths_at(plan.materializations, node);
            &&& paths.len() > 0
            &&& forall|i: int|
                #![trigger paths[i]]
                0 <= i < paths.len() ==> {
                    &&& paths[i].len() > 0
                    &&& paths[i][0].0 == node
                    &&& plan.materializations[node].keys.contains(paths[i][0].1)
                    &&& plan.flow.follows(paths[i])
                    &&& replay::ends_full(plan.materializations, paths[i])
                }
        }),
{
    if let Ok(plan) = flow.plan(added, assigned) {
        let kept = flow.kept(added, assigned)->Ok_0;
        let undecided = flow.undecided(added, assigned);
        let end = plan.flow.nodes.len() as int;
        let after = plan.materializations;
        lemma_plan(flow, added, assigned);
        assert forall|other: NodeIndex| #[trigger]
            decision::paths_lead(plan.flow, undecided, other) by {
            assert(undecided.contains_key(other) ==> undecided[other].plan is None);
            assert(replay::paths_at(undecided, other).len() == 0);
        }
        decision::law_paths_lead(plan.flow, plan.added, undecided, flow.order(added, assigned));
        trim::lemma_trimmed(plan.added, kept, end);
        trim::law_keyed_along_paths(plan.added, kept, end);
        if plan.added.contains(node) && node < end && decision::partial(after, node) {
            let whole = replay::paths_at(kept, node);
            let paths = replay::paths_at(after, node);
            assert(paths == trim::cut_all(kept, whole));
            assert(decision::paths_lead(plan.flow, kept, node));
            assert forall|i: int|
                #![trigger paths[i]]
                0 <= i < paths.len() implies {
                &&& paths[i].len() > 0
                &&& paths[i][0].0 == node
                &&& after[node].keys.contains(paths[i][0].1)
                &&& plan.flow.follows(paths[i])
                &&& replay::ends_full(after, paths[i])
            } by {
                trim::law_trimmed_to_first_full(plan.added, kept, end, node, i);
                assert(paths[i].is_prefix_of(whole[i]));
                assert(paths[i][0] == whole[i][0]);
                assert(kept[node].keys.contains(whole[i][0].1));
                assert(plan.flow.follows(whole[i]));
                assert forall|j: int, k: int|
                    0 <= j && k == j + 1 && k < paths[i].len() implies plan.flow.supplied_by(
                    #[trigger] paths[i][j],
                    #[trigger] paths[i][k],
                ) by {
                    assert(paths[i][j] == whole[i][j]);
                    assert(paths[i][k] == whole[i][k]);
                }
            }
            lemma_plan_has_paths(flow, added, assigned, node);
        }
    }
}

/// Partial state at a new node has a path to replay it over for each of the keys that it is looked
/// up by.
pub proof fn law_key_has_path(
    flow: Flow,
    added: Set<NodeIndex>,
    assigned: Map<NodeIndex, Column>,
    node: NodeIndex,
    key: usize,
)
    requires
        flow.wf(),
        flow.plan(added, assigned) is Ok,
        flow.plan(added, assigned)->Ok_0.added.contains(node),
        node < flow.plan(added, assigned)->Ok_0.flow.nodes.len(),
        decision::partial(flow.plan(added, assigned)->Ok_0.materializations, node),
        flow.undecided(added, assigned)[node].keys.contains(key),
    ensures
        decision::has_path(flow.plan(added, assigned)->Ok_0.materializations, node, key),
{
    let plan = flow.plan(added, assigned)->Ok_0;
    let kept = flow.kept(added, assigned)->Ok_0;
    let undecided = flow.undecided(added, assigned);
    let end = plan.flow.nodes.len() as int;
    lemma_plan(flow, added, assigned);
    assert forall|other: NodeIndex| !#[trigger] decision::partial(undecided, other) by {
        assert(undecided.contains_key(other) ==> undecided[other].plan is None);
    }
    decision::law_keys_have_paths(plan.flow, plan.added, undecided, flow.order(added, assigned));
    trim::lemma_trimmed(plan.added, kept, end);
    trim::lemma_trimmed_partial(plan.added, kept, end, node);
    assert(kept[node].keys == undecided[node].keys);
    assert(decision::has_path(kept, node, key));
    let whole = replay::paths_at(kept, node);
    let paths = replay::paths_at(plan.materializations, node);
    let i = choose|i: int|
        #![trigger whole[i]]
        0 <= i < whole.len() && whole[i].len() > 0 && whole[i][0] == (node, key);
    trim::law_trimmed_to_first_full(plan.added, kept, end, node, i);
    assert(paths[i].is_prefix_of(whole[i]));
    assert(paths[i][0] == (node, key));
}

/// Partial state has a path.
proof fn lemma_plan_has_paths(
    flow: Flow,
    added: Set<NodeIndex>,
    assigned: Map<NodeIndex, Column>,
    node: NodeIndex,
)
    requires
        flow.wf(),
        flow.plan(added, assigned) is Ok,
        decision::partial(flow.plan(added, assigned)->Ok_0.materializations, node),
    ensures
        replay::paths_at(flow.plan(added, assigned)->Ok_0.materializations, node).len() > 0,
{
    let plan = flow.plan(added, assigned)->Ok_0;
    let kept = flow.kept(added, assigned)->Ok_0;
    let undecided = flow.undecided(added, assigned);
    lemma_plan(flow, added, assigned);
    assert forall|other: NodeIndex| !#[trigger] decision::partial(undecided, other) by {
        assert(undecided.contains_key(other) ==> undecided[other].plan is None);
    }
    lemma_planned_has_paths(
        plan.flow,
        plan.added,
        undecided,
        flow.order(added, assigned),
    );
    trim::lemma_trimmed(plan.added, kept, plan.flow.nodes.len() as int);
    trim::lemma_trimmed_partial(plan.added, kept, plan.flow.nodes.len() as int, node);
    assert(decision::partial(kept, node));
    assert(replay::paths_at(kept, node).len() > 0);
}

/// State that is decided to be replayed on demand has a path.
proof fn lemma_planned_has_paths(
    flow: Flow,
    added: Set<NodeIndex>,
    materializations: Map<NodeIndex, MaterializationView>,
    order: Seq<visit::VisitNode>,
)
    requires
        forall|node: NodeIndex| !#[trigger] decision::partial(materializations, node),
    ensures
        flow.planned(added, materializations, order) matches Ok(after) ==> forall|node: NodeIndex|
            #[trigger] decision::partial(after, node) ==> replay::paths_at(after, node).len() > 0,
    decreases order.len(),
{
    if order.len() > 0 {
        lemma_planned_has_paths(flow, added, materializations, order.drop_last());
        if let Ok(before) = flow.planned(added, materializations, order.drop_last()) {
            if let Ok(after) = flow.decided(added, before, order.last().index) {
                assert forall|node: NodeIndex| #[trigger]
                    decision::partial(after, node) implies replay::paths_at(after, node).len()
                    > 0 by {
                    if decision::partial(before, node) {
                        assert(replay::paths_at(before, node).len() > 0);
                    } else {
                        let keys = before[node].keys;
                        let list = materialization::ascending(keys);
                        let key = choose|key: usize| keys.contains(key);
                        materialization::lemma_ascending(keys);
                        assert(list.contains(key));
                        assert(list.contains(list[list.len() - 1]));
                        assert(flow.viable(before, node, list.last()));
                        replay::lemma_viable_has_path(flow, before, node, list.last());
                    }
                }
            }
        }
    }
}

/// Every new node is visited.
pub proof fn lemma_visited(
    flow: Flow,
    added: Set<NodeIndex>,
    assigned: Map<NodeIndex, Column>,
    node: NodeIndex,
)
    requires
        flow.nodes.len() + flow.new_mirrors(added, assigned).len() <= u32::MAX,
        flow.all_new(added, assigned).contains(node),
        node < flow.nodes.len() + flow.new_mirrors(added, assigned).len(),
    ensures
        decision::visited(flow.order(added, assigned), node),
{
    broadcast use vstd::seq_lib::group_to_multiset_ensures;

    let first = flow.nodes.len();
    let new = reshard::new_visits(added, first as int);
    let mirrors = reshard::mirror_visits(flow.new_mirrors(added, assigned), first);
    let nodes = order::to_visit(added, flow.new_mirrors(added, assigned), first);
    let order = flow.order(added, assigned);
    visit::lemma_visit_order_total();
    nodes.lemma_sort_by_ensures(visit::visit_order());
    let k = if node < first {
        lemma_new_visited(added, first as int, node);
        let k = choose|k: int| 0 <= k < new.len() && (#[trigger] new[k]).index == node;
        assert(nodes[k] == new[k]);
        k
    } else {
        assert(nodes[new.len() + (node - first)] == mirrors[node - first]);
        new.len() + (node - first)
    };
    assert(nodes.contains(nodes[k]));
    assert(nodes.to_multiset().contains(nodes[k]));
    assert(order.contains(nodes[k]));
    let i = choose|i: int| 0 <= i < order.len() && order[i] == nodes[k];
    assert(order[i].index == node);
}

/// Every new node is among those to visit.
proof fn lemma_new_visited(added: Set<NodeIndex>, end: int, node: NodeIndex)
    requires
        node < end <= u32::MAX,
        added.contains(node),
    ensures
        decision::visited(reshard::new_visits(added, end), node),
    decreases end,
{
    let before = reshard::new_visits(added, end - 1);
    let all = reshard::new_visits(added, end);
    if node < end - 1 {
        lemma_new_visited(added, end - 1, node);
        let k = choose|k: int| 0 <= k < before.len() && (#[trigger] before[k]).index == node;
        assert(all[k].index == node);
    } else {
        assert(all[before.len() as int].index == node);
    }
}

/// Of all state that is looked up at a new node it is decided how it is kept.
pub proof fn law_plan_decided(
    flow: Flow,
    added: Set<NodeIndex>,
    assigned: Map<NodeIndex, Column>,
    node: NodeIndex,
)
    requires
        flow.wf(),
    ensures
        flow.plan(added, assigned) matches Ok(plan) ==> (plan.added.contains(node) && node
            < plan.flow.nodes.len() && flow.undecided(added, assigned).contains_key(node)
            && !flow.undecided(added, assigned)[node].keys.is_empty()
            ==> plan.materializations.contains_key(node)
            && plan.materializations[node].plan is Some),
{
    if let Ok(plan) = flow.plan(added, assigned) {
        let kept = flow.kept(added, assigned)->Ok_0;
        let undecided = flow.undecided(added, assigned);
        let order = flow.order(added, assigned);
        lemma_plan(flow, added, assigned);
        if plan.added.contains(node) && node < plan.flow.nodes.len() && undecided.contains_key(node)
            && !undecided[node].keys.is_empty() {
            lemma_visited(flow, added, assigned, node);
            decision::law_all_decided(plan.flow, plan.added, undecided, order);
            let i = choose|i: int| 0 <= i < order.len() && (#[trigger] order[i]).index == node;
            assert(kept[order[i].index].keys == undecided[node].keys);
            assert(kept[node].plan is Some);
            trim::lemma_trimmed(plan.added, kept, plan.flow.nodes.len() as int);
            trim::lemma_trimmed_partial(
                plan.added,
                kept,
                plan.flow.nodes.len() as int,
                node,
            );
        }
    }
}

/// Every new node is sharded. What is sharded by lookups, or was sharded, stays so; a mirror is
/// sharded by what it is for; and any other new node has the sharding of a parent.
pub proof fn law_plan_shardings(
    flow: Flow,
    added: Set<NodeIndex>,
    assigned: Map<NodeIndex, Column>,
    node: NodeIndex,
)
    requires
        migration::plannable(flow, added),
    ensures
        flow.plan(added, assigned) matches Ok(plan) ==> {
            let sharded = flow.sharded(added, assigned);
            let mirrors = flow.new_mirrors(added, assigned);
            let first = flow.nodes.len();
            &&& plan.added.contains(node) ==> plan.shardings.contains_key(node)
            &&& node < first && sharded.contains_key(node) ==> plan.shardings.contains_key(node)
                && plan.shardings[node] == sharded[node]
            &&& first <= node < first + mirrors.len() ==> plan.shardings.contains_key(node)
                && plan.shardings[node] == mirrors[node - first].want
            &&& plan.added.contains(node) && node < first && !sharded.contains_key(node)
                ==> inherit::takes_after_parent(plan.flow.edges, plan.shardings, node)
        },
{
    if let Ok(plan) = flow.plan(added, assigned) {
        let determined = flow.determined(added, assigned);
        let end = plan.flow.nodes.len() as int;
        let waiting = inherit::unsharded_new(plan.added, determined, end);
        lemma_plan(flow, added, assigned);
        inherit::lemma_unsharded_new(plan.added, determined, end);
        assert forall|i: int| 0 <= i < waiting.len() implies !determined.contains_key(
            #[trigger] waiting[i],
        ) by {
            assert(waiting.contains(waiting[i]));
        }
        inherit::law_inherited(plan.flow.edges, determined, waiting);
        if plan.added.contains(node) {
            assert(node < end);
            if !determined.contains_key(node) {
                assert(waiting.contains(node));
                let i = choose|i: int| 0 <= i < waiting.len() && waiting[i] == node;
                assert(inherit::takes_after_parent(plan.flow.edges, plan.shardings, waiting[i]));
            }
            assert(determined.dom().union(waiting.to_set()).contains(node));
        }
        if determined.contains_key(node) {
            assert(determined.dom().union(waiting.to_set()).contains(node));
            assert(determined.dom().contains(node) && plan.shardings.dom().contains(node));
        }
    }
}

/// Where nothing else is in the way, a migration comes to no plan exactly if there is a new node
/// that no sharding gets to along edges, from a node that has one by way of new nodes.
pub proof fn law_no_progress(flow: Flow, added: Set<NodeIndex>, assigned: Map<NodeIndex, Column>)
    requires
        migration::plannable(flow, added),
        flow.columns_exist(added, assigned),
        flow.has_room(added, assigned),
        flow.kept(added, assigned) is Ok,
    ensures
        ({
            let new = flow.all_new(added, assigned);
            let edges = flow.mirrored(added, assigned).edges;
            let determined = flow.determined(added, assigned).dom();
            if exists|node: NodeIndex| #[trigger]
                new.contains(node) && !inherit::reached(edges, determined, new, node) {
                flow.plan(added, assigned) == Err::<MigrationPlanView, CommitError>(
                    CommitError::NoProgress,
                )
            } else {
                flow.plan(added, assigned) is Ok
            }
        }),
{
    let new = flow.all_new(added, assigned);
    let mirrored = flow.mirrored(added, assigned);
    let determined = flow.determined(added, assigned);
    let end = mirrored.nodes.len() as int;
    let waiting = inherit::unsharded_new(new, determined, end);
    reshard::lemma_with_mirrors(flow.recorded(added), flow.new_mirrors(added, assigned));
    inherit::lemma_unsharded_new(new, determined, end);
    assert forall|i: int| 0 <= i < waiting.len() implies !determined.contains_key(
        #[trigger] waiting[i],
    ) by {
        assert(waiting.contains(waiting[i]));
    }
    inherit::law_inherited(mirrored.edges, determined, waiting);
    assert forall|node: NodeIndex| #[trigger]
        inherit::reached(mirrored.edges, determined.dom(), new, node) <==> inherit::reached(
            mirrored.edges,
            determined.dom(),
            waiting.to_set(),
            node,
        ) by {
        assert forall|other: NodeIndex| #[trigger]
            determined.dom().contains(other) implies inherit::reached(
            mirrored.edges,
            determined.dom(),
            new,
            other,
        ) by {
            assert(inherit::gets_to(mirrored.edges, determined.dom(), new, other, 0));
        }
        assert forall|other: NodeIndex| waiting.to_set().contains(other) implies new.contains(
            other,
        ) by {
            assert(waiting.contains(other));
        }
        assert forall|other: NodeIndex|
            new.contains(other) implies determined.dom().union(waiting.to_set()).contains(
            other,
        ) by {
            assert(other < end);
            assert(waiting.contains(other) || determined.contains_key(other));
        }
        inherit::lemma_reached_on(
            mirrored.edges,
            determined.dom(),
            new,
            determined.dom(),
            waiting.to_set(),
            node,
        );
    }
    match inherit::inherited(mirrored.edges, determined, waiting) {
        Ok(_) => {
            assert forall|node: NodeIndex| #[trigger] new.contains(node) implies inherit::reached(
                mirrored.edges,
                determined.dom(),
                new,
                node,
            ) by {
                if determined.contains_key(node) {
                    assert(inherit::gets_to(mirrored.edges, determined.dom(), new, node, 0));
                } else {
                    assert(node < end);
                    assert(waiting.contains(node));
                    let i = choose|i: int| 0 <= i < waiting.len() && waiting[i] == node;
                    assert(inherit::reached(
                        mirrored.edges,
                        determined.dom(),
                        waiting.to_set(),
                        waiting[i],
                    ));
                }
            }
        },
        Err(_) => {
            let i = choose|i: int|
                0 <= i < waiting.len() && !inherit::reached(
                    mirrored.edges,
                    determined.dom(),
                    waiting.to_set(),
                    #[trigger] waiting[i],
                );
            assert(waiting.contains(waiting[i]));
            assert(new.contains(waiting[i]));
        },
    }
}

/// A new node that does lookups is sharded by the state that it looks into: by what its lookup into
/// the smallest operator resolves to.
pub proof fn law_sharded_by_lookup(
    flow: Flow,
    added: Set<NodeIndex>,
    assigned: Map<NodeIndex, Column>,
    node: NodeIndex,
)
    requires
        migration::plannable(flow, added),
        added.contains(node),
        flow.leading_lookup(node) is Some,
    ensures
        flow.plan(added, assigned) matches Ok(plan) ==> {
            let lookup = flow.leading_lookup(node)->0;
            &&& plan.shardings.contains_key(node)
            &&& Some(plan.shardings[node]) == flow.resolve(lookup.0, lookup.1)
        },
{
    law_plan_shardings(flow, added, assigned, node);
    if flow.plan(added, assigned) is Ok {
        assert(flow.looks_up(added, node, flow.nodes.len() as int));
        assert(flow.lookups_of_resolve(added, node));
        assign::lemma_looked_into_is_sharded(
            flow.requirements(added, flow.nodes.len() as int),
            flow.required(added, assigned),
            flow.nodes.len() as int,
        );
        assert(flow.required(added, assigned).contains_key(node));
    }
}

/// An operator that looks into the output of a join by the join key is sharded the same way as the
/// join itself. The join key is the output column that comes from the column that the join looks up
/// by, both by way of the smallest operator.
pub proof fn law_join_key(
    flow: Flow,
    added: Set<NodeIndex>,
    assigned: Map<NodeIndex, Column>,
    join: NodeIndex,
    key: usize,
    node: NodeIndex,
)
    requires
        migration::plannable(flow, added),
        added.contains(join),
        flow.leading_lookup(join) is Some,
        resolve::min_column(resolve::source_columns(flow.source_of(join, key)))
            == flow.leading_lookup(join),
        added.contains(node),
        flow.leading_lookup(node) == Some((join, key)),
    ensures
        flow.plan(added, assigned) matches Ok(plan) ==> plan.shardings.contains_key(node)
            && plan.shardings.contains_key(join) && plan.shardings[node] == plan.shardings[join],
{
    if flow.plan(added, assigned) is Ok {
        assign::lemma_join_key(flow, join, key);
        law_sharded_by_lookup(flow, added, assigned, node);
        law_sharded_by_lookup(flow, added, assigned, join);
    }
}

/// Every new node that is looked into by another is sharded, and every node that was sharded keeps
/// its sharding unless it is new and does lookups.
pub proof fn law_looked_into_is_sharded(
    flow: Flow,
    added: Set<NodeIndex>,
    assigned: Map<NodeIndex, Column>,
)
    requires
        migration::plannable(flow, added),
    ensures
        flow.plan(added, assigned) matches Ok(plan) ==> {
            let requirements = flow.requirements(added, flow.nodes.len() as int);
            &&& forall|i: int|
                0 <= i < requirements.len() ==> plan.shardings.contains_key(
                    (#[trigger] requirements[i]).target,
                )
            &&& forall|node: NodeIndex| #[trigger]
                assigned.contains_key(node) && node < flow.nodes.len() && !flow.looks_up(
                    added,
                    node,
                    flow.nodes.len() as int,
                ) ==> plan.shardings.contains_key(node) && plan.shardings[node] == assigned[node]
        },
{
    if let Ok(plan) = flow.plan(added, assigned) {
        let end = flow.nodes.len() as int;
        let requirements = flow.requirements(added, end);
        let required = flow.required(added, assigned);
        migration::lemma_requirements_within(flow, added, end);
        assign::lemma_looked_into_is_sharded(requirements, required, end);
        assert forall|i: int| 0 <= i < requirements.len() implies plan.shardings.contains_key(
            (#[trigger] requirements[i]).target,
        ) by {
            law_plan_shardings(flow, added, assigned, requirements[i].target);
        }
        assert forall|node: NodeIndex| #[trigger]
            assigned.contains_key(node) && node < flow.nodes.len() && !flow.looks_up(
                added,
                node,
                end,
            ) implies plan.shardings.contains_key(node) && plan.shardings[node]
            == assigned[node] by {
            law_plan_shardings(flow, added, assigned, node);
            assert(required.contains_key(node));
        }
    }
}

/// A sharding that is required of a node along an edge is what the node is sharded by, or else the
/// edge is shuffled.
pub proof fn law_required_or_shuffled(
    flow: Flow,
    added: Set<NodeIndex>,
    assigned: Map<NodeIndex, Column>,
    i: int,
)
    requires
        migration::plannable(flow, added),
        0 <= i < flow.requirements(added, flow.nodes.len() as int).len(),
        flow.recorded(added).edges.contains(
            flow.requirements(added, flow.nodes.len() as int)[i].edge(),
        ),
    ensures
        flow.plan(added, assigned) matches Ok(plan) ==> {
            let requirement = flow.requirements(added, flow.nodes.len() as int)[i];
            ||| plan.shardings.contains_key(requirement.target)
                && plan.shardings[requirement.target] == requirement.column
            ||| plan.shuffles.contains((requirement.target, requirement.child))
        },
{
    if let Ok(plan) = flow.plan(added, assigned) {
        let end = flow.nodes.len() as int;
        let requirements = flow.requirements(added, end);
        let requirement = requirements[i];
        let required = flow.required(added, assigned);
        let edges = flow.recorded(added).edges;
        let contested = flow.contested(added, assigned);
        migration::lemma_requirements_within(flow, added, end);
        let e = choose|e: int| 0 <= e < edges.len() && edges[e] == requirement.edge();
        assign::lemma_required_or_shuffled(edges, requirements, required, end, i, e);
        assign::lemma_looked_into_is_sharded(requirements, required, end);
        law_plan_shardings(flow, added, assigned, requirement.target);
        if contested.contains((requirement.target, requirement.child)) {
            let k = choose|k: int|
                0 <= k < contested.len() && contested[k] == (requirement.target, requirement.child);
            assert(plan.shuffles[k] == contested[k]);
        }
    }
}

/// In the graph of a plan each mirror feeds exactly what demanded its sharding of the node that it
/// mirrors, and the node feeds the mirror. All other edges stay, and where no two edges joined the
/// same two nodes, none do.
pub proof fn law_mirrors_take_over(
    flow: Flow,
    added: Set<NodeIndex>,
    assigned: Map<NodeIndex, Column>,
)
    requires
        flow.wf(),
    ensures
        flow.plan(added, assigned) matches Ok(plan) ==> {
            &&& plan.flow.edges == takeover::shared_out(
                flow.recorded(added).edges,
                flow.new_mirrors(added, assigned),
                flow.nodes.len(),
            )
            &&& flow.edges_single() && flow.edges_within() ==> plan.flow.edges_single()
                && plan.flow.edges_within()
        },
{
    if flow.plan(added, assigned) is Ok {
        let recorded = flow.recorded(added);
        let mirrors = flow.new_mirrors(added, assigned);
        let end = flow.nodes.len() as int;
        migration::lemma_undecided(flow, added, assigned);
        migration::lemma_requirements_within(flow, added, end);
        takeover::lemma_mirrors_take_over(recorded, mirrors);
        if flow.edges_single() && flow.edges_within() {
            takeover::lemma_with_requirements_single(
                flow.edges,
                flow.requirements(added, end),
                flow.nodes.len(),
            );
            takeover::lemma_mirrors_single(recorded, mirrors);
        }
    }
}

/// In the graph of a plan every edge runs from a lighter node to a heavier one, where the weight of
/// a mirror is between that of the node that it mirrors and the next.
pub proof fn law_edges_descend(
    flow: Flow,
    added: Set<NodeIndex>,
    assigned: Map<NodeIndex, Column>,
    e: int,
)
    requires
        flow.wf(),
        flow.topological(),
    ensures
        flow.plan(added, assigned) matches Ok(plan) ==> (0 <= e < plan.flow.edges.len()
            ==> visit::lighter(
            order::weight(
                flow.new_mirrors(added, assigned),
                flow.nodes.len(),
                plan.flow.edges[e].source,
            ),
            order::weight(
                flow.new_mirrors(added, assigned),
                flow.nodes.len(),
                plan.flow.edges[e].target,
            ),
        )),
{
    if let Ok(plan) = flow.plan(added, assigned) {
        migration::lemma_undecided(flow, added, assigned);
        migration::lemma_recorded(flow, added);
        if 0 <= e < plan.flow.edges.len() {
            order::lemma_edges_descend(
                flow.recorded(added),
                flow.new_mirrors(added, assigned),
                e,
            );
        }
    }
}

/// Nodes are visited leaves first: of two new nodes that an edge joins, also where mirrors are
/// among them, the target is visited before the source.
pub proof fn law_leaves_first(
    flow: Flow,
    added: Set<NodeIndex>,
    assigned: Map<NodeIndex, Column>,
    e: int,
    i: int,
    j: int,
)
    requires
        flow.wf(),
        flow.topological(),
        0 <= i < flow.order(added, assigned).len(),
        0 <= j < flow.order(added, assigned).len(),
    ensures
        flow.plan(added, assigned) matches Ok(plan) ==> (0 <= e < plan.flow.edges.len()
            && flow.order(added, assigned)[i].index == plan.flow.edges[e].target && flow.order(
            added,
            assigned,
        )[j].index == plan.flow.edges[e].source ==> i < j),
{
    if let Ok(plan) = flow.plan(added, assigned) {
        let order = flow.order(added, assigned);
        migration::lemma_undecided(flow, added, assigned);
        migration::lemma_recorded(flow, added);
        if 0 <= e < plan.flow.edges.len() && order[i].index == plan.flow.edges[e].target
            && order[j].index == plan.flow.edges[e].source {
            order::lemma_leaves_first(
                flow.recorded(added),
                added,
                flow.new_mirrors(added, assigned),
                e,
                i,
                j,
            );
        }
    }
}

/// Whatever is above a node is visited after it.
pub proof fn law_above_visited_later(
    flow: Flow,
    added: Set<NodeIndex>,
    assigned: Map<NodeIndex, Column>,
    i: int,
    j: int,
)
    requires
        flow.wf(),
        flow.topological(),
        0 <= i < flow.order(added, assigned).len(),
        0 <= j < flow.order(added, assigned).len(),
        flow.order(added, assigned)[i].index != flow.order(added, assigned)[j].index,
    ensures
        flow.plan(added, assigned) matches Ok(plan) ==> (ancestry::above(
            plan.flow.edges,
            flow.order(added, assigned)[i].index,
        ).contains(flow.order(added, assigned)[j].index) ==> i < j),
{
    if let Ok(plan) = flow.plan(added, assigned) {
        let order = flow.order(added, assigned);
        migration::lemma_undecided(flow, added, assigned);
        migration::lemma_recorded(flow, added);
        if ancestry::above(plan.flow.edges, order[i].index).contains(order[j].index) {
            order::lemma_above_visited_later(
                flow.recorded(added),
                added,
                flow.new_mirrors(added, assigned),
                i,
                j,
            );
        }
    }
}

/// A decision to replay state on demand stands: no decision about a node that is visited later
/// makes the state full.
pub proof fn law_partial_stands(
    flow: Flow,
    added: Set<NodeIndex>,
    assigned: Map<NodeIndex, Column>,
    node: NodeIndex,
    end: int,
)
    requires
        flow.wf(),
        flow.topological(),
        flow.has_room(added, assigned),
        0 <= end <= flow.order(added, assigned).len(),
    ensures
        ({
            let so_far = flow.mirrored(added, assigned).planned(
                flow.all_new(added, assigned),
                flow.undecided(added, assigned),
                flow.order(added, assigned).take(end),
            );
            so_far matches Ok(before) ==> (decision::partial(before, node) ==> (flow.kept(
                added,
                assigned,
            ) matches Ok(after) ==> after.contains_key(node) && after[node].plan
                == before[node].plan))
        }),
{
    let undecided = flow.undecided(added, assigned);
    let order = flow.order(added, assigned);
    let so_far = flow.mirrored(added, assigned).planned(
        flow.all_new(added, assigned),
        undecided,
        order.take(end),
    );
    migration::lemma_undecided(flow, added, assigned);
    migration::lemma_recorded(flow, added);
    assert forall|other: NodeIndex| !#[trigger] decision::partial(undecided, other) by {
        assert(undecided.contains_key(other) ==> undecided[other].plan is None);
    }
    if so_far is Ok && decision::partial(so_far->Ok_0, node) {
        decision::lemma_partial_stands(
            flow.recorded(added),
            flow.all_new(added, assigned),
            flow.new_mirrors(added, assigned),
            added,
            undecided,
            node,
            end,
        );
    }
}

/// A plan keeps the operators as they are, and a mirror is a copy of what it mirrors.
pub proof fn law_operators_kept(
    flow: Flow,
    added: Set<NodeIndex>,
    assigned: Map<NodeIndex, Column>,
)
    requires
        flow.wf(),
    ensures
        flow.plan(added, assigned) matches Ok(plan) ==> {
            let mirrors = flow.new_mirrors(added, assigned);
            &&& plan.flow.nodes.len() == flow.nodes.len() + mirrors.len()
            &&& plan.flow.nodes.take(flow.nodes.len() as int) == flow.nodes
            &&& forall|i: int|
                #![trigger mirrors[i]]
                0 <= i < mirrors.len() ==> plan.flow.nodes[flow.nodes.len() + i]
                    == flow.nodes[mirrors[i].node as int]
        },
{
    if flow.plan(added, assigned) is Ok {
        migration::lemma_undecided(flow, added, assigned);
        lemma_mirrors_copy(flow.recorded(added), flow.new_mirrors(added, assigned));
    }
}

/// Mirrors are copies, and the others stay.
proof fn lemma_mirrors_copy(flow: Flow, mirrors: Seq<Mirror>)
    requires
        forall|i: int|
            0 <= i < mirrors.len() ==> (#[trigger] mirrors[i]).node < flow.nodes.len(),
    ensures
        flow.with_mirrors(mirrors).nodes.len() == flow.nodes.len() + mirrors.len(),
        flow.with_mirrors(mirrors).nodes.take(flow.nodes.len() as int) == flow.nodes,
        forall|i: int|
            #![trigger mirrors[i]]
            0 <= i < mirrors.len() ==> flow.with_mirrors(mirrors).nodes[flow.nodes.len() + i]
                == flow.nodes[mirrors[i].node as int],
    decreases mirrors.len(),
{
    if mirrors.len() == 0 {
        assert(flow.nodes.take(flow.nodes.len() as int) =~= flow.nodes);
    } else {
        let earlier = mirrors.drop_last();
        let before = flow.with_mirrors(earlier);
        let after = flow.with_mirrors(mirrors);
        assert forall|i: int| 0 <= i < earlier.len() implies (#[trigger] earlier[i]).node
            < flow.nodes.len() by {
            assert(earlier[i] == mirrors[i]);
        }
        assert(mirrors[mirrors.len() - 1] == mirrors.last());
        lemma_mirrors_copy(flow, earlier);
        assert(after.nodes.take(flow.nodes.len() as int) =~= before.nodes.take(
            flow.nodes.len() as int,
        ));
        let node = mirrors.last().node as int;
        assert(before.nodes[node] == before.nodes.take(flow.nodes.len() as int)[node]);
        assert forall|i: int| #![trigger mirrors[i]] 0 <= i < mirrors.len() implies
            after.nodes[flow.nodes.len() + i] == flow.nodes[mirrors[i].node as int] by {
            if i < earlier.len() {
                assert(earlier[i] == mirrors[i]);
            }
        }
    }
}

} // verus!
