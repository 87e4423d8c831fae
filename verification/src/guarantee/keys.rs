//! Which state every plan keeps, under which keys, and which mirrors it takes for that.

use vstd::prelude::*;

use super::shards;
use super::terms;
use super::wiring;
use crate::assign;
use crate::dataflow;
use crate::dataflow::Flow;
use crate::guarantee;
use crate::materialization;
use crate::materialization::{MaterializationView, PlanView};
use crate::migration;
use crate::migration::MigrationPlanView;
use crate::replay;
use crate::reshard;
use crate::reshard::{Mirror, Reshard};
use crate::resolve;
use crate::sharding::{Column, NodeIndex, Sharding};
use crate::trim;

verus! {

/// What a column resolves to does not depend on the edges.
pub proof fn lemma_same_resolve(left: Flow, right: Flow, node: NodeIndex, column: usize)
    requires
        left.nodes == right.nodes,
    ensures
        left.resolve(node, column) == right.resolve(node, column),
    decreases node,
{
    if node < left.nodes.len() {
        let columns = resolve::source_columns(left.source_of(node, column));
        assert(columns == resolve::source_columns(right.source_of(node, column)));
        if let Some((ancestor, above)) = resolve::min_column(columns) {
            if ancestor < node {
                lemma_same_resolve(left, right, ancestor, above);
            }
        }
    }
}

/// The lookups are those of the new operators.
pub proof fn lemma_looked_up(
    flow: Flow,
    added: Set<NodeIndex>,
    end: int,
    node: NodeIndex,
    column: usize,
)
    requires
        end <= flow.nodes.len(),
        end <= u32::MAX,
    ensures
        flow.lookups(added, end).contains((node, column)) <==> exists|by: NodeIndex|
            by < end && #[trigger] terms::looks_up(flow, added, by, node, column),
    decreases end,
{
    let all = flow.lookups(added, end);
    let lookup = (node, column);
    if end > 0 {
        let last = (end - 1) as NodeIndex;
        let before = flow.lookups(added, end - 1);
        let own = flow.nodes[end - 1].lookups;
        lemma_looked_up(flow, added, end - 1, node, column);
        if all.contains(lookup) {
            let k = choose|k: int| 0 <= k < all.len() && all[k] == lookup;
            if k < before.len() {
                assert(before[k] == lookup);
                assert(before.contains(lookup));
            } else {
                assert(own[k - before.len()] == lookup);
                assert(terms::looks_up(flow, added, last, node, column));
            }
        }
        if exists|by: NodeIndex|
            by < end && #[trigger] terms::looks_up(flow, added, by, node, column) {
            let by = choose|by: NodeIndex|
                by < end && #[trigger] terms::looks_up(flow, added, by, node, column);
            guarantee::lemma_lookups(flow, added, end, by, own_place(flow, by, lookup));
        }
    } else {
        assert(!all.contains(lookup));
    }
}

/// Where a lookup stands among those of an operator.
spec fn own_place(flow: Flow, by: NodeIndex, lookup: Column) -> int {
    choose|k: int|
        0 <= k < flow.nodes[by as int].lookups.len() && flow.nodes[by as int].lookups[k] == lookup
}

/// The columns of an operator among columns.
proof fn lemma_columns_at(lookups: Seq<Column>, lookup: Column)
    ensures
        materialization::columns_at(lookups, lookup.0).contains(lookup.1) <==> lookups.contains(
            lookup,
        ),
{
    let f = |column: Column|
        if column.0 == lookup.0 {
            Some(column.1)
        } else {
            None
        };
    let own = materialization::columns_at(lookups, lookup.0);
    assert(own == lookups.filter_map(f));
    if lookups.contains(lookup) {
        dataflow::lemma_filter_map_keeps(lookups, f, lookup);
    }
    if own.contains(lookup.1) {
        lookups.lemma_filter_map_contains(f, lookup.1);
        let item = choose|item: Column|
            #![trigger lookups.contains(item)]
            lookups.contains(item) && f(item) == Some(lookup.1);
        assert(item == lookup);
    }
}

/// What is demanded is state at operators that are looked into, keyed by the columns that they are
/// looked up by.
pub proof fn lemma_demanded(flow: Flow, added: Set<NodeIndex>, node: NodeIndex)
    requires
        migration::plannable(flow, added),
        flow.nodes.len() <= u32::MAX,
    ensures
        flow.demanded(added).contains_key(node) <==> exists|column: usize|
            terms::is_looked_up(flow, added, node, column),
        flow.demanded(added).contains_key(node) ==> flow.demanded(added)[node].plan is None
            && forall|column: usize| #[trigger]
            flow.demanded(added)[node].keys.contains(column) <==> terms::is_looked_up(
                flow,
                added,
                node,
                column,
            ),
{
    let recorded = flow.recorded(added);
    let end = flow.nodes.len() as int;
    let lookups = recorded.lookups(added, end);
    let demanded = flow.demanded(added);
    let columns = materialization::columns_at(lookups, node);
    assert forall|column: usize| #[trigger] terms::is_looked_up(
        flow,
        added,
        node,
        column,
    ) <==> columns.contains(column) by {
        lemma_looked_up(recorded, added, end, node, column);
        lemma_columns_at(lookups, (node, column));
        if terms::is_looked_up(flow, added, node, column) {
            let by = choose|by: NodeIndex| terms::looks_up(flow, added, by, node, column);
            assert(terms::looks_up(recorded, added, by, node, column));
            assert(lookups.contains((node, column)));
        }
        if columns.contains(column) {
            let by = choose|by: NodeIndex|
                by < end && #[trigger] terms::looks_up(recorded, added, by, node, column);
            assert(terms::looks_up(flow, added, by, node, column));
        }
    }
    if columns.len() > 0 {
        assert(columns.contains(columns[0]));
        assert(terms::is_looked_up(flow, added, node, columns[0]));
        assert forall|column: usize| #[trigger]
            demanded[node].keys.contains(column) <==> terms::is_looked_up(
            flow,
            added,
            node,
            column,
        ) by {
            assert(columns.to_set().contains(column) <==> columns.contains(column));
        }
    }
}

/// State that is looked up is sharded in the end exactly if it is when its keys are split.
proof fn lemma_sharded(
    flow: Flow,
    added: Set<NodeIndex>,
    assigned: Map<NodeIndex, Column>,
    node: NodeIndex,
    column: usize,
)
    requires
        migration::plannable(flow, added),
        flow.plan(added, assigned) is Ok,
        node < flow.nodes.len(),
        terms::is_looked_up(flow, added, node, column),
    ensures
        ({
            let plan = flow.plan(added, assigned)->Ok_0;
            let sharded = flow.sharded(added, assigned);
            &&& plan.shardings.contains_key(node) <==> sharded.contains_key(node)
            &&& sharded.contains_key(node) ==> plan.shardings[node] == sharded[node]
        }),
{
    let plan = flow.plan(added, assigned)->Ok_0;
    let sharded = flow.sharded(added, assigned);
    let required = flow.required(added, assigned);
    let requirements = flow.requirements(added, flow.nodes.len() as int);
    guarantee::law_plan_shardings(flow, added, assigned, node);
    shards::law_shardings_kept(flow, added, assigned, node);
    if plan.shardings.contains_key(node) {
        if assigned.contains_key(node) {
            assert(required.contains_key(node));
        } else {
            assert(added.contains(node));
            let by = choose|by: NodeIndex| terms::looks_up(flow, added, by, node, column);
            if by == node {
                resolve::lemma_min_column(flow.nodes[node as int].lookups);
                let k = own_place(flow, by, (node, column));
                assert(flow.nodes[node as int].lookups.len() > 0);
                assert(flow.looks_up(added, node, flow.nodes.len() as int));
                assert(required.contains_key(node));
            } else {
                assert(terms::wants(flow, added, by, node, column));
                assert(terms::is_wanted(flow, added, node, column));
                shards::lemma_requested_by_lookups(flow, added, node);
                assert(assign::requested(requirements, node).contains(
                    flow.resolve(node, column)->0,
                ));
            }
        }
        assert(sharded.contains_key(node));
    }
}

/// What state there is before it is decided how it is kept.
pub proof fn lemma_undecided_keys(
    flow: Flow,
    added: Set<NodeIndex>,
    assigned: Map<NodeIndex, Column>,
    node: NodeIndex,
)
    requires
        migration::plannable(flow, added),
        flow.plan(added, assigned) is Ok,
        node < flow.nodes.len(),
    ensures
        ({
            let plan = flow.plan(added, assigned)->Ok_0;
            let undecided = flow.undecided(added, assigned);
            &&& undecided.contains_key(node) <==> exists|column: usize|
                terms::is_looked_up(flow, added, node, column)
            &&& undecided.contains_key(node) ==> undecided[node].plan is None && forall|
                column: usize,
            | #[trigger]
                undecided[node].keys.contains(column) <==> terms::is_looked_up(
                    flow,
                    added,
                    node,
                    column,
                ) && terms::fits(flow, plan, node, column)
        }),
{
    let plan = flow.plan(added, assigned)->Ok_0;
    let recorded = flow.recorded(added);
    let undecided = flow.undecided(added, assigned);
    let demanded = flow.demanded(added);
    let sharded = flow.sharded(added, assigned);
    guarantee::lemma_plan(flow, added, assigned);
    lemma_demanded(flow, added, node);
    if undecided.contains_key(node) {
        assert(demanded.contains_key(node));
        let any = choose|column: usize| terms::is_looked_up(flow, added, node, column);
        lemma_sharded(flow, added, assigned, node, any);
        assert forall|column: usize| #[trigger]
            undecided[node].keys.contains(column) <==> terms::is_looked_up(
            flow,
            added,
            node,
            column,
        ) && terms::fits(flow, plan, node, column) by {
            lemma_same_resolve(recorded, flow, node, column);
            assert(demanded[node].keys.contains(column) <==> terms::is_looked_up(
                flow,
                added,
                node,
                column,
            ));
            if sharded.contains_key(node) {
                assert(recorded.fitting(node, sharded[node], demanded[node].keys).contains(column)
                    <==> demanded[node].keys.contains(column) && recorded.resolve(node, column)
                    == Some(sharded[node]));
            }
        }
    }
}

/// Whether a path that state at another new operator is replayed over passes a column.
pub open spec fn is_passed(plan: MigrationPlanView, column: Column) -> bool {
    exists|other: NodeIndex, i: int, j: int| #[trigger]
        passes(plan, other, i, j) == Some(column) && other != column.0
}

/// What one of the paths that the state at a new operator is replayed over passes at a place.
pub open spec fn passes(plan: MigrationPlanView, node: NodeIndex, i: int, j: int) -> Option<
    Column,
> {
    if plan.added.contains(node) && plan.materializations.contains_key(node) {
        match plan.materializations[node].plan {
            Some(PlanView::Partial { paths }) => if 0 <= i < paths.len() && 0 <= j
                < paths[i].len() {
                Some(paths[i][j])
            } else {
                None
            },
            _ => None,
        }
    } else {
        None
    }
}

/// Keys along a path are those that were there and those of the path.
proof fn lemma_keyed_along_bound(
    materializations: Map<NodeIndex, MaterializationView>,
    path: Seq<Column>,
    node: NodeIndex,
    key: usize,
)
    requires
        trim::keyed_along(materializations, path).contains_key(node),
        trim::keyed_along(materializations, path)[node].keys.contains(key),
    ensures
        materializations.contains_key(node),
        materializations[node].keys.contains(key) || path.contains((node, key)),
    decreases path.len(),
{
    if path.len() > 0 {
        let earlier = path.drop_last();
        let before = trim::keyed_along(materializations, earlier);
        assert(path[path.len() - 1] == path.last());
        if before.contains_key(node) && before[node].keys.contains(key) {
            lemma_keyed_along_bound(materializations, earlier, node, key);
            if earlier.contains((node, key)) {
                let k = choose|k: int| 0 <= k < earlier.len() && earlier[k] == (node, key);
                assert(path[k] == (node, key));
            }
        } else {
            trim::lemma_keyed_along_keys(materializations, earlier);
            assert(before.contains_key(node));
            assert(path.last() == (node, key));
        }
    }
}

/// Keys along paths are those that were there and those of the paths.
proof fn lemma_keyed_along_all_bound(
    materializations: Map<NodeIndex, MaterializationView>,
    paths: Seq<Seq<Column>>,
    node: NodeIndex,
    key: usize,
)
    requires
        trim::keyed_along_all(materializations, paths).contains_key(node),
        trim::keyed_along_all(materializations, paths)[node].keys.contains(key),
    ensures
        materializations.contains_key(node),
        materializations[node].keys.contains(key) || exists|i: int|
            0 <= i < paths.len() && (#[trigger] paths[i]).contains((node, key)),
    decreases paths.len(),
{
    if paths.len() > 0 {
        let earlier = paths.drop_last();
        let before = trim::keyed_along_all(materializations, earlier);
        lemma_keyed_along_bound(before, paths.last(), node, key);
        if before[node].keys.contains(key) {
            lemma_keyed_along_all_bound(materializations, earlier, node, key);
            if !materializations[node].keys.contains(key) {
                let i = choose|i: int|
                    0 <= i < earlier.len() && (#[trigger] earlier[i]).contains((node, key));
                assert(paths[i].contains((node, key)));
            }
        } else {
            trim::lemma_keyed_along_all_keys(materializations, earlier);
            assert(paths[paths.len() - 1].contains((node, key)));
        }
    }
}

/// Whether a path of a new node before `end` passes a column of another.
pub open spec fn is_passed_before(
    added: Set<NodeIndex>,
    materializations: Map<NodeIndex, MaterializationView>,
    end: int,
    node: NodeIndex,
    key: usize,
) -> bool {
    exists|other: NodeIndex, i: int|
        {
            &&& other < end
            &&& added.contains(other)
            &&& other != node
            &&& 0 <= i < replay::paths_at(materializations, other).len()
            &&& (#[trigger] replay::paths_at(materializations, other)[i]).contains((node, key))
        }
}

/// After trimming the keys are those that were there and those along the paths of other new nodes.
proof fn lemma_trimmed_bound(
    added: Set<NodeIndex>,
    materializations: Map<NodeIndex, MaterializationView>,
    end: int,
    node: NodeIndex,
    key: usize,
)
    requires
        replay::replayable(materializations),
        end <= u32::MAX,
        trim::trimmed(added, materializations, end).contains_key(node),
        trim::trimmed(added, materializations, end)[node].keys.contains(key),
    ensures
        materializations[node].keys.contains(key) || is_passed_before(
            added,
            trim::trimmed(added, materializations, end),
            end,
            node,
            key,
        ),
    decreases end,
{
    if end > 0 {
        let last = (end - 1) as NodeIndex;
        let before = trim::trimmed(added, materializations, end - 1);
        let after = trim::trimmed(added, materializations, end);
        trim::lemma_trimmed(added, materializations, end - 1);
        trim::lemma_trimmed(added, materializations, end);
        assert(before.contains_key(node));
        if before[node].keys.contains(key) {
            lemma_trimmed_bound(added, materializations, end - 1, node, key);
            if !materializations[node].keys.contains(key) {
                let (other, i) = choose|other: NodeIndex, i: int|
                    {
                        &&& other < end - 1
                        &&& added.contains(other)
                        &&& other != node
                        &&& 0 <= i < replay::paths_at(before, other).len()
                        &&& (#[trigger] replay::paths_at(before, other)[i]).contains((node, key))
                    };
                assert(replay::paths_at(after, other) == replay::paths_at(before, other));
                assert(replay::paths_at(after, other)[i].contains((node, key)));
            }
        } else {
            assert(added.contains(last));
            assert(before.contains_key(last) && before[last].plan is Some
                && before[last].plan->0 is Partial);
            let others = before.remove(last);
            let cuts = trim::cut_all(others, replay::paths_at(before, last));
            assert(node != last);
            lemma_keyed_along_all_bound(others, cuts, node, key);
            let i = choose|i: int|
                0 <= i < cuts.len() && (#[trigger] cuts[i]).contains((node, key));
            assert(replay::paths_at(after, last) == cuts);
            assert(replay::paths_at(after, last)[i].contains((node, key)));
        }
    }
}

/// The keys of a plan are those before it is decided how state is kept, and the columns that paths
/// of other new operators pass.
pub proof fn lemma_plan_keys(
    flow: Flow,
    added: Set<NodeIndex>,
    assigned: Map<NodeIndex, Column>,
    node: NodeIndex,
    key: usize,
)
    requires
        migration::plannable(flow, added),
        flow.plan(added, assigned) is Ok,
    ensures
        ({
            let plan = flow.plan(added, assigned)->Ok_0;
            let undecided = flow.undecided(added, assigned);
            &&& plan.materializations.contains_key(node) <==> undecided.contains_key(node)
            &&& undecided.contains_key(node) ==> (plan.materializations[node].keys.contains(key)
                <==> undecided[node].keys.contains(key) || is_passed(plan, (node, key)))
        }),
{
    let plan = flow.plan(added, assigned)->Ok_0;
    let undecided = flow.undecided(added, assigned);
    let kept = flow.kept(added, assigned)->Ok_0;
    let end = plan.flow.nodes.len() as int;
    let after = plan.materializations;
    guarantee::lemma_plan(flow, added, assigned);
    guarantee::lemma_plan_keys(flow, added, assigned);
    trim::lemma_trimmed(plan.added, kept, end);
    trim::law_keyed_along_paths(plan.added, kept, end);
    assert(plan.materializations.contains_key(node) <==> undecided.dom().contains(node));
    if undecided.contains_key(node) {
        assert(after.dom().contains(node));
        assert(kept[node].keys == undecided[node].keys);
        if after[node].keys.contains(key) {
            lemma_trimmed_bound(plan.added, kept, end, node, key);
            if !undecided[node].keys.contains(key) {
                let (other, i) = choose|other: NodeIndex, i: int|
                    {
                        &&& other < end
                        &&& plan.added.contains(other)
                        &&& other != node
                        &&& 0 <= i < replay::paths_at(after, other).len()
                        &&& (#[trigger] replay::paths_at(after, other)[i]).contains((node, key))
                    };
                let path = replay::paths_at(after, other)[i];
                let j = choose|j: int| 0 <= j < path.len() && path[j] == (node, key);
                assert(passes(plan, other, i, j) == Some((node, key)));
            }
        }
        if undecided[node].keys.contains(key) {
            assert(after[node].keys.contains(key));
        }
        if is_passed(plan, (node, key)) {
            let (other, i, j) = choose|other: NodeIndex, i: int, j: int| #[trigger]
                passes(plan, other, i, j) == Some((node, key)) && other != node;
            assert(other < end);
            assert(trim::keyed_on_paths(after, other));
            assert(replay::paths_at(after, other)[i][j] == (node, key));
            assert(trim::is_keyed(after, replay::paths_at(after, other)[i][j]));
        }
    }
}

/// State is kept at exactly those operators that new ones look into, and is keyed by the columns
/// that they are looked up by and that fit their sharding, and by the columns that the paths of
/// other state pass them by.
pub proof fn law_keys(
    flow: Flow,
    added: Set<NodeIndex>,
    assigned: Map<NodeIndex, Column>,
    node: NodeIndex,
    key: usize,
)
    requires
        migration::plannable(flow, added),
        node < flow.nodes.len(),
    ensures
        flow.plan(added, assigned) matches Ok(plan) ==> {
            &&& plan.materializations.contains_key(node) <==> exists|column: usize|
                terms::is_looked_up(flow, added, node, column)
            &&& plan.materializations.contains_key(node) ==> (
            plan.materializations[node].keys.contains(key) <==> {
                ||| terms::is_looked_up(flow, added, node, key) && terms::fits(
                    flow,
                    plan,
                    node,
                    key,
                )
                ||| is_passed(plan, (node, key))
            })
        },
{
    if flow.plan(added, assigned) is Ok {
        lemma_undecided_keys(flow, added, assigned, node);
        lemma_plan_keys(flow, added, assigned, node, key);
        if flow.undecided(added, assigned).contains_key(node) {
            assert(flow.undecided(added, assigned)[node].keys.contains(key)
                <==> terms::is_looked_up(flow, added, node, key) && terms::fits(
                flow,
                flow.plan(added, assigned)->Ok_0,
                node,
                key,
            ));
        }
    }
}

/// A copy is needed for a key that does not fit.
pub proof fn lemma_reshard_of(
    flow: Flow,
    assigned: Map<NodeIndex, Column>,
    materializations: Map<NodeIndex, MaterializationView>,
    end: int,
    r: int,
)
    requires
        end <= u32::MAX,
        0 <= r < flow.reshards(assigned, materializations, end).len(),
    ensures
        ({
            let reshard = flow.reshards(assigned, materializations, end)[r];
            &&& reshard.node < end
            &&& assigned.contains_key(reshard.node)
            &&& materializations.contains_key(reshard.node)
            &&& materializations[reshard.node].keys.contains(reshard.column)
            &&& flow.resolve(reshard.node, reshard.column) != Some(assigned[reshard.node])
            &&& reshard.want == flow.resolve(reshard.node, reshard.column)->0
        }),
    decreases end,
{
    let all = flow.reshards(assigned, materializations, end);
    if end > 0 {
        let node = (end - 1) as NodeIndex;
        let before = flow.reshards(assigned, materializations, end - 1);
        if r < before.len() {
            assert(all[r] == before[r]);
            lemma_reshard_of(flow, assigned, materializations, end - 1, r);
        } else {
            let keys = materialization::ascending(materializations[node].keys);
            let own = flow.reshards_of(node, assigned[node], materializations[node].keys);
            let f = |key: usize|
                if flow.resolve(node, key) == Some(assigned[node]) {
                    None
                } else {
                    Some(Reshard { node, column: key, want: flow.resolve(node, key)->0 })
                };
            assert(own == keys.filter_map(f));
            assert(all[r] == own[r - before.len()]);
            assert(own.contains(all[r]));
            keys.lemma_filter_map_contains(f, all[r]);
            let key = choose|key: usize|
                #![trigger keys.contains(key)]
                keys.contains(key) && f(key) == Some(all[r]);
            materialization::lemma_ascending(materializations[node].keys);
        }
    }
}

/// The copies that lookups need.
proof fn lemma_copies(
    flow: Flow,
    added: Set<NodeIndex>,
    assigned: Map<NodeIndex, Column>,
    reshard: Reshard,
)
    requires
        migration::plannable(flow, added),
        flow.plan(added, assigned) is Ok,
    ensures
        ({
            let plan = flow.plan(added, assigned)->Ok_0;
            flow.copies(added, assigned).contains(reshard) <==> {
                &&& reshard.node < flow.nodes.len()
                &&& terms::is_looked_up(flow, added, reshard.node, reshard.column)
                &&& plan.shardings.contains_key(reshard.node)
                &&& flow.resolve(reshard.node, reshard.column) == Some(reshard.want)
                &&& reshard.want != plan.shardings[reshard.node]
            }
        }),
{
    let plan = flow.plan(added, assigned)->Ok_0;
    let recorded = flow.recorded(added);
    let sharded = flow.sharded(added, assigned);
    let demanded = flow.demanded(added);
    let copies = flow.copies(added, assigned);
    let end = flow.nodes.len() as int;
    let Reshard { node, column, want } = reshard;
    guarantee::lemma_plan(flow, added, assigned);
    lemma_demanded(flow, added, node);
    lemma_same_resolve(recorded, flow, node, column);
    if copies.contains(reshard) {
        let r = choose|r: int| 0 <= r < copies.len() && copies[r] == reshard;
        lemma_reshard_of(recorded, sharded, demanded, end, r);
        assert(demanded[node].keys.contains(column));
        lemma_sharded(flow, added, assigned, node, column);
        assert(recorded.keys_of_resolve(node, demanded[node].keys));
    }
    if node < flow.nodes.len() && terms::is_looked_up(flow, added, node, column)
        && plan.shardings.contains_key(node) && flow.resolve(node, column) == Some(want) && want
        != plan.shardings[node] {
        lemma_sharded(flow, added, assigned, node, column);
        assert(demanded.contains_key(node));
        assert(demanded[node].keys.contains(column));
        guarantee::law_key_stays_or_is_copied(recorded, sharded, demanded, end, node, column);
    }
}

/// A key that does not fit the sharding of an operator is served by a mirror of the operator that
/// is sharded by what the key resolves to.
pub proof fn law_unfit_key_has_mirror(
    flow: Flow,
    added: Set<NodeIndex>,
    assigned: Map<NodeIndex, Column>,
    node: NodeIndex,
    key: usize,
)
    requires
        migration::plannable(flow, added),
        flow.edges_within(),
        terms::is_looked_up(flow, added, node, key),
    ensures
        flow.plan(added, assigned) matches Ok(plan) ==> {
            !terms::fits(flow, plan, node, key) ==> exists|mirror: NodeIndex|
                {
                    &&& #[trigger] terms::is_mirror(flow, plan, mirror, node)
                    &&& Some(plan.shardings[mirror]) == flow.resolve(node, key)
                    &&& plan.materializations.contains_key(mirror)
                    &&& plan.materializations[mirror].keys.contains(key)
                }
        },
{
    if let Ok(plan) = flow.plan(added, assigned) {
        if !terms::fits(flow, plan, node, key) {
            let copies = flow.copies(added, assigned);
            let mirrors = flow.new_mirrors(added, assigned);
            let first = flow.nodes.len();
            let want = flow.resolve(node, key)->0;
            let reshard = Reshard { node, column: key, want };
            guarantee::lemma_plan(flow, added, assigned);
            lemma_demanded(flow, added, node);
            assert(flow.demanded(added).contains_key(node));
            migration::lemma_undecided(flow, added, assigned);
            lemma_same_resolve(flow.recorded(added), flow, node, key);
            lemma_sharded(flow, added, assigned, node, key);
            assert(flow.demanded(added)[node].keys.contains(key));
            assert(flow.recorded(added).keys_of_resolve(node, flow.demanded(added)[node].keys));
            lemma_copies(flow, added, assigned, reshard);
            reshard::lemma_mirrors(copies);
            let r = choose|r: int| 0 <= r < copies.len() && copies[r] == reshard;
            assert(mirrors.contains(copies[r].mirror()));
            let i = choose|i: int| 0 <= i < mirrors.len() && mirrors[i] == reshard.mirror();
            let mirror = (first + i) as NodeIndex;
            wiring::lemma_is_mirror(flow, added, assigned, mirror, node);
            guarantee::law_plan_shardings(flow, added, assigned, mirror);
            law_mirror_keys(flow, added, assigned, mirror, node, key);
            assert(terms::is_mirror(flow, plan, mirror, node));
        }
    }
}

/// No path passes a mirror.
proof fn lemma_mirror_not_passed(
    flow: Flow,
    added: Set<NodeIndex>,
    assigned: Map<NodeIndex, Column>,
    mirror: NodeIndex,
    key: usize,
)
    requires
        migration::plannable(flow, added),
        flow.plan(added, assigned) is Ok,
        flow.nodes.len() <= mirror,
    ensures
        !is_passed(flow.plan(added, assigned)->Ok_0, (mirror, key)),
{
    let plan = flow.plan(added, assigned)->Ok_0;
    if is_passed(plan, (mirror, key)) {
        let (other, i, j) = choose|other: NodeIndex, i: int, j: int| #[trigger]
            passes(plan, other, i, j) == Some((mirror, key)) && other != mirror;
        guarantee::lemma_plan(flow, added, assigned);
        guarantee::law_plan_paths(flow, added, assigned, other);
        let path = replay::paths_at(plan.materializations, other)[i];
        assert(path[j] == (mirror, key));
        lemma_sources_within(flow, added, assigned, path, j);
    }
}

/// What a path passes after its start is an operator of the graph.
pub proof fn lemma_sources_within(
    flow: Flow,
    added: Set<NodeIndex>,
    assigned: Map<NodeIndex, Column>,
    path: Seq<Column>,
    j: int,
)
    requires
        migration::plannable(flow, added),
        flow.plan(added, assigned) is Ok,
        path.len() > 0,
        path[0].0 < flow.plan(added, assigned)->Ok_0.flow.nodes.len(),
        flow.plan(added, assigned)->Ok_0.flow.follows(path),
        0 <= j < path.len(),
    ensures
        path[j].0 < flow.plan(added, assigned)->Ok_0.flow.nodes.len(),
        j > 0 ==> path[j].0 < flow.nodes.len(),
    decreases j,
{
    if j > 0 {
        let plan = flow.plan(added, assigned)->Ok_0;
        let mirrors = flow.new_mirrors(added, assigned);
        lemma_sources_within(flow, added, assigned, path, j - 1);
        guarantee::law_operators_kept(flow, added, assigned);
        guarantee::lemma_plan(flow, added, assigned);
        migration::lemma_undecided(flow, added, assigned);
        let (at, column) = path[j - 1];
        assert(plan.flow.supplied_by(path[j - 1], path[j]));
        let sources = plan.flow.source_of(at, column);
        let k = choose|k: int|
            0 <= k < sources.len() && sources[k] == (path[j].0, Some(path[j].1));
        if at < flow.nodes.len() {
            assert(plan.flow.nodes.take(flow.nodes.len() as int)[at as int]
                == plan.flow.nodes[at as int]);
            assert(flow.nodes[at as int].sources[column as int][k].0 < at);
        } else {
            let node = mirrors[at - flow.nodes.len()].node;
            assert(plan.flow.nodes[flow.nodes.len() + (at - flow.nodes.len())]
                == flow.nodes[node as int]);
            assert(flow.nodes[node as int].sources[column as int][k].0 < node);
        }
    }
}

/// A mirror is keyed by exactly the columns that the operator that it mirrors is looked up by and
/// that resolve to what the mirror is sharded by, which is not what the operator is sharded by.
/// There is such a column.
pub proof fn law_mirror_keys(
    flow: Flow,
    added: Set<NodeIndex>,
    assigned: Map<NodeIndex, Column>,
    mirror: NodeIndex,
    node: NodeIndex,
    key: usize,
)
    requires
        migration::plannable(flow, added),
        flow.edges_within(),
    ensures
        flow.plan(added, assigned) matches Ok(plan) ==> {
            terms::is_mirror(flow, plan, mirror, node) ==> {
                &&& plan.shardings.contains_key(mirror)
                &&& plan.shardings.contains_key(node)
                &&& plan.shardings[mirror] != plan.shardings[node]
                &&& plan.materializations.contains_key(mirror)
                &&& plan.materializations[mirror].keys.contains(key) <==> terms::is_looked_up(
                    flow,
                    added,
                    node,
                    key,
                ) && flow.resolve(node, key) == Some(plan.shardings[mirror])
                &&& exists|column: usize| #[trigger]
                    terms::is_looked_up(flow, added, node, column) && flow.resolve(node, column)
                        == Some(plan.shardings[mirror])
            }
        },
{
    if let Ok(plan) = flow.plan(added, assigned) {
        if terms::is_mirror(flow, plan, mirror, node) {
            let copies = flow.copies(added, assigned);
            let mirrors = flow.new_mirrors(added, assigned);
            let undecided = flow.undecided(added, assigned);
            let first = flow.nodes.len();
            let i = mirror - first;
            wiring::lemma_is_mirror(flow, added, assigned, mirror, node);
            migration::lemma_undecided(flow, added, assigned);
            guarantee::law_plan_shardings(flow, added, assigned, mirror);
            let want = plan.shardings[mirror];
            assert(mirrors[i] == Mirror { node, want });
            reshard::lemma_mirrors(copies);
            assert(reshard::is_needed(copies, mirrors[i]));
            let r = choose|r: int|
                0 <= r < copies.len() && (#[trigger] copies[r]).mirror() == mirrors[i];
            let column = copies[r].column;
            assert(copies[r] == Reshard { node, column, want });
            lemma_copies(flow, added, assigned, Reshard { node, column, want });
            assert(terms::is_looked_up(flow, added, node, column));
            lemma_copies(flow, added, assigned, Reshard { node, column: key, want });
            lemma_plan_keys(flow, added, assigned, mirror, key);
            lemma_mirror_not_passed(flow, added, assigned, mirror, key);
            assert(undecided[mirror].keys == reshard::mirror_keys(copies, mirrors[i]));
        }
    }
}

/// No two mirrors of an operator are sharded the same way.
pub proof fn law_mirrors_differ(
    flow: Flow,
    added: Set<NodeIndex>,
    assigned: Map<NodeIndex, Column>,
    mirror: NodeIndex,
    other: NodeIndex,
    node: NodeIndex,
)
    requires
        migration::plannable(flow, added),
        flow.edges_within(),
        mirror != other,
    ensures
        flow.plan(added, assigned) matches Ok(plan) ==> {
            terms::is_mirror(flow, plan, mirror, node) && terms::is_mirror(flow, plan, other, node)
                ==> plan.shardings[mirror] != plan.shardings[other]
        },
{
    if let Ok(plan) = flow.plan(added, assigned) {
        if terms::is_mirror(flow, plan, mirror, node) && terms::is_mirror(
            flow,
            plan,
            other,
            node,
        ) {
            let mirrors = flow.new_mirrors(added, assigned);
            let first = flow.nodes.len();
            wiring::lemma_is_mirror(flow, added, assigned, mirror, node);
            wiring::lemma_is_mirror(flow, added, assigned, other, node);
            migration::lemma_undecided(flow, added, assigned);
            guarantee::law_plan_shardings(flow, added, assigned, mirror);
            guarantee::law_plan_shardings(flow, added, assigned, other);
            assert(mirrors[mirror - first] != mirrors[other - first]);
        }
    }
}

/// A new operator that looks into another is fed along an edge that requires what its last lookup
/// into the other resolves to, by a node that is sharded so: by the other operator, or by a mirror
/// of it.
pub proof fn law_lookup_is_fed(
    flow: Flow,
    added: Set<NodeIndex>,
    assigned: Map<NodeIndex, Column>,
    node: NodeIndex,
    k: int,
)
    requires
        migration::plannable(flow, added),
        flow.edges_within(),
        added.contains(node),
        0 <= k < flow.nodes[node as int].lookups.len(),
        added.contains(flow.nodes[node as int].lookups[k].0),
        flow.nodes[node as int].lookups[k].0 != node,
        forall|m: int|
            k < m < flow.nodes[node as int].lookups.len() ==> (
            #[trigger] flow.nodes[node as int].lookups[m]).0
                != flow.nodes[node as int].lookups[k].0,
    ensures
        flow.plan(added, assigned) matches Ok(plan) ==> {
            let (target, column) = flow.nodes[node as int].lookups[k];
            exists|source: NodeIndex|
                {
                    &&& source == target || terms::is_mirror(flow, plan, source, target)
                    &&& plan.shardings.contains_key(source)
                    &&& flow.resolve(target, column) == Some(plan.shardings[source])
                    &&& #[trigger] terms::has_edge(
                        plan.flow.edges,
                        source,
                        node,
                        plan.shardings[source],
                    )
                }
        },
{
    if let Ok(plan) = flow.plan(added, assigned) {
        let (target, column) = flow.nodes[node as int].lookups[k];
        let edges = flow.recorded(added).edges;
        shards::law_lookup_is_required(flow, added, assigned, node, k);
        wiring::law_lookup_kept_along_edge(flow, added, assigned, node, k);
        let want = flow.resolve(target, column)->0;
        let e = choose|e: int|
            #![trigger edges[e]]
            {
                &&& 0 <= e < edges.len()
                &&& edges[e].source == target
                &&& edges[e].target == node
                &&& edges[e].weight == Sharding::By(want.0, want.1)
            };
        let edge = edges[e];
        assert(edges.contains(edge));
        assert(flow.nodes[node as int].lookups.contains((target, column)));
        assert(terms::looks_up(flow, added, node, target, column));
        assert(terms::is_looked_up(flow, added, target, column));
        wiring::law_edge_stays(flow, added, assigned, edge);
        if exists|mirror: NodeIndex| #[trigger]
            terms::is_mirror(flow, plan, mirror, target) && edge.weight == Sharding::By(
                plan.shardings[mirror].0,
                plan.shardings[mirror].1,
            ) {
            let mirror = choose|mirror: NodeIndex| #[trigger]
                terms::is_mirror(flow, plan, mirror, target) && edge.weight == Sharding::By(
                    plan.shardings[mirror].0,
                    plan.shardings[mirror].1,
                );
            wiring::law_edge_moves_to_mirror(flow, added, assigned, edge, mirror);
            law_mirror_keys(flow, added, assigned, mirror, target, column);
            assert(plan.shardings[mirror] == want);
            assert(terms::has_edge(plan.flow.edges, mirror, node, plan.shardings[mirror]));
        } else {
            law_unfit_key_has_mirror(flow, added, assigned, target, column);
            assert(terms::fits(flow, plan, target, column));
            assert(plan.shardings[target] == want);
            assert(terms::has_edge(plan.flow.edges, target, node, plan.shardings[target]));
        }
    }
}

/// State is looked up by the keys that it has before it is decided how it is kept.
pub proof fn lemma_asked(
    flow: Flow,
    added: Set<NodeIndex>,
    assigned: Map<NodeIndex, Column>,
    node: NodeIndex,
    key: usize,
)
    requires
        migration::plannable(flow, added),
        flow.plan(added, assigned) is Ok,
    ensures
        ({
            let plan = flow.plan(added, assigned)->Ok_0;
            let undecided = flow.undecided(added, assigned);
            terms::is_asked(flow, added, plan, node, key) <==> undecided.contains_key(node)
                && undecided[node].keys.contains(key)
        }),
{
    let plan = flow.plan(added, assigned)->Ok_0;
    let undecided = flow.undecided(added, assigned);
    if node < flow.nodes.len() {
        lemma_undecided_keys(flow, added, assigned, node);
        if undecided.contains_key(node) {
            assert(undecided[node].keys.contains(key) <==> terms::is_looked_up(
                flow,
                added,
                node,
                key,
            ) && terms::fits(flow, plan, node, key));
        }
    } else {
        lemma_plan_keys(flow, added, assigned, node, key);
        lemma_mirror_not_passed(flow, added, assigned, node, key);
    }
}

} // verus!
