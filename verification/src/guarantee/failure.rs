//! When there is no plan, and why.

use vstd::prelude::*;

use super::keeping;
use super::keys;
use super::shards;
use super::terms;
use super::wiring;
use crate::ancestry;
use crate::assign;
use crate::assign::Requirement;
use crate::dataflow;
use crate::dataflow::{EdgeView, Flow};
use crate::decision;
use crate::error::CommitError;
use crate::guarantee;
use crate::inherit;
use crate::materialization::{MaterializationView, PlanView};
use crate::migration;
use crate::migration::MigrationPlanView;
use crate::order;
use crate::replay;
use crate::reshard;
use crate::resolve;
use crate::sharding::{Column, NodeIndex};
use crate::takeover;
use crate::visit::VisitNode;

verus! {

/// Whether a lookup is into the smallest operator that lookups are into, and no earlier one is.
pub open spec fn is_first_into_smallest(lookups: Seq<Column>, i: int) -> bool {
    forall|j: int|
        #![trigger lookups[j]]
        0 <= j < lookups.len() ==> lookups[i].0 <= lookups[j].0 && (j < i ==> lookups[i].0
            < lookups[j].0)
}

/// Whether a new operator does a lookup by a column that resolves to nothing but has to: the lookup
/// decides how the operator is sharded, or it is into a new operator or one that is sharded.
pub open spec fn is_missing(
    flow: Flow,
    added: Set<NodeIndex>,
    assigned: Map<NodeIndex, Column>,
    by: NodeIndex,
    i: int,
) -> bool {
    let lookups = flow.nodes[by as int].lookups;
    &&& added.contains(by)
    &&& by < flow.nodes.len()
    &&& 0 <= i < lookups.len()
    &&& flow.resolve(lookups[i].0, lookups[i].1) is None
    &&& added.contains(lookups[i].0) || assigned.contains_key(lookups[i].0)
        || is_first_into_smallest(lookups, i)
}

/// State that is looked up at a new operator or at one that is sharded is sharded when its keys are
/// split.
proof fn lemma_sharded_when_split(
    flow: Flow,
    added: Set<NodeIndex>,
    assigned: Map<NodeIndex, Column>,
    node: NodeIndex,
    column: usize,
)
    requires
        migration::plannable(flow, added),
        flow.nodes.len() <= u32::MAX,
        node < flow.nodes.len(),
        terms::is_looked_up(flow, added, node, column),
    ensures
        flow.sharded(added, assigned).contains_key(node) <==> added.contains(node)
            || assigned.contains_key(node),
{
    let sharded = flow.sharded(added, assigned);
    let required = flow.required(added, assigned);
    let end = flow.nodes.len() as int;
    let requirements = flow.requirements(added, end);
    let columns = assign::requested(requirements, node);
    shards::lemma_requested_by_lookups(flow, added, node);
    resolve::lemma_min_column(flow.nodes[node as int].lookups);
    if added.contains(node) {
        let by = choose|by: NodeIndex| terms::looks_up(flow, added, by, node, column);
        if by == node {
            assert(flow.nodes[node as int].lookups.len() > 0);
            assert(flow.looks_up(added, node, end));
            assert(required.contains_key(node));
        } else {
            assert(terms::wants(flow, added, by, node, column));
            assert(terms::is_wanted(flow, added, node, column));
            assert(columns.contains(flow.resolve(node, column)->0));
        }
    }
    if assigned.contains_key(node) {
        assert(required.contains_key(node));
    }
    if sharded.contains_key(node) && !required.contains_key(node) {
        assert(shards::is_required(flow, added, node, columns[0]));
        let other = choose|other: usize|
            flow.resolve(node, other)->0 == columns[0] && #[trigger] terms::is_wanted(
                flow,
                added,
                node,
                other,
            );
        let by = choose|by: NodeIndex| terms::wants(flow, added, by, node, other);
        assert(added.contains(node));
    }
}

/// Where columns exist that are looked for, none is missing.
proof fn lemma_none_missing(
    flow: Flow,
    added: Set<NodeIndex>,
    assigned: Map<NodeIndex, Column>,
    by: NodeIndex,
    i: int,
)
    requires
        migration::plannable(flow, added),
        flow.nodes.len() <= u32::MAX,
        flow.columns_exist(added, assigned),
    ensures
        !is_missing(flow, added, assigned, by, i),
{
    if is_missing(flow, added, assigned, by, i) {
        let lookups = flow.nodes[by as int].lookups;
        let (node, column) = lookups[i];
        let demanded = flow.demanded(added);
        assert(flow.lookups_of_resolve(added, by));
        if is_first_into_smallest(lookups, i) {
            shards::lemma_smallest_lookup(lookups, i);
        } else {
            assert(flow.nodes[by as int].lookups[i].0 < flow.nodes.len());
            assert(terms::looks_up(flow, added, by, node, column));
            assert(terms::is_looked_up(flow, added, node, column));
            lemma_sharded_when_split(flow, added, assigned, node, column);
            keys::lemma_demanded(flow, added, node);
            assert(demanded.contains_key(node));
            assert(demanded[node].keys.contains(column));
            assert(flow.recorded(added).keys_of_resolve(node, demanded[node].keys));
            keys::lemma_same_resolve(flow.recorded(added), flow, node, column);
        }
    }
}

/// A migration in which a column is missing comes to no plan. It is refused for that, unless the
/// graph is too full to tell.
pub proof fn law_missing_column_refused(
    flow: Flow,
    added: Set<NodeIndex>,
    assigned: Map<NodeIndex, Column>,
    by: NodeIndex,
    i: int,
)
    requires
        migration::plannable(flow, added),
        flow.nodes.len() <= u32::MAX,
        is_missing(flow, added, assigned, by, i),
    ensures
        flow.plan(added, assigned) matches Err(error) && (error == CommitError::UnknownColumn
            || error == CommitError::GraphFull),
{
    if flow.columns_exist(added, assigned) {
        lemma_none_missing(flow, added, assigned, by, i);
    }
}

/// Decisions fail for one reason: a node cannot be replayed by what is full when it is visited, and
/// an existing operator above it has state that is not full.
proof fn lemma_planned_error(
    flow: Flow,
    added: Set<NodeIndex>,
    materializations: Map<NodeIndex, MaterializationView>,
    order: Seq<VisitNode>,
) -> (found: (int, NodeIndex, usize))
    requires
        flow.planned(added, materializations, order) is Err,
    ensures
        ({
            let (i, existing, key) = found;
            let node = order[i].index;
            let before = flow.planned(added, materializations, order.take(i));
            &&& flow.planned(added, materializations, order) == Err::<
                Map<NodeIndex, MaterializationView>,
                CommitError,
            >(CommitError::ExistingNotFull)
            &&& 0 <= i < order.len()
            &&& ancestry::above(flow.edges, node).contains(existing)
            &&& materializations.contains_key(existing)
            &&& !added.contains(existing)
            &&& materializations.contains_key(node)
            &&& materializations[node].keys.contains(key)
            &&& before is Ok
            &&& !flow.viable(before->Ok_0, node, key)
        }),
    decreases order.len(),
{
    let earlier = order.drop_last();
    let at = order.last().index;
    match flow.planned(added, materializations, earlier) {
        Ok(before) => {
            decision::law_all_decided(flow, added, materializations, earlier);
            let upward = ancestry::above(flow.edges, at);
            let existing = choose|existing: NodeIndex| #[trigger]
                upward.contains(existing) && replay::settled_otherwise(added, before, existing);
            assert(before.dom() == materializations.dom());
            assert(before.dom().contains(existing));
            assert(before.dom().contains(at));
            assert(before[at].keys == materializations[at].keys);
            assert(order.take(order.len() - 1) =~= earlier);
            let key = choose|key: usize| #[trigger]
                before[at].keys.contains(key) && !flow.viable(before, at, key);
            (order.len() - 1, existing, key)
        },
        Err(_) => {
            let found = lemma_planned_error(flow, added, materializations, earlier);
            assert(earlier[found.0] == order[found.0]);
            assert(earlier.take(found.0) =~= order.take(found.0));
            found
        },
    }
}

/// A migration is refused for a column only where one is missing.
pub proof fn law_unknown_column(
    flow: Flow,
    added: Set<NodeIndex>,
    assigned: Map<NodeIndex, Column>,
)
    requires
        migration::plannable(flow, added),
        flow.nodes.len() <= u32::MAX,
        flow.plan(added, assigned) == Err::<MigrationPlanView, CommitError>(
            CommitError::UnknownColumn,
        ),
    ensures
        exists|by: NodeIndex, i: int| is_missing(flow, added, assigned, by, i),
{
    let end = flow.nodes.len() as int;
    let demanded = flow.demanded(added);
    let sharded = flow.sharded(added, assigned);
    let recorded = flow.recorded(added);
    if !flow.lookups_resolve(added, end) {
        let by = choose|by: NodeIndex|
            by < end && added.contains(by) && !#[trigger] flow.lookups_of_resolve(added, by);
        let lookups = flow.nodes[by as int].lookups;
        resolve::lemma_min_column(lookups);
        let least = flow.leading_lookup(by)->0;
        if flow.leading_lookup(by) is Some && flow.resolve(least.0, least.1) is None {
            let i = choose|i: int|
                #![trigger lookups[i]]
                0 <= i < lookups.len() && lookups[i] == least && (forall|j: int|
                    #![trigger lookups[j]]
                    0 <= j < lookups.len() ==> least.0 <= lookups[j].0 && (j < i ==> least.0
                        < lookups[j].0));
            assert(is_first_into_smallest(lookups, i));
            assert(is_missing(flow, added, assigned, by, i));
        } else {
            let i = choose|i: int|
                #![trigger flow.nodes[by as int].lookups[i]]
                0 <= i < lookups.len() && {
                    let lookup = flow.nodes[by as int].lookups[i];
                    added.contains(lookup.0) && lookup.0 != by && flow.resolve(
                        lookup.0,
                        lookup.1,
                    ) is None
                };
            assert(is_missing(flow, added, assigned, by, i));
        }
    } else {
        if flow.columns_exist(added, assigned) {
            lemma_later_errors(flow, added, assigned);
        }
        let node = choose|node: NodeIndex|
            node < end && sharded.contains_key(node) && demanded.contains_key(node)
                && !#[trigger] recorded.keys_of_resolve(node, demanded[node].keys);
        let key = choose|key: usize| #[trigger]
            demanded[node].keys.contains(key) && recorded.resolve(node, key) is None;
        keys::lemma_demanded(flow, added, node);
        keys::lemma_same_resolve(recorded, flow, node, key);
        assert(terms::is_looked_up(flow, added, node, key));
        lemma_sharded_when_split(flow, added, assigned, node, key);
        let by = choose|by: NodeIndex| terms::looks_up(flow, added, by, node, key);
        let lookups = flow.nodes[by as int].lookups;
        let i = choose|i: int| 0 <= i < lookups.len() && lookups[i] == (node, key);
        assert(is_missing(flow, added, assigned, by, i));
    }
}

/// Where columns exist and there is room, the reasons left are the state of existing operators and
/// shardings that do not get everywhere.
proof fn lemma_later_errors(
    flow: Flow,
    added: Set<NodeIndex>,
    assigned: Map<NodeIndex, Column>,
)
    requires
        migration::plannable(flow, added),
        flow.columns_exist(added, assigned),
        flow.has_room(added, assigned),
    ensures
        flow.plan(added, assigned) matches Err(error) ==> error == CommitError::ExistingNotFull
            || error == CommitError::NoProgress,
{
    let mirrored = flow.mirrored(added, assigned);
    let all_new = flow.all_new(added, assigned);
    let determined = flow.determined(added, assigned);
    let end = mirrored.nodes.len() as int;
    let waiting = inherit::unsharded_new(all_new, determined, end);
    reshard::lemma_with_mirrors(flow.recorded(added), flow.new_mirrors(added, assigned));
    if flow.kept(added, assigned) is Err {
        let found = lemma_planned_error(
            mirrored,
            all_new,
            flow.undecided(added, assigned),
            flow.order(added, assigned),
        );
    }
    inherit::lemma_unsharded_new(all_new, determined, end);
    assert forall|i: int| 0 <= i < waiting.len() implies !determined.contains_key(
        #[trigger] waiting[i],
    ) by {
        assert(waiting.contains(waiting[i]));
    }
    inherit::law_inherited(mirrored.edges, determined, waiting);
}

/// Whether the state at a node that is about to be visited has to be full but an existing operator
/// that leads there has state: a way up from one of the keys ends and meets no full state before.
pub open spec fn is_barred(
    flow: Flow,
    materializations: Map<NodeIndex, MaterializationView>,
    existing: NodeIndex,
    node: NodeIndex,
    path: Seq<Column>,
) -> bool {
    &&& terms::leads_to(flow.edges, existing, node)
    &&& path.len() > 0
    &&& path[0].0 == node
    &&& materializations[node].keys.contains(path[0].1)
    &&& terms::goes_up(flow, path)
    &&& terms::is_stuck(flow, path.last())
    &&& forall|i: int|
        0 <= i < path.len() ==> materializations[(#[trigger] path[i]).0].plan != Some(
            PlanView::Full,
        ) || !materializations.contains_key(path[i].0)
}

/// Whether an existing operator that new ones look into bars the state at a node from being full
/// when the node is visited.
pub open spec fn bars(
    flow: Flow,
    added: Set<NodeIndex>,
    assigned: Map<NodeIndex, Column>,
    existing: NodeIndex,
    column: usize,
    i: int,
    path: Seq<Column>,
) -> bool {
    let order = flow.order(added, assigned);
    let before = flow.mirrored(added, assigned).planned(
        flow.all_new(added, assigned),
        flow.undecided(added, assigned),
        order.take(i),
    );
    &&& existing < flow.nodes.len()
    &&& !added.contains(existing)
    &&& terms::is_looked_up(flow, added, existing, column)
    &&& 0 <= i < order.len()
    &&& before is Ok
    &&& is_barred(
        flow.mirrored(added, assigned),
        before->Ok_0,
        existing,
        order[i].index,
        path,
    )
}

/// A migration is refused because of existing state only where new operators look into an existing
/// operator, and it leads to state that cannot be replayed by what is full when its node is
/// visited.
pub proof fn law_existing_not_full(
    flow: Flow,
    added: Set<NodeIndex>,
    assigned: Map<NodeIndex, Column>,
)
    requires
        migration::plannable(flow, added),
        flow.nodes.len() <= u32::MAX,
        flow.plan(added, assigned) == Err::<MigrationPlanView, CommitError>(
            CommitError::ExistingNotFull,
        ),
    ensures
        exists|existing: NodeIndex, column: usize, i: int, path: Seq<Column>|
            bars(flow, added, assigned, existing, column, i, path),
{
    let mirrored = flow.mirrored(added, assigned);
    let mirrors = flow.new_mirrors(added, assigned);
    let all_new = flow.all_new(added, assigned);
    let determined = flow.determined(added, assigned);
    let undecided = flow.undecided(added, assigned);
    let order = flow.order(added, assigned);
    let end = mirrored.nodes.len() as int;
    let waiting = inherit::unsharded_new(all_new, determined, end);
    reshard::lemma_with_mirrors(flow.recorded(added), mirrors);
    inherit::lemma_unsharded_new(all_new, determined, end);
    assert forall|i: int| 0 <= i < waiting.len() implies !determined.contains_key(
        #[trigger] waiting[i],
    ) by {
        assert(waiting.contains(waiting[i]));
    }
    inherit::law_inherited(mirrored.edges, determined, waiting);
    let (i, existing, key) = lemma_planned_error(mirrored, all_new, undecided, order);
    let node = order[i].index;
    let before = mirrored.planned(all_new, undecided, order.take(i))->Ok_0;
    order::lemma_visited_new(added, mirrors, flow.nodes.len(), i);
    keeping::law_above_by_ways(mirrored.edges, existing, node);
    migration::lemma_undecided(flow, added, assigned);
    keys::lemma_demanded(flow, added, existing);
    assert(flow.demanded(added).contains_key(existing));
    let column = choose|column: usize| terms::is_looked_up(flow, added, existing, column);
    migration::lemma_with_mirrors_sources(flow.recorded(added), mirrors);
    let path = keeping::law_some_way_ends(mirrored, before, node, key);
    decision::law_all_decided(mirrored, all_new, undecided, order.take(i));
    assert(before[node].keys == undecided[node].keys);
    assert forall|a: int, b: int| 0 <= a && b == a + 1 && b < path.len() implies terms::comes_from(
        mirrored,
        #[trigger] path[a],
        #[trigger] path[b],
    ) by {
        assert(mirrored.supplied_by(path[a], path[b]));
    }
    assert forall|a: int| 0 <= a < path.len() implies before[(#[trigger] path[a]).0].plan != Some(
        PlanView::Full,
    ) || !before.contains_key(path[a].0) by {
        assert(!replay::full(before, path[a].0));
    }
    assert(is_barred(mirrored, before, existing, order[i].index, path));
    assert(bars(flow, added, assigned, existing, column, i, path));
}

/// There are no more requirements than lookups.
proof fn lemma_requirements_bound(flow: Flow, added: Set<NodeIndex>, end: int)
    requires
        end <= u32::MAX,
    ensures
        flow.requirements(added, end).len() <= flow.lookups(added, end).len(),
    decreases end,
{
    if end > 0 {
        lemma_requirements_bound(flow, added, end - 1);
        let node = (end - 1) as NodeIndex;
        let f = |lookup: Column| flow.requirement(added, node, lookup);
        lemma_filter_map_len(flow.nodes[node as int].lookups, f);
    }
}

/// Requirements add no more edges than there are.
proof fn lemma_with_requirements_bound(edges: Seq<EdgeView>, requirements: Seq<Requirement>)
    ensures
        assign::with_requirements(edges, requirements).len() <= edges.len() + requirements.len(),
    decreases requirements.len(),
{
    if requirements.len() > 0 {
        let before = assign::with_requirements(edges, requirements.drop_last());
        lemma_with_requirements_bound(edges, requirements.drop_last());
        dataflow::lemma_newest(before, requirements.last().target, requirements.last().child);
    }
}

/// There are no more mirrors than lookups.
proof fn lemma_mirrors_bound(
    flow: Flow,
    added: Set<NodeIndex>,
    assigned: Map<NodeIndex, Column>,
)
    requires
        migration::plannable(flow, added),
        flow.nodes.len() <= u32::MAX,
    ensures
        flow.new_mirrors(added, assigned).len() <= flow.lookups(
            added,
            flow.nodes.len() as int,
        ).len(),
{
    let end = flow.nodes.len() as int;
    let recorded = flow.recorded(added);
    let copies = flow.copies(added, assigned);
    let mirrors = flow.new_mirrors(added, assigned);
    let lookups = flow.lookups(added, end);
    reshard::lemma_mirrors(copies);
    let places = Seq::new(
        mirrors.len(),
        |i: int|
            choose|k: int|
                0 <= k < lookups.len() && (#[trigger] lookups[k]).0 == mirrors[i].node
                    && flow.resolve(lookups[k].0, lookups[k].1)->0 == mirrors[i].want,
    );
    assert forall|i: int| 0 <= i < mirrors.len() implies {
        let k = #[trigger] places[i];
        0 <= k < lookups.len() && lookups[k].0 == mirrors[i].node && flow.resolve(
            lookups[k].0,
            lookups[k].1,
        )->0 == mirrors[i].want
    } by {
        assert(reshard::is_needed(copies, mirrors[i]));
        let r = choose|r: int|
            0 <= r < copies.len() && (#[trigger] copies[r]).mirror() == mirrors[i];
        keys::lemma_reshard_of(
            recorded,
            flow.sharded(added, assigned),
            flow.demanded(added),
            end,
            r,
        );
        let (node, column) = (copies[r].node, copies[r].column);
        keys::lemma_demanded(flow, added, node);
        keys::lemma_same_resolve(recorded, flow, node, column);
        assert(terms::is_looked_up(flow, added, node, column));
        keys::lemma_looked_up(flow, added, end, node, column);
        let by = choose|by: NodeIndex| terms::looks_up(flow, added, by, node, column);
        assert(terms::looks_up(flow, added, by, node, column));
        let k = choose|k: int| 0 <= k < lookups.len() && lookups[k] == (node, column);
        assert(lookups[k].0 == mirrors[i].node);
    }
    assert forall|i: int, j: int|
        0 <= i < places.len() && 0 <= j < places.len() && i != j implies places[i] != places[j] by {
        assert(mirrors[i] != mirrors[j]);
    }
    let range = vstd::set_lib::set_int_range(0, lookups.len() as int);
    vstd::set_lib::lemma_int_range(0, lookups.len() as int);
    places.unique_seq_to_set();
    assert forall|k: int| places.to_set().contains(k) implies range.contains(k) by {
        let i = choose|i: int| 0 <= i < places.len() && places[i] == k;
        assert(0 <= places[i] < lookups.len());
    }
    vstd::set_lib::lemma_len_subset(places.to_set(), range);
}

/// A migration is refused for want of indices only where nodes and edges, with one more of each for
/// every lookup of a new operator and one edge more to hold what the lookup requires, are more than
/// indices can tell apart.
pub proof fn law_graph_full(
    flow: Flow,
    added: Set<NodeIndex>,
    assigned: Map<NodeIndex, Column>,
)
    requires
        migration::plannable(flow, added),
        flow.nodes.len() <= u32::MAX,
        flow.plan(added, assigned) == Err::<MigrationPlanView, CommitError>(
            CommitError::GraphFull,
        ),
    ensures
        ({
            let count = flow.lookups(added, flow.nodes.len() as int).len();
            flow.nodes.len() + count > u32::MAX || flow.edges.len() + 2 * count > u32::MAX
        }),
{
    let end = flow.nodes.len() as int;
    lemma_requirements_bound(flow, added, end);
    lemma_with_requirements_bound(flow.edges, flow.requirements(added, end));
    lemma_mirrors_bound(flow, added, assigned);
    if flow.columns_exist(added, assigned) && flow.has_room(added, assigned) {
        lemma_later_errors(flow, added, assigned);
    }
}

/// Mapping adds no elements.
proof fn lemma_filter_map_len<A, B>(items: Seq<A>, f: spec_fn(A) -> Option<B>)
    ensures
        items.filter_map(f).len() <= items.len(),
    decreases items.len(),
{
    if items.len() > 0 {
        lemma_filter_map_len(items.drop_last(), f);
        items.lemma_filter_map_take_succ(f, items.len() - 1);
        assert(items.take(items.len() as int) =~= items);
        assert(items.take(items.len() - 1) =~= items.drop_last());
    }
}

/// Whether a new operator has to take the sharding of a parent over: it has none, does no lookups,
/// and is not looked into by others.
pub open spec fn has_to_inherit(
    flow: Flow,
    added: Set<NodeIndex>,
    assigned: Map<NodeIndex, Column>,
    node: NodeIndex,
) -> bool {
    &&& added.contains(node)
    &&& node < flow.nodes.len()
    &&& !assigned.contains_key(node)
    &&& flow.nodes[node as int].lookups.len() == 0
    &&& forall|column: usize| !#[trigger] terms::is_wanted(flow, added, node, column)
}

/// Whether operators wait for each other: each has to take the sharding of a parent over, and every
/// parent is one of them or an existing operator that has none.
pub open spec fn wait_for_each_other(
    flow: Flow,
    added: Set<NodeIndex>,
    assigned: Map<NodeIndex, Column>,
    nodes: Set<NodeIndex>,
) -> bool {
    &&& forall|node: NodeIndex| #[trigger]
        nodes.contains(node) ==> has_to_inherit(flow, added, assigned, node)
    &&& forall|e: int|
        #![trigger flow.edges[e]]
        0 <= e < flow.edges.len() && nodes.contains(flow.edges[e].target) ==> nodes.contains(
            flow.edges[e].source,
        ) || !added.contains(flow.edges[e].source) && !assigned.contains_key(flow.edges[e].source)
}

/// An operator of the graph has no sharding when operators take over that of a parent exactly if it
/// is an existing one that has none, or a new one that has to take one over.
proof fn lemma_undetermined(
    flow: Flow,
    added: Set<NodeIndex>,
    assigned: Map<NodeIndex, Column>,
    node: NodeIndex,
)
    requires
        migration::plannable(flow, added),
        flow.nodes.len() <= u32::MAX,
        node < flow.nodes.len(),
    ensures
        !flow.determined(added, assigned).contains_key(node) <==> !added.contains(node)
            && !assigned.contains_key(node) || has_to_inherit(flow, added, assigned, node),
{
    let end = flow.nodes.len() as int;
    let required = flow.required(added, assigned);
    let columns = assign::requested(flow.requirements(added, end), node);
    resolve::lemma_min_column(flow.nodes[node as int].lookups);
    shards::lemma_requested_by_lookups(flow, added, node);
    if columns.len() > 0 {
        assert(shards::is_required(flow, added, node, columns[0]));
        let column = choose|column: usize|
            flow.resolve(node, column)->0 == columns[0] && #[trigger] terms::is_wanted(
                flow,
                added,
                node,
                column,
            );
        let by = choose|by: NodeIndex| terms::wants(flow, added, by, node, column);
        assert(added.contains(node));
    }
    if added.contains(node) && columns.len() == 0 {
        assert forall|column: usize| !#[trigger] terms::is_wanted(flow, added, node, column) by {
            if terms::is_wanted(flow, added, node, column) {
                assert(columns.contains(flow.resolve(node, column)->0));
            }
        }
    }
}

/// The edges of a graph with mirrors that reach operators which have to take a sharding over were
/// there, or leave a mirror of the operator that they left.
proof fn lemma_edge_to_waiting(
    flow: Flow,
    added: Set<NodeIndex>,
    assigned: Map<NodeIndex, Column>,
    e: int,
) -> (was: int)
    requires
        migration::plannable(flow, added),
        flow.edges_within(),
        flow.has_room(added, assigned),
        0 <= e < flow.mirrored(added, assigned).edges.len(),
        has_to_inherit(
            flow,
            added,
            assigned,
            flow.mirrored(added, assigned).edges[e].target,
        ),
    ensures
        ({
            let edge = flow.mirrored(added, assigned).edges[e];
            let mirrors = flow.new_mirrors(added, assigned);
            let first = flow.nodes.len();
            &&& 0 <= was < flow.edges.len()
            &&& flow.edges[was].target == edge.target
            &&& edge.source == flow.edges[was].source || first <= edge.source < first
                + mirrors.len() && mirrors[edge.source - first].node == flow.edges[was].source
        }),
{
    let edges = flow.recorded(added).edges;
    let mirrors = flow.new_mirrors(added, assigned);
    let first = flow.nodes.len();
    let all = flow.mirrored(added, assigned).edges;
    let edge = all[e];
    assert(all.contains(edge));
    wiring::lemma_mirrored_edges(flow, added, assigned, edge);
    let before = if edges.contains(edge) {
        edge
    } else if exists|i: int| wiring::is_taken(edges, mirrors, first, edge, i) {
        let i = choose|i: int| wiring::is_taken(edges, mirrors, first, edge, i);
        EdgeView { source: mirrors[i].node, target: edge.target, weight: edge.weight }
    } else {
        let i = choose|i: int| wiring::is_feed(mirrors, first, edge, i);
        assert(edge.target >= first);
        edge
    };
    let was = choose|was: int| 0 <= was < edges.len() && edges[was] == before;
    let requirements = flow.requirements(added, flow.nodes.len() as int);
    wiring::lemma_with_requirements(flow.edges, requirements);
    if was >= flow.edges.len() {
        assert(wiring::runs_between(requirements, edges[was].source, edges[was].target));
        let r = choose|r: int|
            0 <= r < requirements.len() && (#[trigger] requirements[r]).target
                == edges[was].source && requirements[r].child == edges[was].target;
        shards::lemma_required_by_lookup(flow, added, flow.nodes.len() as int, r);
        let column = choose|column: usize|
            requirements[r].column == flow.resolve(requirements[r].target, column)->0
                && #[trigger] terms::wants(
                flow,
                added,
                requirements[r].child,
                requirements[r].target,
                column,
            );
        assert(flow.nodes[edge.target as int].lookups.contains((requirements[r].target, column)));
    }
    assert(dataflow::joins_same(edges[was], flow.edges[was]));
    was
}

/// A sharding gets to none of the operators that wait for each other.
proof fn lemma_not_reached(
    flow: Flow,
    added: Set<NodeIndex>,
    assigned: Map<NodeIndex, Column>,
    nodes: Set<NodeIndex>,
    waiting: Set<NodeIndex>,
    node: NodeIndex,
    steps: nat,
)
    requires
        migration::plannable(flow, added),
        flow.edges_within(),
        flow.has_room(added, assigned),
        wait_for_each_other(flow, added, assigned, nodes),
        nodes.contains(node),
        forall|other: NodeIndex| #[trigger] waiting.contains(other) ==> added.contains(other)
            || other >= flow.nodes.len(),
    ensures
        !inherit::gets_to(
            flow.mirrored(added, assigned).edges,
            flow.determined(added, assigned).dom(),
            waiting,
            node,
            steps,
        ),
    decreases steps,
{
    let edges = flow.mirrored(added, assigned).edges;
    let determined = flow.determined(added, assigned);
    let mirrors = flow.new_mirrors(added, assigned);
    let first = flow.nodes.len();
    lemma_undetermined(flow, added, assigned, node);
    if inherit::gets_to(edges, determined.dom(), waiting, node, steps) {
        let parents = dataflow::parents(edges, node);
        let p = choose|p: int|
            0 <= p < parents.len() && inherit::gets_to(
                edges,
                determined.dom(),
                waiting,
                #[trigger] parents[p],
                (steps - 1) as nat,
            );
        ancestry::lemma_parents(edges, node);
        assert(ancestry::joined(edges, parents[p], node));
        let e = choose|e: int|
            0 <= e < edges.len() && (#[trigger] edges[e]).source == parents[p] && edges[e].target
                == node;
        let was = lemma_edge_to_waiting(flow, added, assigned, e);
        let source = flow.edges[was].source;
        assert(source < flow.nodes.len());
        lemma_undetermined(flow, added, assigned, source);
        if edges[e].source == source {
            if nodes.contains(source) {
                lemma_not_reached(
                    flow,
                    added,
                    assigned,
                    nodes,
                    waiting,
                    source,
                    (steps - 1) as nat,
                );
            }
        } else {
            lemma_mirrored_is_sharded(flow, added, assigned, edges[e].source - first);
            assert(has_to_inherit(flow, added, assigned, source) || !added.contains(source));
        }
    }
}

/// What is mirrored is sharded.
proof fn lemma_mirrored_is_sharded(
    flow: Flow,
    added: Set<NodeIndex>,
    assigned: Map<NodeIndex, Column>,
    i: int,
)
    requires
        migration::plannable(flow, added),
        flow.has_room(added, assigned),
        0 <= i < flow.new_mirrors(added, assigned).len(),
    ensures
        flow.determined(added, assigned).contains_key(flow.new_mirrors(added, assigned)[i].node),
{
    let copies = flow.copies(added, assigned);
    let mirrors = flow.new_mirrors(added, assigned);
    reshard::lemma_mirrors(copies);
    assert(reshard::is_needed(copies, mirrors[i]));
    let r = choose|r: int| 0 <= r < copies.len() && (#[trigger] copies[r]).mirror() == mirrors[i];
    keys::lemma_reshard_of(
        flow.recorded(added),
        flow.sharded(added, assigned),
        flow.demanded(added),
        flow.nodes.len() as int,
        r,
    );
}

/// Where operators wait for each other, a migration comes to no plan.
pub proof fn law_waiting_refused(
    flow: Flow,
    added: Set<NodeIndex>,
    assigned: Map<NodeIndex, Column>,
    nodes: Set<NodeIndex>,
    node: NodeIndex,
)
    requires
        migration::plannable(flow, added),
        flow.edges_within(),
        wait_for_each_other(flow, added, assigned, nodes),
        nodes.contains(node),
    ensures
        flow.plan(added, assigned) is Err,
{
    if flow.plan(added, assigned) is Ok {
        let mirrored = flow.mirrored(added, assigned);
        let all_new = flow.all_new(added, assigned);
        let determined = flow.determined(added, assigned);
        let end = mirrored.nodes.len() as int;
        let waiting = inherit::unsharded_new(all_new, determined, end);
        guarantee::lemma_plan(flow, added, assigned);
        inherit::lemma_unsharded_new(all_new, determined, end);
        assert forall|i: int| 0 <= i < waiting.len() implies !determined.contains_key(
            #[trigger] waiting[i],
        ) by {
            assert(waiting.contains(waiting[i]));
        }
        inherit::law_inherited(mirrored.edges, determined, waiting);
        lemma_undetermined(flow, added, assigned, node);
        assert(waiting.contains(node));
        let i = choose|i: int| 0 <= i < waiting.len() && waiting[i] == node;
        assert(inherit::reached(
            mirrored.edges,
            determined.dom(),
            waiting.to_set(),
            waiting[i],
        ));
        let steps = choose|steps: nat|
            inherit::gets_to(mirrored.edges, determined.dom(), waiting.to_set(), node, steps);
        assert forall|other: NodeIndex| #[trigger]
            waiting.to_set().contains(other) implies added.contains(other) || other
            >= flow.nodes.len() by {
            assert(waiting.contains(other));
        }
        lemma_not_reached(flow, added, assigned, nodes, waiting.to_set(), node, steps);
    }
}

/// A migration is refused for want of a sharding only where new operators wait for each other.
pub proof fn law_no_progress_reason(
    flow: Flow,
    added: Set<NodeIndex>,
    assigned: Map<NodeIndex, Column>,
)
    requires
        migration::plannable(flow, added),
        flow.edges_within(),
        flow.nodes.len() <= u32::MAX,
        flow.plan(added, assigned) == Err::<MigrationPlanView, CommitError>(
            CommitError::NoProgress,
        ),
    ensures
        exists|nodes: Set<NodeIndex>| #[trigger]
            wait_for_each_other(flow, added, assigned, nodes) && !nodes.is_empty(),
{
    let mirrored = flow.mirrored(added, assigned);
    let all_new = flow.all_new(added, assigned);
    let determined = flow.determined(added, assigned);
    let mirrors = flow.new_mirrors(added, assigned);
    let first = flow.nodes.len();
    let end = mirrored.nodes.len() as int;
    let waiting = inherit::unsharded_new(all_new, determined, end);
    let edges = mirrored.edges;
    reshard::lemma_with_mirrors(flow.recorded(added), mirrors);
    if flow.kept(added, assigned) is Err {
        let found = lemma_planned_error(
            mirrored,
            all_new,
            flow.undecided(added, assigned),
            flow.order(added, assigned),
        );
    }
    inherit::lemma_unsharded_new(all_new, determined, end);
    assert forall|i: int| 0 <= i < waiting.len() implies !determined.contains_key(
        #[trigger] waiting[i],
    ) by {
        assert(waiting.contains(waiting[i]));
    }
    inherit::law_inherited(edges, determined, waiting);
    let set = waiting.to_set();
    let nodes = Set::new(
        |node: NodeIndex|
            set.contains(node) && !inherit::reached(edges, determined.dom(), set, node),
    );
    let i = choose|i: int|
        0 <= i < waiting.len() && !inherit::reached(
            edges,
            determined.dom(),
            set,
            #[trigger] waiting[i],
        );
    assert(waiting.contains(waiting[i]));
    assert(nodes.contains(waiting[i]));
    assert forall|node: NodeIndex| #[trigger] nodes.contains(node) implies has_to_inherit(
        flow,
        added,
        assigned,
        node,
    ) by {
        assert(waiting.contains(node));
        assert(node < first);
        lemma_undetermined(flow, added, assigned, node);
    }
    assert forall|e: int|
        #![trigger flow.edges[e]]
        0 <= e < flow.edges.len() && nodes.contains(flow.edges[e].target) implies nodes.contains(
        flow.edges[e].source,
    ) || !added.contains(flow.edges[e].source) && !assigned.contains_key(
        flow.edges[e].source,
    ) by {
        let (source, target) = (flow.edges[e].source, flow.edges[e].target);
        let recorded = flow.recorded(added).edges;
        let requirements = flow.requirements(added, flow.nodes.len() as int);
        wiring::lemma_with_requirements(flow.edges, requirements);
        assert(dataflow::joins_same(recorded[e], flow.edges[e]));
        let edge = recorded[e];
        assert(recorded.contains(edge));
        wiring::lemma_mirrored_edges(flow, added, assigned, edge);
        lemma_undetermined(flow, added, assigned, source);
        let parent = if takeover::demanded(mirrors, edge) {
            let i = choose|i: int|
                0 <= i < mirrors.len() && reshard::demands(
                    edge,
                    (#[trigger] mirrors[i]).node,
                    mirrors[i].want,
                );
            let moved = EdgeView {
                source: (first + i) as NodeIndex,
                target,
                weight: edge.weight,
            };
            assert(wiring::is_taken(recorded, mirrors, first, moved, i));
            wiring::lemma_mirrored_edges(flow, added, assigned, moved);
            assert(edges.contains(moved));
            (first + i) as NodeIndex
        } else {
            assert(edges.contains(edge));
            source
        };
        let k = choose|k: int|
            0 <= k < edges.len() && (#[trigger] edges[k]).source == parent && edges[k].target
                == target;
        ancestry::lemma_parents(edges, target);
        let parents = dataflow::parents(edges, target);
        assert(edges[k].target == target);
        assert(parents.contains(parent));
        let p = choose|p: int| 0 <= p < parents.len() && parents[p] == parent;
        if inherit::reached(edges, determined.dom(), set, parent) {
            let steps = choose|steps: nat|
                inherit::gets_to(edges, determined.dom(), set, parent, steps);
            assert(inherit::gets_to(edges, determined.dom(), set, parents[p], steps));
            assert(inherit::gets_to(edges, determined.dom(), set, target, steps + 1));
        }
        if determined.contains_key(parent) {
            assert(inherit::gets_to(edges, determined.dom(), set, parent, 0));
        }
        assert(parent == source);
        if added.contains(source) {
            assert(all_new.contains(source));
            assert(waiting.contains(source));
            assert(nodes.contains(source));
        }
    }
    assert(wait_for_each_other(flow, added, assigned, nodes));
}

} // verus!
