//! Which way every plan shards operators.

use vstd::prelude::*;

use super::terms;
use crate::assign;
use crate::assign::Requirement;
use crate::dataflow;
use crate::dataflow::Flow;
use crate::guarantee;
use crate::inherit;
use crate::migration;
use crate::order;
use crate::resolve;
use crate::sharding::{Column, NodeIndex};

verus! {

/// The lookup into the smallest operator, the first such where there are several, is the least.
pub proof fn lemma_smallest_lookup(lookups: Seq<Column>, i: int)
    requires
        0 <= i < lookups.len(),
        forall|j: int|
            #![trigger lookups[j]]
            0 <= j < lookups.len() ==> lookups[i].0 <= lookups[j].0 && (j < i ==> lookups[i].0
                < lookups[j].0),
    ensures
        resolve::min_column(lookups) == Some(lookups[i]),
{
    resolve::lemma_min_column(lookups);
    let least = resolve::min_column(lookups)->0;
    let k = choose|k: int|
        #![trigger lookups[k]]
        0 <= k < lookups.len() && lookups[k] == least && (forall|j: int|
            #![trigger lookups[j]]
            0 <= j < lookups.len() ==> least.0 <= lookups[j].0 && (j < k ==> least.0
                < lookups[j].0));
    assert(lookups[i].0 <= lookups[k].0);
    assert(lookups[k].0 <= lookups[i].0);
    assert(k == i);
}

/// A new operator that does lookups is sharded by what it looks up: of its lookups the one into the
/// smallest operator decides, and of several into that operator the first.
pub proof fn law_sharded_by_smallest_lookup(
    flow: Flow,
    added: Set<NodeIndex>,
    assigned: Map<NodeIndex, Column>,
    node: NodeIndex,
    i: int,
)
    requires
        migration::plannable(flow, added),
        added.contains(node),
        0 <= i < flow.nodes[node as int].lookups.len(),
        forall|j: int|
            #![trigger flow.nodes[node as int].lookups[j]]
            0 <= j < flow.nodes[node as int].lookups.len() ==> {
                let least = flow.nodes[node as int].lookups[i].0;
                let other = flow.nodes[node as int].lookups[j].0;
                least <= other && (j < i ==> least < other)
            },
    ensures
        flow.plan(added, assigned) matches Ok(plan) ==> {
            let (target, column) = flow.nodes[node as int].lookups[i];
            &&& plan.shardings.contains_key(node)
            &&& Some(plan.shardings[node]) == flow.resolve(target, column)
        },
{
    lemma_smallest_lookup(flow.nodes[node as int].lookups, i);
    guarantee::law_sharded_by_lookup(flow, added, assigned, node);
}

/// The image of an element stands among the images, and those after it are of later elements.
pub proof fn lemma_filter_map_place<A, B>(items: Seq<A>, f: spec_fn(A) -> Option<B>, k: int) -> (r:
    int)
    requires
        0 <= k < items.len(),
        f(items[k]) is Some,
    ensures
        0 <= r < items.filter_map(f).len(),
        items.filter_map(f)[r] == f(items[k])->0,
        forall|q: int|
            #![trigger items.filter_map(f)[q]]
            r < q < items.filter_map(f).len() ==> exists|m: int|
                #![trigger items[m]]
                k < m < items.len() && f(items[m]) == Some(items.filter_map(f)[q]),
    decreases items.len(),
{
    let rest = items.drop_last();
    let all = items.filter_map(f);
    let before = rest.filter_map(f);
    items.lemma_filter_map_take_succ(f, items.len() - 1);
    assert(items.take(items.len() as int) =~= items);
    assert(items.take(items.len() - 1) =~= rest);
    if k < rest.len() {
        assert(rest[k] == items[k]);
        let r = lemma_filter_map_place(rest, f, k);
        assert(all[r] == before[r]);
        assert forall|q: int| #![trigger all[q]] r < q < all.len() implies exists|m: int|
            #![trigger items[m]]
            k < m < items.len() && f(items[m]) == Some(all[q]) by {
            if q < before.len() {
                assert(all[q] == before[q]);
                let m = choose|m: int|
                    #![trigger rest[m]]
                    k < m < rest.len() && f(rest[m]) == Some(before[q]);
                assert(items[m] == rest[m]);
            } else {
                assert(f(items[items.len() - 1]) == Some(all[q]));
            }
        }
        r
    } else {
        assert(all[before.len() as int] == f(items[k])->0);
        before.len() as int
    }
}

/// What a lookup of a new operator into another requires is required, and a later requirement of
/// the same two operators comes from a later lookup.
pub proof fn lemma_lookup_required(
    flow: Flow,
    added: Set<NodeIndex>,
    end: int,
    node: NodeIndex,
    k: int,
) -> (r: int)
    requires
        node < end <= flow.nodes.len(),
        end <= u32::MAX,
        added.contains(node),
        0 <= k < flow.nodes[node as int].lookups.len(),
        added.contains(flow.nodes[node as int].lookups[k].0),
        flow.nodes[node as int].lookups[k].0 != node,
    ensures
        ({
            let requirements = flow.requirements(added, end);
            let lookups = flow.nodes[node as int].lookups;
            let (target, column) = lookups[k];
            &&& 0 <= r < requirements.len()
            &&& requirements[r] == Requirement {
                target,
                child: node,
                column: flow.resolve(target, column)->0,
            }
            &&& forall|q: int|
                #![trigger requirements[q]]
                r < q < requirements.len() && requirements[q].child == node ==> exists|m: int|
                    #![trigger lookups[m]]
                    k < m < lookups.len() && lookups[m].0 == requirements[q].target
        }),
    decreases end,
{
    let requirements = flow.requirements(added, end);
    let before = flow.requirements(added, end - 1);
    let last = (end - 1) as NodeIndex;
    let own = flow.requirements_of(added, last);
    let lookups = flow.nodes[node as int].lookups;
    let f = |lookup: Column| flow.requirement(added, last, lookup);
    if node < end - 1 {
        let r = lemma_lookup_required(flow, added, end - 1, node, k);
        assert(requirements[r] == before[r]);
        assert forall|q: int|
            #![trigger requirements[q]]
            r < q < requirements.len() && requirements[q].child == node implies exists|m: int|
            #![trigger lookups[m]]
            k < m < lookups.len() && lookups[m].0 == requirements[q].target by {
            if q < before.len() {
                assert(requirements[q] == before[q]);
            } else {
                let requirement = own[q - before.len()];
                assert(requirements[q] == requirement);
                assert(own.contains(requirement));
                flow.nodes[last as int].lookups.lemma_filter_map_contains(f, requirement);
            }
        }
        r
    } else {
        let r = lemma_filter_map_place(lookups, f, k);
        assert(own == lookups.filter_map(f));
        assert(requirements[before.len() + r] == own[r]);
        assert forall|q: int|
            #![trigger requirements[q]]
            before.len() + r < q < requirements.len() && requirements[q].child == node implies
            exists|m: int|
            #![trigger lookups[m]]
            k < m < lookups.len() && lookups[m].0 == requirements[q].target by {
            assert(requirements[q] == own[q - before.len()]);
            let m = choose|m: int|
                #![trigger lookups[m]]
                k < m < lookups.len() && f(lookups[m]) == Some(own[q - before.len()]);
            assert(lookups[m].0 == requirements[q].target);
        }
        before.len() + r
    }
}

/// What is required comes from a lookup of a new operator into another.
pub proof fn lemma_required_by_lookup(flow: Flow, added: Set<NodeIndex>, end: int, r: int)
    requires
        end <= flow.nodes.len(),
        end <= u32::MAX,
        0 <= r < flow.requirements(added, end).len(),
    ensures
        ({
            let requirement = flow.requirements(added, end)[r];
            exists|column: usize|
                requirement.column == flow.resolve(requirement.target, column)->0
                    && #[trigger] terms::wants(
                    flow,
                    added,
                    requirement.child,
                    requirement.target,
                    column,
                )
        }),
    decreases end,
{
    let requirements = flow.requirements(added, end);
    let requirement = requirements[r];
    let before = flow.requirements(added, end - 1);
    let last = (end - 1) as NodeIndex;
    if r < before.len() {
        assert(requirement == before[r]);
        lemma_required_by_lookup(flow, added, end - 1, r);
        let column = choose|column: usize|
            requirement.column == flow.resolve(requirement.target, column)->0
                && #[trigger] terms::wants(
                flow,
                added,
                requirement.child,
                requirement.target,
                column,
            );
        assert(terms::wants(flow, added, requirement.child, requirement.target, column));
    } else {
        let own = flow.requirements_of(added, last);
        let lookups = flow.nodes[last as int].lookups;
        let f = |lookup: Column| flow.requirement(added, last, lookup);
        assert(requirement == own[r - before.len()]);
        assert(own.contains(requirement));
        lookups.lemma_filter_map_contains(f, requirement);
        let lookup = choose|lookup: Column|
            #![trigger lookups.contains(lookup)]
            lookups.contains(lookup) && f(lookup) == Some(requirement);
        assert(lookup == (requirement.target, lookup.1));
        let column = lookup.1;
        assert(requirement.column == flow.resolve(requirement.target, column)->0);
        assert(requirement.child == last);
        assert(lookups.contains((requirement.target, column)));
        assert(terms::wants(flow, added, requirement.child, requirement.target, column));
    }
}

/// Whether an operator is looked up by a column that resolves to that one.
pub open spec fn is_required(
    flow: Flow,
    added: Set<NodeIndex>,
    node: NodeIndex,
    want: Column,
) -> bool {
    exists|column: usize|
        flow.resolve(node, column)->0 == want && #[trigger] terms::is_wanted(
            flow,
            added,
            node,
            column,
        )
}

/// The columns that an operator is required to be sharded by are those that other new operators
/// look it up by.
pub proof fn lemma_requested_by_lookups(flow: Flow, added: Set<NodeIndex>, node: NodeIndex)
    requires
        migration::plannable(flow, added),
        flow.nodes.len() <= u32::MAX,
    ensures
        ({
            let columns = assign::requested(
                flow.requirements(added, flow.nodes.len() as int),
                node,
            );
            &&& forall|column: usize| #[trigger]
                terms::is_wanted(flow, added, node, column) ==> columns.contains(
                    flow.resolve(node, column)->0,
                )
            &&& forall|i: int|
                #![trigger columns[i]]
                0 <= i < columns.len() ==> is_required(flow, added, node, columns[i])
        }),
{
    let end = flow.nodes.len() as int;
    let requirements = flow.requirements(added, end);
    let columns = assign::requested(requirements, node);
    let f = |requirement: Requirement|
        if requirement.target == node {
            Some(requirement.column)
        } else {
            None
        };
    assert(columns == requirements.filter_map(f));
    assert forall|column: usize| #[trigger]
        terms::is_wanted(flow, added, node, column) implies columns.contains(
        flow.resolve(node, column)->0,
    ) by {
        let by = choose|by: NodeIndex| terms::wants(flow, added, by, node, column);
        let lookups = flow.nodes[by as int].lookups;
        let k = choose|k: int| 0 <= k < lookups.len() && lookups[k] == (node, column);
        let r = lemma_lookup_required(flow, added, end, by, k);
        assert(requirements.contains(requirements[r]));
        dataflow::lemma_filter_map_keeps(requirements, f, requirements[r]);
    }
    assert forall|i: int| #![trigger columns[i]] 0 <= i < columns.len() implies is_required(
        flow,
        added,
        node,
        columns[i],
    ) by {
        assert(columns.contains(columns[i]));
        requirements.lemma_filter_map_contains(f, columns[i]);
        let requirement = choose|requirement: Requirement|
            #![trigger requirements.contains(requirement)]
            requirements.contains(requirement) && f(requirement) == Some(columns[i]);
        let r = choose|r: int| 0 <= r < requirements.len() && requirements[r] == requirement;
        lemma_required_by_lookup(flow, added, end, r);
        let column = choose|column: usize|
            requirement.column == flow.resolve(requirement.target, column)->0
                && #[trigger] terms::wants(
                flow,
                added,
                requirement.child,
                requirement.target,
                column,
            );
        assert(terms::is_wanted(flow, added, node, column));
    }
}

/// A lookup of a new operator into another new one exists as a column, is required of the other,
/// and the other is sharded.
pub proof fn law_lookup_is_required(
    flow: Flow,
    added: Set<NodeIndex>,
    assigned: Map<NodeIndex, Column>,
    node: NodeIndex,
    k: int,
)
    requires
        migration::plannable(flow, added),
        added.contains(node),
        0 <= k < flow.nodes[node as int].lookups.len(),
        added.contains(flow.nodes[node as int].lookups[k].0),
        flow.nodes[node as int].lookups[k].0 != node,
    ensures
        flow.plan(added, assigned) matches Ok(plan) ==> {
            let (target, column) = flow.nodes[node as int].lookups[k];
            &&& flow.resolve(target, column) is Some
            &&& flow.requirements(added, flow.nodes.len() as int).contains(
                Requirement {
                    target,
                    child: node,
                    column: flow.resolve(target, column)->0,
                },
            )
            &&& plan.shardings.contains_key(target)
        },
{
    if flow.plan(added, assigned) is Ok {
        let end = flow.nodes.len() as int;
        let lookups = flow.nodes[node as int].lookups;
        let r = lemma_lookup_required(flow, added, end, node, k);
        guarantee::law_looked_into_is_sharded(flow, added, assigned);
        assert(flow.plan(added, assigned)->Ok_0.shardings.contains_key(
            flow.requirements(added, end)[r].target,
        ));
        assert(flow.lookups_of_resolve(added, node));
        assert(lookups[k].0 != node);
    }
}

/// Whether an operator does no lookups itself.
pub open spec fn does_no_lookups(flow: Flow, node: NodeIndex) -> bool {
    flow.nodes[node as int].lookups.len() == 0
}

/// A new operator that does no lookups, has no sharding yet and is looked into by others is sharded
/// by one of the columns that it is looked up by, the least: by operator, then by column.
pub proof fn law_sharded_by_least_lookup(
    flow: Flow,
    added: Set<NodeIndex>,
    assigned: Map<NodeIndex, Column>,
    node: NodeIndex,
    column: usize,
)
    requires
        migration::plannable(flow, added),
        added.contains(node),
        does_no_lookups(flow, node),
        !assigned.contains_key(node),
        terms::is_wanted(flow, added, node, column),
    ensures
        flow.plan(added, assigned) matches Ok(plan) ==> {
            &&& plan.shardings.contains_key(node)
            &&& exists|other: usize|
                flow.resolve(node, other) == Some(plan.shardings[node])
                    && #[trigger] terms::is_wanted(flow, added, node, other)
            &&& flow.resolve(node, column) matches Some((base, by)) && (plan.shardings[node].0
                < base || plan.shardings[node].0 == base && plan.shardings[node].1 <= by)
        },
{
    if let Ok(plan) = flow.plan(added, assigned) {
        let end = flow.nodes.len() as int;
        let requirements = flow.requirements(added, end);
        let required = flow.required(added, assigned);
        let columns = assign::requested(requirements, node);
        lemma_requested_by_lookups(flow, added, node);
        assert(columns.contains(flow.resolve(node, column)->0));
        resolve::lemma_min_column(flow.nodes[node as int].lookups);
        assert(!required.contains_key(node));
        assign::law_least_required(requirements, required, end, node);
        guarantee::law_plan_shardings(flow, added, assigned, node);
        let sharding = plan.shardings[node];
        assert(sharding == flow.sharded(added, assigned)[node]);
        let i = choose|i: int| 0 <= i < columns.len() && columns[i] == sharding;
        let other = choose|other: usize|
            columns[i] == flow.resolve(node, other)->0 && #[trigger] terms::is_wanted(
                flow,
                added,
                node,
                other,
            );
        lemma_wanted_resolves(flow, added, assigned, node, other);
        lemma_wanted_resolves(flow, added, assigned, node, column);
        let j = choose|j: int|
            0 <= j < columns.len() && columns[j] == flow.resolve(node, column)->0;
        assert(!assign::precedes(columns[j], sharding));
    }
}

/// A column of a new operator that another looks up exists.
pub proof fn lemma_wanted_resolves(
    flow: Flow,
    added: Set<NodeIndex>,
    assigned: Map<NodeIndex, Column>,
    node: NodeIndex,
    column: usize,
)
    requires
        migration::plannable(flow, added),
        flow.plan(added, assigned) is Ok,
        terms::is_wanted(flow, added, node, column),
    ensures
        flow.resolve(node, column) is Some,
{
    let by = choose|by: NodeIndex| terms::wants(flow, added, by, node, column);
    let lookups = flow.nodes[by as int].lookups;
    let k = choose|k: int| 0 <= k < lookups.len() && lookups[k] == (node, column);
    assert(flow.lookups_of_resolve(added, by));
    assert(lookups[k].0 != by);
}

/// An operator that has a sharding keeps it, unless it is new and does lookups. Besides those that
/// have one, exactly the new operators get one, mirrors among them.
pub proof fn law_shardings_kept(
    flow: Flow,
    added: Set<NodeIndex>,
    assigned: Map<NodeIndex, Column>,
    node: NodeIndex,
)
    requires
        migration::plannable(flow, added),
    ensures
        flow.plan(added, assigned) matches Ok(plan) ==> {
            &&& assigned.contains_key(node) && node < flow.nodes.len() && !(added.contains(node)
                && flow.nodes[node as int].lookups.len() > 0) ==> plan.shardings[node]
                == assigned[node]
            &&& plan.shardings.contains_key(node) <==> assigned.contains_key(node)
                || added.contains(node) || flow.nodes.len() <= node < plan.flow.nodes.len()
        },
{
    if let Ok(plan) = flow.plan(added, assigned) {
        let end = flow.nodes.len() as int;
        let determined = flow.determined(added, assigned);
        let whole = plan.flow.nodes.len() as int;
        let waiting = inherit::unsharded_new(plan.added, determined, whole);
        if node < end {
            resolve::lemma_min_column(flow.nodes[node as int].lookups);
        }
        guarantee::law_looked_into_is_sharded(flow, added, assigned);
        guarantee::law_plan_shardings(flow, added, assigned, node);
        guarantee::lemma_plan(flow, added, assigned);
        inherit::lemma_unsharded_new(plan.added, determined, whole);
        assert forall|i: int| 0 <= i < waiting.len() implies !determined.contains_key(
            #[trigger] waiting[i],
        ) by {
            assert(waiting.contains(waiting[i]));
        }
        inherit::law_inherited(plan.flow.edges, determined, waiting);
        if plan.shardings.contains_key(node) && !assigned.contains_key(node) {
            assert(determined.dom().union(waiting.to_set()).contains(node));
            if determined.contains_key(node) {
                if !(end <= node < whole) {
                    let requirements = flow.requirements(added, end);
                    let columns = assign::requested(requirements, node);
                    if !flow.required(added, assigned).contains_key(node) {
                        lemma_requested_by_lookups(flow, added, node);
                        assert(columns.len() > 0);
                        assert(columns[0] == columns[0]);
                        let column = choose|column: usize|
                            columns[0] == flow.resolve(node, column)->0
                                && #[trigger] terms::is_wanted(flow, added, node, column);
                        let by = choose|by: NodeIndex|
                            terms::wants(flow, added, by, node, column);
                        assert(added.contains(node));
                    }
                }
            } else {
                assert(waiting.contains(node));
            }
        }
        if assigned.contains_key(node) {
            assert(determined.contains_key(node));
            assert(determined.dom().union(waiting.to_set()).contains(node));
        }
    }
}

/// An operator that takes the sharding of a parent over takes that of the newest parent that is
/// sharded. It is a new operator that has no sharding, does no lookups, and is not looked into.
pub proof fn law_takes_after_newest_parent(
    flow: Flow,
    added: Set<NodeIndex>,
    assigned: Map<NodeIndex, Column>,
    node: NodeIndex,
)
    requires
        migration::plannable(flow, added),
        flow.topological(),
        added.contains(node),
        does_no_lookups(flow, node),
        !assigned.contains_key(node),
        forall|column: usize| !#[trigger] terms::is_wanted(flow, added, node, column),
    ensures
        flow.plan(added, assigned) matches Ok(plan) ==> exists|e: int|
            #![trigger plan.flow.edges[e]]
            {
                let edges = plan.flow.edges;
                &&& 0 <= e < edges.len()
                &&& edges[e].target == node
                &&& plan.shardings.contains_key(edges[e].source)
                &&& plan.shardings[node] == plan.shardings[edges[e].source]
                &&& forall|later: int|
                    e < later < edges.len() && (#[trigger] edges[later]).target == node
                        ==> !plan.shardings.contains_key(edges[later].source)
            },
{
    if let Ok(plan) = flow.plan(added, assigned) {
        let end = flow.nodes.len() as int;
        let edges = plan.flow.edges;
        let determined = flow.determined(added, assigned);
        let whole = plan.flow.nodes.len() as int;
        let waiting = inherit::unsharded_new(plan.added, determined, whole);
        let mirrors = flow.new_mirrors(added, assigned);
        guarantee::lemma_plan(flow, added, assigned);
        migration::lemma_undecided(flow, added, assigned);
        migration::lemma_recorded(flow, added);
        resolve::lemma_min_column(flow.nodes[node as int].lookups);
        lemma_requested_by_lookups(flow, added, node);
        let columns = assign::requested(flow.requirements(added, end), node);
        if columns.len() > 0 {
            let column = choose|column: usize|
                columns[0] == flow.resolve(node, column)->0 && #[trigger] terms::is_wanted(
                    flow,
                    added,
                    node,
                    column,
                );
            assert(false);
        }
        assert(!determined.contains_key(node));
        inherit::lemma_unsharded_new(plan.added, determined, whole);
        inherit::lemma_unsharded_ascend(plan.added, determined, whole);
        assert(waiting.contains(node));
        let i = choose|i: int| 0 <= i < waiting.len() && waiting[i] == node;
        assert forall|i: int| 0 <= i < waiting.len() implies !determined.contains_key(
            #[trigger] waiting[i],
        ) by {
            assert(waiting.contains(waiting[i]));
        }
        assert forall|e: int, i: int|
            0 <= e < edges.len() && 0 <= i < waiting.len() && (#[trigger] edges[e]).target == (
            #[trigger] waiting[i]) implies determined.contains_key(edges[e].source)
            || edges[e].source < waiting[i] by {
            assert(waiting.contains(waiting[i]));
            assert(waiting[i] < end);
            order::lemma_edges_descend(flow.recorded(added), mirrors, e);
            order::lemma_edges_within(flow.recorded(added), mirrors, e);
        }
        inherit::lemma_takes_after_newest(edges, determined, waiting, i);
    }
}

} // verus!
