//! Which way operators are sharded because of the lookups that are done by them and into them.

use std::collections::{HashMap, HashSet};
use vstd::prelude::*;

use crate::dataflow;
use crate::dataflow::{
    children_of, edge_count, find_edge, node_count, operator, update_edge, EdgeView, Flow,
    FlowGraph,
};
use crate::error::CommitError;
use crate::resolve;
use crate::resolve::{least_column, resolve_column};
use crate::sharding::{Column, NodeIndex, Sharding};

verus! {

/// A new operator looks into another new operator, which should therefore be sharded by the column
/// of the lookup.
#[derive(Clone, Copy, Debug, PartialEq, Eq)]
pub struct Requirement {
    /// The operator that is looked into.
    pub target: NodeIndex,
    /// The operator that does the lookup.
    pub child: NodeIndex,
    /// What the column of the lookup resolves to.
    pub column: Column,
}

impl Requirement {
    /// The edge that the requirement runs along.
    pub open spec fn edge(self) -> EdgeView {
        EdgeView {
            source: self.target,
            target: self.child,
            weight: Sharding::By(self.column.0, self.column.1),
        }
    }
}

impl Flow {
    /// What a lookup of a node requires of another new node.
    pub open spec fn requirement(
        self,
        added: Set<NodeIndex>,
        node: NodeIndex,
        lookup: Column,
    ) -> Option<Requirement> {
        if added.contains(lookup.0) && lookup.0 != node {
            Some(
                Requirement {
                    target: lookup.0,
                    child: node,
                    column: self.resolve(lookup.0, lookup.1)->0,
                },
            )
        } else {
            None
        }
    }

    /// What the lookups of a node require of other new nodes.
    pub open spec fn requirements_of(self, added: Set<NodeIndex>, node: NodeIndex) -> Seq<
        Requirement,
    > {
        self.nodes[node as int].lookups.filter_map(
            |lookup: Column| self.requirement(added, node, lookup),
        )
    }

    /// What the lookups of the new nodes before `end` require of other new nodes.
    pub open spec fn requirements(self, added: Set<NodeIndex>, end: int) -> Seq<Requirement>
        decreases end,
    {
        if end <= 0 {
            Seq::empty()
        } else if added.contains((end - 1) as NodeIndex) {
            self.requirements(added, end - 1) + self.requirements_of(added, (end - 1) as NodeIndex)
        } else {
            self.requirements(added, end - 1)
        }
    }

    /// The lookup that the sharding of a node follows: the one into the smallest operator.
    pub open spec fn leading_lookup(self, node: NodeIndex) -> Option<Column> {
        resolve::min_column(self.nodes[node as int].lookups)
    }

    /// The lookup that decides the sharding of a node exists, and so do the ones into other new
    /// nodes.
    pub open spec fn lookups_of_resolve(self, added: Set<NodeIndex>, node: NodeIndex) -> bool {
        &&& self.leading_lookup(node) matches Some(lookup) ==> self.resolve(
            lookup.0,
            lookup.1,
        ) is Some
        &&& forall|i: int|
            #![trigger self.nodes[node as int].lookups[i]]
            0 <= i < self.nodes[node as int].lookups.len() ==> {
                let lookup = self.nodes[node as int].lookups[i];
                added.contains(lookup.0) && lookup.0 != node ==> self.resolve(
                    lookup.0,
                    lookup.1,
                ) is Some
            }
    }

    /// The lookups of the new nodes before `end` exist.
    pub open spec fn lookups_resolve(self, added: Set<NodeIndex>, end: int) -> bool {
        forall|node: NodeIndex|
            node < end && added.contains(node) ==> #[trigger] self.lookups_of_resolve(added, node)
    }

    /// A new node before `end` that does lookups.
    pub open spec fn looks_up(self, added: Set<NodeIndex>, node: NodeIndex, end: int) -> bool {
        node < end && added.contains(node) && self.leading_lookup(node) is Some
    }

    /// The shardings once every new node before `end` that does lookups is sharded by what its
    /// leading lookup resolves to.
    pub open spec fn sharded_by_lookups(
        self,
        added: Set<NodeIndex>,
        assigned: Map<NodeIndex, Column>,
        end: int,
    ) -> Map<NodeIndex, Column> {
        Map::new(
            |node: NodeIndex| assigned.contains_key(node) || self.looks_up(added, node, end),
            |node: NodeIndex|
                if self.looks_up(added, node, end) {
                    let lookup = self.leading_lookup(node)->0;
                    self.resolve(lookup.0, lookup.1)->0
                } else {
                    assigned[node]
                },
        )
    }
}

/// What the lookups of a node require of other new nodes; `None` where a column does not exist.
fn required_by(graph: &FlowGraph, added: &HashSet<NodeIndex>, node: NodeIndex) -> (required: Option<
    Vec<Requirement>,
>)
    requires
        dataflow::flow(*graph).wf(),
        node < dataflow::flow(*graph).nodes.len(),
    ensures
        ({
            let flow = dataflow::flow(*graph);
            let lookups = flow.nodes[node as int].lookups;
            let resolve = forall|i: int|
                #![trigger lookups[i]]
                0 <= i < lookups.len() && added@.contains(lookups[i].0) && lookups[i].0 != node
                    ==> flow.resolve(lookups[i].0, lookups[i].1) is Some;
            match required {
                Some(required) => resolve && required@ == flow.requirements_of(added@, node),
                None => !resolve,
            }
        }),
{
    let ghost flow = dataflow::flow(*graph);
    let ghost f = |lookup: Column| flow.requirement(added@, node, lookup);
    let lookups = operator(graph, node).lookup_in();
    let mut required: Vec<Requirement> = Vec::new();
    for i in 0..lookups.len()
        invariant
            flow == dataflow::flow(*graph),
            flow.wf(),
            node < flow.nodes.len(),
            lookups@ == flow.nodes[node as int].lookups,
            f == (|lookup: Column| flow.requirement(added@, node, lookup)),
            required@ == lookups@.take(i as int).filter_map(f),
            forall|j: int|
                #![trigger lookups@[j]]
                0 <= j < i && added@.contains(lookups@[j].0) && lookups@[j].0 != node
                    ==> flow.resolve(lookups@[j].0, lookups@[j].1) is Some,
    {
        proof {
            lookups@.lemma_filter_map_take_succ(f, i as int);
        }
        let (target, column) = lookups[i];
        assert(flow.nodes[node as int].lookups[i as int].0 < flow.nodes.len());
        if added.contains(&target) && target != node {
            match resolve_column(graph, target, column) {
                Some(column) => required.push(Requirement { target, child: node, column }),
                None => {
                    return None;
                },
            }
        }
    }
    assert(lookups@.take(lookups@.len() as int) =~= lookups@);
    Some(required)
}

/// Finds the shardings that lookups require. A new node that does lookups is sharded by what it
/// looks up by. A new node that is looked into should be sharded by what it is looked up by, which
/// is returned as requirements.
pub fn required_shardings(
    graph: &FlowGraph,
    added: &HashSet<NodeIndex>,
    assigned: HashMap<NodeIndex, Column>,
) -> (required: Result<(HashMap<NodeIndex, Column>, Vec<Requirement>), CommitError>)
    requires
        dataflow::flow(*graph).wf(),
    ensures
        ({
            let flow = dataflow::flow(*graph);
            let end = flow.nodes.len() as int;
            match required {
                Ok((sharded, requirements)) => {
                    &&& flow.lookups_resolve(added@, end)
                    &&& sharded@ == flow.sharded_by_lookups(added@, assigned@, end)
                    &&& requirements@ == flow.requirements(added@, end)
                },
                Err(error) => error == CommitError::UnknownColumn && !flow.lookups_resolve(
                    added@,
                    end,
                ),
            }
        }),
{
    let ghost flow = dataflow::flow(*graph);
    let count: usize = node_count(graph);
    let mut sharded = assigned;
    let mut requirements: Vec<Requirement> = Vec::new();
    let mut node: NodeIndex = 0;
    assert(sharded@ =~= flow.sharded_by_lookups(added@, assigned@, 0));
    while (node as usize) < count
        invariant
            flow == dataflow::flow(*graph),
            flow.wf(),
            count == flow.nodes.len(),
            node <= count <= u32::MAX,
            flow.lookups_resolve(added@, node as int),
            sharded@ == flow.sharded_by_lookups(added@, assigned@, node as int),
            requirements@ == flow.requirements(added@, node as int),
        decreases count - node,
    {
        let ghost before = sharded@;
        if added.contains(&node) {
            let lookups = operator(graph, node).lookup_in();
            match least_column(&lookups) {
                Some((target, column)) => {
                    proof {
                        resolve::lemma_min_column(lookups@);
                        let i = choose|i: int|
                            #![trigger lookups@[i]]
                            0 <= i < lookups.len() && lookups@[i] == (target, column);
                        assert(flow.nodes[node as int].lookups[i].0 < flow.nodes.len());
                    }
                    match resolve_column(graph, target, column) {
                        Some(resolved) => {
                            sharded.insert(node, resolved);
                        },
                        None => {
                            assert(!flow.lookups_of_resolve(added@, node));
                            return Err(CommitError::UnknownColumn);
                        },
                    }
                },
                None => {},
            }
            match required_by(graph, added, node) {
                Some(mut required) => {
                    requirements.append(&mut required);
                },
                None => {
                    assert(!flow.lookups_of_resolve(added@, node));
                    return Err(CommitError::UnknownColumn);
                },
            }
            assert(flow.lookups_of_resolve(added@, node));
        }
        assert(sharded@ =~= flow.sharded_by_lookups(added@, assigned@, node + 1));
        assert(flow.lookups_resolve(added@, node + 1));
        node = node + 1;
    }
    Ok((sharded, requirements))
}

/// The edges once each requirement is kept as the weight of the edge that it runs along.
pub open spec fn with_requirements(
    edges: Seq<EdgeView>,
    requirements: Seq<Requirement>,
) -> Seq<EdgeView>
    decreases requirements.len(),
{
    if requirements.len() == 0 {
        edges
    } else {
        let last = requirements.last();
        dataflow::upsert(
            with_requirements(edges, requirements.drop_last()),
            last.target,
            last.child,
            Sharding::By(last.column.0, last.column.1),
        )
    }
}

/// Keeping requirements takes no edge away.
proof fn lemma_with_requirements_grow(
    edges: Seq<EdgeView>,
    requirements: Seq<Requirement>,
    count: int,
)
    requires
        0 <= count <= requirements.len(),
    ensures
        with_requirements(edges, requirements.take(count)).len() <= with_requirements(
            edges,
            requirements,
        ).len(),
    decreases requirements.len() - count,
{
    if count == requirements.len() {
        assert(requirements.take(count) =~= requirements);
    } else {
        lemma_with_requirements_grow(edges, requirements, count + 1);
        let last = requirements[count];
        assert(requirements.take(count + 1).drop_last() =~= requirements.take(count));
        dataflow::lemma_newest(
            with_requirements(edges, requirements.take(count)),
            last.target,
            last.child,
        );
    }
}

/// Remembers along which edges there is a sharding requirement.
pub fn record_requirements(graph: FlowGraph, requirements: &Vec<Requirement>) -> (recorded: Result<
    FlowGraph,
    CommitError,
>)
    requires
        forall|i: int|
            0 <= i < requirements@.len() ==> (#[trigger] requirements@[i]).target
                < dataflow::flow(graph).nodes.len() && requirements@[i].child < dataflow::flow(
                graph,
            ).nodes.len(),
    ensures
        ({
            let flow = dataflow::flow(graph);
            let edges = with_requirements(flow.edges, requirements@);
            match recorded {
                Ok(recorded) => edges.len() <= u32::MAX && dataflow::flow(recorded) == (Flow {
                    nodes: flow.nodes,
                    edges,
                }),
                Err(error) => error == CommitError::GraphFull && edges.len() > u32::MAX,
            }
        }),
{
    let ghost flow = dataflow::flow(graph);
    let mut recorded = graph;
    let mut count: usize = edge_count(&recorded);
    assert(requirements@.take(0) =~= Seq::empty());
    for i in 0..requirements.len()
        invariant
            flow == dataflow::flow(graph),
            dataflow::flow(recorded).nodes == flow.nodes,
            dataflow::flow(recorded).edges == with_requirements(
                flow.edges,
                requirements@.take(i as int),
            ),
            count == dataflow::flow(recorded).edges.len(),
            count <= u32::MAX,
            forall|i: int|
                0 <= i < requirements@.len() ==> (#[trigger] requirements@[i]).target
                    < flow.nodes.len() && requirements@[i].child < flow.nodes.len(),
    {
        let requirement = requirements[i];
        assert(requirements@.take(i + 1).drop_last() =~= requirements@.take(i as int));
        proof {
            dataflow::lemma_newest(
                dataflow::flow(recorded).edges,
                requirement.target,
                requirement.child,
            );
        }
        if find_edge(&recorded, requirement.target, requirement.child).is_none() {
            if count >= u32::MAX as usize {
                proof {
                    lemma_with_requirements_grow(flow.edges, requirements@, i + 1);
                }
                return Err(CommitError::GraphFull);
            }
            count = count + 1;
        }
        update_edge(
            &mut recorded,
            requirement.target,
            requirement.child,
            Sharding::from(requirement.column),
        );
    }
    assert(requirements@.take(requirements@.len() as int) =~= requirements@);
    Ok(recorded)
}

/// Whether one column is before another: by operator, then by column.
pub open spec fn precedes(left: Column, right: Column) -> bool {
    left.0 < right.0 || left.0 == right.0 && left.1 < right.1
}

/// The least of the columns, by operator, then by column.
pub open spec fn least(columns: Seq<Column>) -> Column
    decreases columns.len(),
{
    if columns.len() <= 1 {
        columns[0]
    } else {
        let rest = least(columns.drop_last());
        if precedes(columns.last(), rest) {
            columns.last()
        } else {
            rest
        }
    }
}

/// The least of the columns is one of them, and none is before it.
proof fn lemma_least(columns: Seq<Column>)
    requires
        columns.len() > 0,
    ensures
        columns.contains(least(columns)),
        forall|i: int|
            0 <= i < columns.len() ==> !precedes(#[trigger] columns[i], least(columns)),
    decreases columns.len(),
{
    if columns.len() == 1 {
        assert(columns[0] == least(columns));
    } else {
        let rest = columns.drop_last();
        lemma_least(rest);
        let k = choose|k: int| 0 <= k < rest.len() && rest[k] == least(rest);
        assert(columns[k] == least(rest));
        assert(columns[columns.len() - 1] == columns.last());
        assert forall|i: int| 0 <= i < columns.len() implies !precedes(
            #[trigger] columns[i],
            least(columns),
        ) by {
            if i < rest.len() {
                assert(rest[i] == columns[i]);
            }
        }
    }
}

/// The columns that a node is required to be sharded by.
pub open spec fn requested(requirements: Seq<Requirement>, node: NodeIndex) -> Seq<Column> {
    requirements.filter_map(
        |requirement: Requirement|
            if requirement.target == node {
                Some(requirement.column)
            } else {
                None
            },
    )
}

/// The column that a node with requirements is sharded by: the one that it is already sharded by,
/// or else the least of those that are required.
pub open spec fn chosen(
    requirements: Seq<Requirement>,
    assigned: Map<NodeIndex, Column>,
    node: NodeIndex,
) -> Column {
    if assigned.contains_key(node) {
        assigned[node]
    } else {
        least(requested(requirements, node))
    }
}

/// Whether a column other than that one is required.
pub open spec fn conflicts(columns: Seq<Column>, column: Column) -> bool {
    exists|i: int| 0 <= i < columns.len() && #[trigger] columns[i] != column
}

/// The edges that leave a node and do not require the sharding by that column.
pub open spec fn mismatched(edges: Seq<EdgeView>, node: NodeIndex, column: Column) -> Seq<
    (NodeIndex, NodeIndex),
> {
    dataflow::out_edges(edges, node).filter_map(
        |edge: (NodeIndex, Sharding)|
            if edge.1 == Sharding::By(column.0, column.1) {
                None
            } else {
                Some((node, edge.0))
            },
    )
}

/// The shardings once every node before `end` that has requirements is sharded.
pub open spec fn settled(
    requirements: Seq<Requirement>,
    assigned: Map<NodeIndex, Column>,
    end: int,
) -> Map<NodeIndex, Column> {
    Map::new(
        |node: NodeIndex|
            assigned.contains_key(node) || node < end && requested(requirements, node).len() > 0,
        |node: NodeIndex| chosen(requirements, assigned, node),
    )
}

/// The edges out of nodes before `end` that need a shuffle: those of nodes of which different
/// shardings are required, where the edge does not require the sharding of the node.
pub open spec fn shuffled(
    edges: Seq<EdgeView>,
    requirements: Seq<Requirement>,
    assigned: Map<NodeIndex, Column>,
    end: int,
) -> Seq<(NodeIndex, NodeIndex)>
    decreases end,
{
    if end <= 0 {
        Seq::empty()
    } else {
        let before = shuffled(edges, requirements, assigned, end - 1);
        let node = (end - 1) as NodeIndex;
        let column = chosen(requirements, assigned, node);
        if conflicts(requested(requirements, node), column) {
            before + mismatched(edges, node, column)
        } else {
            before
        }
    }
}

/// The columns that a node is required to be sharded by.
fn requested_of(requirements: &Vec<Requirement>, node: NodeIndex) -> (columns: Vec<Column>)
    ensures
        columns@ == requested(requirements@, node),
{
    let ghost f = |requirement: Requirement|
        if requirement.target == node {
            Some(requirement.column)
        } else {
            None
        };
    let mut columns: Vec<Column> = Vec::new();
    for i in 0..requirements.len()
        invariant
            f == (|requirement: Requirement|
                if requirement.target == node {
                    Some(requirement.column)
                } else {
                    None
                }),
            columns@ == requirements@.take(i as int).filter_map(f),
    {
        proof {
            requirements@.lemma_filter_map_take_succ(f, i as int);
        }
        if requirements[i].target == node {
            columns.push(requirements[i].column);
        }
    }
    assert(requirements@.take(requirements@.len() as int) =~= requirements@);
    columns
}

/// The least of the columns.
fn least_of(columns: &Vec<Column>) -> (column: Column)
    requires
        columns@.len() > 0,
    ensures
        column == least(columns@),
{
    let mut column: Column = columns[0];
    for i in 1..columns.len()
        invariant
            columns@.len() > 0,
            column == least(columns@.take(i as int)),
    {
        assert(columns@.take(i + 1).drop_last() =~= columns@.take(i as int));
        let next: Column = columns[i];
        if next.0 < column.0 || next.0 == column.0 && next.1 < column.1 {
            column = next;
        }
    }
    assert(columns@.take(columns@.len() as int) =~= columns@);
    column
}

/// Whether a column other than that one is required.
fn has_conflict(columns: &Vec<Column>, column: Column) -> (conflict: bool)
    ensures
        conflict == conflicts(columns@, column),
{
    for i in 0..columns.len()
        invariant
            forall|j: int| 0 <= j < i ==> #[trigger] columns@[j] == column,
    {
        if columns[i].0 != column.0 || columns[i].1 != column.1 {
            assert(columns@[i as int] != column);
            return true;
        }
    }
    false
}

/// The edges that leave a node and do not require the sharding by that column.
fn mismatched_of(graph: &FlowGraph, node: NodeIndex, column: Column) -> (edges: Vec<
    (NodeIndex, NodeIndex),
>)
    ensures
        edges@ == mismatched(dataflow::flow(*graph).edges, node, column),
{
    let ghost f = |edge: (NodeIndex, Sharding)|
        if edge.1 == Sharding::By(column.0, column.1) {
            None
        } else {
            Some((node, edge.0))
        };
    let children = children_of(graph, node);
    let mut edges: Vec<(NodeIndex, NodeIndex)> = Vec::new();
    for i in 0..children.len()
        invariant
            f == (|edge: (NodeIndex, Sharding)|
                if edge.1 == Sharding::By(column.0, column.1) {
                    None
                } else {
                    Some((node, edge.0))
                }),
            edges@ == children@.take(i as int).filter_map(f),
    {
        proof {
            children@.lemma_filter_map_take_succ(f, i as int);
        }
        match children[i].1 {
            Sharding::By(operator, by) if operator == column.0 && by == column.1 => {},
            _ => edges.push((node, children[i].0)),
        }
    }
    assert(children@.take(children@.len() as int) =~= children@);
    edges
}

/// Decides the sharding of the nodes that are looked into. One that has a sharding keeps it;
/// another gets the least of the shardings that are required of it. Where different shardings are
/// required, the edges that do not get what they require need a shuffle.
pub fn settle_shardings(
    graph: &FlowGraph,
    requirements: &Vec<Requirement>,
    assigned: HashMap<NodeIndex, Column>,
) -> (settled_by: (HashMap<NodeIndex, Column>, Vec<(NodeIndex, NodeIndex)>))
    ensures
        ({
            let flow = dataflow::flow(*graph);
            let end = flow.nodes.len() as int;
            let (sharded, shuffles) = settled_by;
            &&& sharded@ == settled(requirements@, assigned@, end)
            &&& shuffles@ == shuffled(flow.edges, requirements@, assigned@, end)
        }),
{
    let ghost flow = dataflow::flow(*graph);
    let count: usize = node_count(graph);
    let mut sharded = assigned;
    let mut shuffles: Vec<(NodeIndex, NodeIndex)> = Vec::new();
    let mut node: NodeIndex = 0;
    assert(sharded@ =~= settled(requirements@, assigned@, 0));
    while (node as usize) < count
        invariant
            flow == dataflow::flow(*graph),
            count == flow.nodes.len(),
            node <= count <= u32::MAX,
            sharded@ == settled(requirements@, assigned@, node as int),
            shuffles@ == shuffled(flow.edges, requirements@, assigned@, node as int),
        decreases count - node,
    {
        let columns = requested_of(requirements, node);
        if columns.len() > 0 {
            let held: Option<Column> = match sharded.get(&node) {
                Some(held) => Some(*held),
                None => None,
            };
            let column: Column = match held {
                Some(held) => held,
                None => {
                    let picked: Column = least_of(&columns);
                    sharded.insert(node, picked);
                    picked
                },
            };
            assert(column == chosen(requirements@, assigned@, node));
            if has_conflict(&columns, column) {
                let mut edges = mismatched_of(graph, node, column);
                shuffles.append(&mut edges);
            }
        }
        assert(sharded@ =~= settled(requirements@, assigned@, node + 1));
        node = node + 1;
    }
    (sharded, shuffles)
}

/// The join key of a join, the output column that comes from the column that the join looks up by,
/// resolves to what that column resolves to.
pub proof fn lemma_join_key(flow: Flow, join: NodeIndex, key: usize)
    requires
        flow.sources_precede(),
        join < flow.nodes.len(),
        flow.leading_lookup(join) is Some,
        resolve::min_column(resolve::source_columns(flow.source_of(join, key)))
            == flow.leading_lookup(join),
    ensures
        ({
            let lookup = flow.leading_lookup(join)->0;
            flow.resolve(join, key) == flow.resolve(lookup.0, lookup.1)
        }),
{
    let sources = flow.source_of(join, key);
    let columns = resolve::source_columns(sources);
    resolve::lemma_min_column(columns);
    let lookup = flow.leading_lookup(join)->0;
    let i = choose|i: int| #![trigger columns[i]] 0 <= i < columns.len() && columns[i] == lookup;
    resolve::lemma_source_columns(sources, i);
    let j = choose|j: int|
        #![trigger sources[j]]
        0 <= j < sources.len() && resolve::source_column(sources[j]) == Some(columns[i]);
    assert(flow.nodes[join as int].sources[key as int][j].0 < join);
}

/// A node without a sharding of which shardings are required gets one of them, and none that is
/// required is before it.
pub proof fn law_least_required(
    requirements: Seq<Requirement>,
    assigned: Map<NodeIndex, Column>,
    end: int,
    node: NodeIndex,
)
    requires
        node < end,
        !assigned.contains_key(node),
        requested(requirements, node).len() > 0,
    ensures
        ({
            let columns = requested(requirements, node);
            let column = settled(requirements, assigned, end)[node];
            &&& columns.contains(column)
            &&& forall|i: int| 0 <= i < columns.len() ==> !precedes(#[trigger] columns[i], column)
        }),
{
    lemma_least(requested(requirements, node));
}

/// Every new node that is looked into by another has a sharding, and every node that had a sharding
/// keeps it.
pub proof fn lemma_looked_into_is_sharded(
    requirements: Seq<Requirement>,
    assigned: Map<NodeIndex, Column>,
    end: int,
)
    ensures
        forall|i: int|
            0 <= i < requirements.len() && (#[trigger] requirements[i]).target < end ==> settled(
                requirements,
                assigned,
                end,
            ).contains_key(requirements[i].target),
        forall|node: NodeIndex| #[trigger]
            assigned.contains_key(node) ==> settled(requirements, assigned, end).contains_key(node)
                && settled(requirements, assigned, end)[node] == assigned[node],
{
    assert forall|i: int|
        0 <= i < requirements.len() && (#[trigger] requirements[i]).target < end implies settled(
        requirements,
        assigned,
        end,
    ).contains_key(requirements[i].target) by {
        lemma_requested(requirements, i);
    }
}

/// What is required of a node is among what is required of it.
proof fn lemma_requested(requirements: Seq<Requirement>, i: int)
    requires
        0 <= i < requirements.len(),
    ensures
        requested(requirements, requirements[i].target).contains(requirements[i].column),
    decreases requirements.len(),
{
    let node = requirements[i].target;
    let f = |requirement: Requirement|
        if requirement.target == node {
            Some(requirement.column)
        } else {
            None
        };
    let rest = requirements.drop_last();
    let all = requested(requirements, node);
    let before = requested(rest, node);
    requirements.lemma_filter_map_take_succ(f, requirements.len() - 1);
    assert(requirements.take(requirements.len() as int) =~= requirements);
    assert(requirements.take(requirements.len() - 1) =~= rest);
    if i < rest.len() {
        assert(rest[i] == requirements[i]);
        lemma_requested(rest, i);
        let k = choose|k: int| 0 <= k < before.len() && before[k] == requirements[i].column;
        assert(all[k] == requirements[i].column);
    } else {
        assert(all[before.len() as int] == requirements[i].column);
    }
}

/// A sharding that an edge requires of a node is what the node is sharded by, or else the edge is
/// shuffled.
pub proof fn lemma_required_or_shuffled(
    edges: Seq<EdgeView>,
    requirements: Seq<Requirement>,
    assigned: Map<NodeIndex, Column>,
    end: int,
    i: int,
    e: int,
)
    requires
        0 <= i < requirements.len(),
        requirements[i].target < end <= u32::MAX,
        0 <= e < edges.len(),
        edges[e] == requirements[i].edge(),
    ensures
        settled(requirements, assigned, end)[requirements[i].target] == requirements[i].column
            || shuffled(edges, requirements, assigned, end).contains(
            (requirements[i].target, requirements[i].child),
        ),
{
    let node = requirements[i].target;
    let column = chosen(requirements, assigned, node);
    lemma_requested(requirements, i);
    if column != requirements[i].column {
        let columns = requested(requirements, node);
        let k = choose|k: int| 0 <= k < columns.len() && columns[k] == requirements[i].column;
        assert(columns[k] != column);
        lemma_mismatched(edges, e, column);
        lemma_shuffled(edges, requirements, assigned, end, node);
        let own = mismatched(edges, node, column);
        let j = choose|j: int| 0 <= j < own.len() && own[j] == (node, edges[e].target);
        assert(shuffled(edges, requirements, assigned, end).contains(own[j]));
    }
}

/// An edge is among those that leave its source.
proof fn lemma_out_edges(edges: Seq<EdgeView>, e: int)
    requires
        0 <= e < edges.len(),
    ensures
        dataflow::out_edges(edges, edges[e].source).contains((edges[e].target, edges[e].weight)),
    decreases edges.len(),
{
    let older = edges.drop_last();
    let node = edges[e].source;
    let out = dataflow::out_edges(edges, node);
    let before = dataflow::out_edges(older, node);
    if e < older.len() {
        assert(older[e] == edges[e]);
        lemma_out_edges(older, e);
        let k = choose|k: int|
            0 <= k < before.len() && before[k] == (edges[e].target, edges[e].weight);
        if edges.last().source == node {
            assert(out[k + 1] == before[k]);
        } else {
            assert(out[k] == before[k]);
        }
    } else {
        assert(out[0] == (edges[e].target, edges[e].weight));
    }
}

/// An edge that does not require the sharding of its source is among the mismatched ones.
pub proof fn lemma_mismatched(edges: Seq<EdgeView>, e: int, column: Column)
    requires
        0 <= e < edges.len(),
        edges[e].weight != Sharding::By(column.0, column.1),
    ensures
        mismatched(edges, edges[e].source, column).contains((edges[e].source, edges[e].target)),
{
    let node = edges[e].source;
    let out = dataflow::out_edges(edges, node);
    let f = |edge: (NodeIndex, Sharding)|
        if edge.1 == Sharding::By(column.0, column.1) {
            None
        } else {
            Some((node, edge.0))
        };
    lemma_out_edges(edges, e);
    dataflow::lemma_filter_map_keeps(out, f, (edges[e].target, edges[e].weight));
}

/// The shuffles hold the mismatched edges of every node of which different shardings are required.
pub proof fn lemma_shuffled(
    edges: Seq<EdgeView>,
    requirements: Seq<Requirement>,
    assigned: Map<NodeIndex, Column>,
    end: int,
    node: NodeIndex,
)
    requires
        node < end <= u32::MAX,
        conflicts(requested(requirements, node), chosen(requirements, assigned, node)),
    ensures
        forall|i: int|
            0 <= i < mismatched(edges, node, chosen(requirements, assigned, node)).len()
                ==> shuffled(edges, requirements, assigned, end).contains(
                #[trigger] mismatched(edges, node, chosen(requirements, assigned, node))[i],
            ),
    decreases end,
{
    let own = mismatched(edges, node, chosen(requirements, assigned, node));
    let all = shuffled(edges, requirements, assigned, end);
    let before = shuffled(edges, requirements, assigned, end - 1);
    if node < end - 1 {
        lemma_shuffled(edges, requirements, assigned, end - 1, node);
        assert forall|i: int| 0 <= i < own.len() implies all.contains(#[trigger] own[i]) by {
            assert(before.contains(own[i]));
            let k = choose|k: int| 0 <= k < before.len() && before[k] == own[i];
            assert(all[k] == own[i]);
        }
    } else {
        assert forall|i: int| 0 <= i < own.len() implies all.contains(#[trigger] own[i]) by {
            assert(all[before.len() + i] == own[i]);
        }
    }
}

/// Where there is no conflict about how any node is sharded, nothing is shuffled.
pub proof fn law_no_conflict_no_shuffle(
    edges: Seq<EdgeView>,
    requirements: Seq<Requirement>,
    assigned: Map<NodeIndex, Column>,
    end: int,
)
    requires
        end <= u32::MAX,
        forall|i: int|
            0 <= i < requirements.len() ==> settled(
                requirements,
                assigned,
                end,
            )[#[trigger] requirements[i].target] == requirements[i].column,
        forall|i: int| 0 <= i < requirements.len() ==> (#[trigger] requirements[i]).target < end,
    ensures
        shuffled(edges, requirements, assigned, end).len() == 0,
{
    lemma_no_conflict(edges, requirements, assigned, end, end);
}

/// Where there is no conflict about how any node is sharded, nothing is shuffled out of the first
/// nodes.
proof fn lemma_no_conflict(
    edges: Seq<EdgeView>,
    requirements: Seq<Requirement>,
    assigned: Map<NodeIndex, Column>,
    end: int,
    upto: int,
)
    requires
        upto <= end <= u32::MAX,
        forall|i: int|
            0 <= i < requirements.len() ==> settled(
                requirements,
                assigned,
                end,
            )[#[trigger] requirements[i].target] == requirements[i].column,
        forall|i: int| 0 <= i < requirements.len() ==> (#[trigger] requirements[i]).target < end,
    ensures
        shuffled(edges, requirements, assigned, upto).len() == 0,
    decreases upto,
{
    if upto > 0 {
        lemma_no_conflict(edges, requirements, assigned, end, upto - 1);
        let node = (upto - 1) as NodeIndex;
        let column = chosen(requirements, assigned, node);
        let columns = requested(requirements, node);
        let f = |requirement: Requirement|
            if requirement.target == node {
                Some(requirement.column)
            } else {
                None
            };
        assert forall|i: int| 0 <= i < columns.len() implies #[trigger] columns[i] == column by {
            assert(columns.contains(columns[i]));
            requirements.lemma_filter_map_contains(f, columns[i]);
            let requirement = choose|requirement: Requirement|
                #![trigger requirements.contains(requirement)]
                requirements.contains(requirement) && f(requirement) == Some(columns[i]);
            let k = choose|k: int| 0 <= k < requirements.len() && requirements[k] == requirement;
            lemma_requested(requirements, k);
            assert(requirements[k].target == node);
            assert(settled(requirements, assigned, end).contains_key(node));
        }
    }
}

} // verus!
