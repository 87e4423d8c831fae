//! Migrations of a data-flow graph, and the plan that a migration is carried out by.

use std::collections::{HashMap, HashSet};
use vstd::pervasive::unreached;
use vstd::prelude::*;

use crate::assign;
use crate::assign::{record_requirements, required_shardings, settle_shardings, Requirement};
use crate::dataflow;
use crate::dataflow::{clone_graph, edge_count, new_graph, node_count, EdgeView, Flow, FlowGraph};
use crate::error::CommitError;
use crate::inherit;
use crate::inherit::{find_unsharded_new, inherit_shardings};
use crate::materialization;
use crate::materialization::{demanded_materializations, Materialization, MaterializationView};
use crate::order;
use crate::replay;
use crate::replay::plan_materializations;
use crate::reshard;
use crate::reshard::{
    add_mirrors, mirrors_of, shard_mirrors, split_keys, visits_of_new, Mirror, Reshard,
};
use crate::resolve::resolve_column;
use crate::sharding::{Column, DomainIndex, NodeIndex, Sharding};
use crate::trim;
use crate::trim::trim_paths;
use crate::visit;
use crate::visit::VisitNode;

verus! {

/// What is observable of a plan.
#[verifier::ext_equal]
pub struct MigrationPlanView {
    /// The graph, with the sharding requirements along its edges and with the mirrors.
    pub flow: Flow,
    /// The new nodes, mirrors among them.
    pub added: Set<NodeIndex>,
    /// What nodes are sharded by.
    pub shardings: Map<NodeIndex, Column>,
    /// The edges where a shuffle has to be injected: those that do not get the sharding that they
    /// require, and those that feed mirrors. One of the former stays listed, from the node that is
    /// mirrored to the target, where a mirror has taken it over.
    pub shuffles: Seq<(NodeIndex, NodeIndex)>,
    /// The state that is kept.
    pub materializations: Map<NodeIndex, MaterializationView>,
}

/// What a migration comes to.
pub struct MigrationPlan {
    /// The graph, with the sharding requirements along its edges and with the mirrors.
    pub graph: FlowGraph,
    /// The new nodes, mirrors among them.
    pub added: HashSet<NodeIndex>,
    /// What nodes are sharded by.
    pub shardings: HashMap<NodeIndex, Column>,
    /// The edges where a shuffle has to be injected: those that do not get the sharding that they
    /// require, and those that feed mirrors. One of the former stays listed, from the node that is
    /// mirrored to the target, where a mirror has taken it over.
    pub shuffles: Vec<(NodeIndex, NodeIndex)>,
    /// The state that is kept.
    pub materializations: HashMap<NodeIndex, Materialization>,
}

impl View for MigrationPlan {
    type V = MigrationPlanView;

    open spec fn view(&self) -> MigrationPlanView {
        MigrationPlanView {
            flow: dataflow::flow(self.graph),
            added: self.added@,
            shardings: self.shardings@,
            shuffles: self.shuffles@,
            materializations: materialization::views(self.materializations@),
        }
    }
}

impl Flow {
    /// The graph with the sharding requirements of the new nodes along its edges.
    pub open spec fn recorded(self, added: Set<NodeIndex>) -> Flow {
        Flow {
            nodes: self.nodes,
            edges: assign::with_requirements(
                self.edges,
                self.requirements(added, self.nodes.len() as int),
            ),
        }
    }

    /// The shardings that follow from lookups that new nodes do.
    pub open spec fn required(self, added: Set<NodeIndex>, assigned: Map<NodeIndex, Column>) -> Map<
        NodeIndex,
        Column,
    > {
        self.sharded_by_lookups(added, assigned, self.nodes.len() as int)
    }

    /// The shardings that follow from lookups, also from those into new nodes.
    pub open spec fn sharded(self, added: Set<NodeIndex>, assigned: Map<NodeIndex, Column>) -> Map<
        NodeIndex,
        Column,
    > {
        assign::settled(
            self.requirements(added, self.nodes.len() as int),
            self.required(added, assigned),
            self.nodes.len() as int,
        )
    }

    /// The edges that need a shuffle because different shardings are required of a node.
    pub open spec fn contested(
        self,
        added: Set<NodeIndex>,
        assigned: Map<NodeIndex, Column>,
    ) -> Seq<(NodeIndex, NodeIndex)> {
        assign::shuffled(
            self.recorded(added).edges,
            self.requirements(added, self.nodes.len() as int),
            self.required(added, assigned),
            self.nodes.len() as int,
        )
    }

    /// The materializations that the lookups of new nodes need.
    pub open spec fn demanded(self, added: Set<NodeIndex>) -> Map<NodeIndex, MaterializationView> {
        materialization::serving(self.recorded(added).lookups(added, self.nodes.len() as int))
    }

    /// The copies of sharded state that the lookups of new nodes need.
    pub open spec fn copies(self, added: Set<NodeIndex>, assigned: Map<NodeIndex, Column>) -> Seq<
        Reshard,
    > {
        self.recorded(added).reshards(
            self.sharded(added, assigned),
            self.demanded(added),
            self.nodes.len() as int,
        )
    }

    /// The mirrors that keep the copies.
    pub open spec fn new_mirrors(
        self,
        added: Set<NodeIndex>,
        assigned: Map<NodeIndex, Column>,
    ) -> Seq<Mirror> {
        reshard::mirrors(self.copies(added, assigned))
    }

    /// The graph with mirrors.
    pub open spec fn mirrored(
        self,
        added: Set<NodeIndex>,
        assigned: Map<NodeIndex, Column>,
    ) -> Flow {
        self.recorded(added).with_mirrors(self.new_mirrors(added, assigned))
    }

    /// The shardings that are decided: those that follow from lookups, and those of mirrors.
    pub open spec fn determined(
        self,
        added: Set<NodeIndex>,
        assigned: Map<NodeIndex, Column>,
    ) -> Map<NodeIndex, Column> {
        reshard::with_mirror_shardings(
            self.sharded(added, assigned),
            self.new_mirrors(added, assigned),
            self.nodes.len(),
        )
    }

    /// The new nodes, mirrors among them.
    pub open spec fn all_new(self, added: Set<NodeIndex>, assigned: Map<NodeIndex, Column>) -> Set<
        NodeIndex,
    > {
        reshard::with_new(added, self.nodes.len(), self.new_mirrors(added, assigned).len())
    }

    /// The order in which it is decided how state is kept: leaves first.
    pub open spec fn order(self, added: Set<NodeIndex>, assigned: Map<NodeIndex, Column>) -> Seq<
        VisitNode,
    > {
        visit::visits(
            order::to_visit(added, self.new_mirrors(added, assigned), self.nodes.len()),
        )
    }

    /// The materializations before it is decided how their state is kept: each by keys that fit
    /// the sharding, and mirrors for the others.
    pub open spec fn undecided(
        self,
        added: Set<NodeIndex>,
        assigned: Map<NodeIndex, Column>,
    ) -> Map<NodeIndex, MaterializationView> {
        reshard::with_copies(
            self.recorded(added).fitted(
                self.sharded(added, assigned),
                self.demanded(added),
                self.nodes.len() as int,
            ),
            self.copies(added, assigned),
            self.new_mirrors(added, assigned),
            self.nodes.len(),
        )
    }

    /// The materializations once it is decided how their state is kept.
    pub open spec fn kept(self, added: Set<NodeIndex>, assigned: Map<NodeIndex, Column>) -> Result<
        Map<NodeIndex, MaterializationView>,
        CommitError,
    > {
        self.mirrored(added, assigned).planned(
            self.all_new(added, assigned),
            self.undecided(added, assigned),
            self.order(added, assigned),
        )
    }

    /// The shardings once the new nodes that have none take over that of a parent.
    pub open spec fn taken_over(
        self,
        added: Set<NodeIndex>,
        assigned: Map<NodeIndex, Column>,
    ) -> Result<Map<NodeIndex, Column>, CommitError> {
        let mirrored = self.mirrored(added, assigned);
        let determined = self.determined(added, assigned);
        inherit::inherited(
            mirrored.edges,
            determined,
            inherit::unsharded_new(
                self.all_new(added, assigned),
                determined,
                mirrored.nodes.len() as int,
            ),
        )
    }

    /// Every column that a sharding is looked for exists.
    pub open spec fn columns_exist(
        self,
        added: Set<NodeIndex>,
        assigned: Map<NodeIndex, Column>,
    ) -> bool {
        &&& self.lookups_resolve(added, self.nodes.len() as int)
        &&& self.recorded(added).keys_resolve(
            self.sharded(added, assigned),
            self.demanded(added),
            self.nodes.len() as int,
        )
    }

    /// There are indices for the edges that hold requirements, for the mirrors and for their edges.
    pub open spec fn has_room(
        self,
        added: Set<NodeIndex>,
        assigned: Map<NodeIndex, Column>,
    ) -> bool {
        let count = self.new_mirrors(added, assigned).len();
        &&& self.nodes.len() + count <= u32::MAX
        &&& self.recorded(added).edges.len() + count <= u32::MAX
    }

    /// The plan that a migration comes to, or why there is none.
    pub open spec fn plan(self, added: Set<NodeIndex>, assigned: Map<NodeIndex, Column>) -> Result<
        MigrationPlanView,
        CommitError,
    > {
        if !self.lookups_resolve(added, self.nodes.len() as int) {
            Err(CommitError::UnknownColumn)
        } else if self.recorded(added).edges.len() > u32::MAX {
            Err(CommitError::GraphFull)
        } else if !self.columns_exist(added, assigned) {
            Err(CommitError::UnknownColumn)
        } else if !self.has_room(added, assigned) {
            Err(CommitError::GraphFull)
        } else {
            match self.kept(added, assigned) {
                Ok(kept) => match self.taken_over(added, assigned) {
                    Ok(shardings) => Ok(
                        MigrationPlanView {
                            flow: self.mirrored(added, assigned),
                            added: self.all_new(added, assigned),
                            shardings,
                            shuffles: self.contested(added, assigned) + reshard::mirror_shuffles(
                                self.new_mirrors(added, assigned),
                                self.nodes.len(),
                            ),
                            materializations: trim::trimmed(
                                self.all_new(added, assigned),
                                kept,
                                self.mirrored(added, assigned).nodes.len() as int,
                            ),
                        },
                    ),
                    Err(error) => Err(error),
                },
                Err(error) => Err(error),
            }
        }
    }
}

/// What is observable of the outcome of planning.
pub open spec fn outcome(result: Result<MigrationPlan, CommitError>) -> Result<
    MigrationPlanView,
    CommitError,
> {
    match result {
        Ok(plan) => Ok(plan@),
        Err(error) => Err(error),
    }
}

/// What new nodes require, they require of nodes of the graph, and where no node looks into one
/// with a larger index, of nodes with a smaller one.
pub proof fn lemma_requirements_within(flow: Flow, added: Set<NodeIndex>, end: int)
    requires
        flow.lookups_within(),
        end <= flow.nodes.len(),
        end <= u32::MAX,
    ensures
        forall|i: int|
            #![trigger flow.requirements(added, end)[i]]
            0 <= i < flow.requirements(added, end).len() ==> {
                let requirement = flow.requirements(added, end)[i];
                &&& requirement.target < flow.nodes.len()
                &&& requirement.child < end
                &&& flow.lookups_precede() ==> requirement.target < requirement.child
            },
    decreases end,
{
    if end > 0 {
        lemma_requirements_within(flow, added, end - 1);
        let node = (end - 1) as NodeIndex;
        let before = flow.requirements(added, end - 1);
        let own = flow.requirements_of(added, node);
        let lookups = flow.nodes[node as int].lookups;
        let f = |lookup: Column| flow.requirement(added, node, lookup);
        let all = flow.requirements(added, end);
        assert forall|i: int| #![trigger all[i]] 0 <= i < all.len() implies {
            let requirement = all[i];
            &&& requirement.target < flow.nodes.len()
            &&& requirement.child < end
            &&& flow.lookups_precede() ==> requirement.target < requirement.child
        } by {
            if i < before.len() {
                assert(all[i] == before[i]);
            } else {
                let requirement = own[i - before.len()];
                assert(all[i] == requirement);
                assert(lookups.filter_map(f).contains(requirement));
                lookups.lemma_filter_map_contains(f, requirement);
                let lookup = choose|lookup: Column|
                    #![trigger lookups.contains(lookup)]
                    lookups.contains(lookup) && f(lookup) == Some(requirement);
                let k = choose|k: int| 0 <= k < lookups.len() && lookups[k] == lookup;
                assert(flow.nodes[node as int].lookups[k].0 < flow.nodes.len());
            }
        }
    }
}

/// Edges that hold requirements run from a smaller index to a larger one, as the others do.
proof fn lemma_with_requirements_ascend(
    edges: Seq<EdgeView>,
    requirements: Seq<Requirement>,
    bound: nat,
)
    requires
        forall|i: int|
            0 <= i < edges.len() ==> (#[trigger] edges[i]).source < edges[i].target < bound,
        forall|i: int|
            0 <= i < requirements.len() ==> (#[trigger] requirements[i]).target
                < requirements[i].child < bound,
    ensures
        forall|i: int|
            0 <= i < assign::with_requirements(edges, requirements).len() ==> (
            #[trigger] assign::with_requirements(edges, requirements)[i]).source
                < assign::with_requirements(edges, requirements)[i].target < bound,
    decreases requirements.len(),
{
    if requirements.len() > 0 {
        let earlier = requirements.drop_last();
        let last = requirements.last();
        assert forall|i: int| 0 <= i < earlier.len() implies (#[trigger] earlier[i]).target
            < earlier[i].child < bound by {
            assert(earlier[i] == requirements[i]);
        }
        assert(requirements[requirements.len() - 1] == last);
        lemma_with_requirements_ascend(edges, earlier, bound);
        let before = assign::with_requirements(edges, earlier);
        dataflow::lemma_newest(before, last.target, last.child);
    }
}

/// In the graph with requirements along its edges every edge runs from a smaller index to a larger
/// one, as in the graph without.
pub proof fn lemma_recorded(flow: Flow, added: Set<NodeIndex>)
    requires
        flow.wf(),
        flow.topological(),
        flow.nodes.len() <= u32::MAX,
    ensures
        flow.recorded(added).edges_ascend(),
{
    lemma_requirements_within(flow, added, flow.nodes.len() as int);
    lemma_with_requirements_ascend(
        flow.edges,
        flow.requirements(added, flow.nodes.len() as int),
        flow.nodes.len(),
    );
}

/// New nodes look into nodes of the graph.
proof fn lemma_lookups_within(flow: Flow, added: Set<NodeIndex>, end: int)
    requires
        flow.lookups_within(),
        end <= flow.nodes.len(),
    ensures
        forall|i: int|
            0 <= i < flow.lookups(added, end).len() ==> (#[trigger] flow.lookups(added, end)[i]).0
                < flow.nodes.len(),
    decreases end,
{
    if end > 0 {
        lemma_lookups_within(flow, added, end - 1);
        let before = flow.lookups(added, end - 1);
        let all = flow.lookups(added, end);
        assert forall|i: int| 0 <= i < all.len() implies (#[trigger] all[i]).0
            < flow.nodes.len() by {
            if i < before.len() {
                assert(all[i] == before[i]);
            } else {
                assert(all[i] == flow.nodes[end - 1].lookups[i - before.len()]);
            }
        }
    }
}

/// Materializations that serve lookups are at nodes that are looked into.
proof fn lemma_serving_within(lookups: Seq<Column>, bound: nat)
    requires
        forall|i: int| 0 <= i < lookups.len() ==> (#[trigger] lookups[i]).0 < bound,
    ensures
        forall|node: NodeIndex| #[trigger]
            materialization::serving(lookups).contains_key(node) ==> node < bound,
{
    assert forall|node: NodeIndex| #[trigger]
        materialization::serving(lookups).contains_key(node) implies node < bound by {
        let f = |column: Column|
            if column.0 == node {
                Some(column.1)
            } else {
                None
            };
        let columns = materialization::columns_at(lookups, node);
        assert(columns == lookups.filter_map(f));
        assert(columns.contains(columns[0]));
        lookups.lemma_filter_map_contains(f, columns[0]);
        let lookup = choose|lookup: Column|
            #![trigger lookups.contains(lookup)]
            lookups.contains(lookup) && f(lookup) == Some(columns[0]);
        let k = choose|k: int| 0 <= k < lookups.len() && lookups[k] == lookup;
        assert(lookups[k].0 == node);
    }
}

/// Copies are needed of state at nodes of the graph.
proof fn lemma_reshards_within(
    flow: Flow,
    assigned: Map<NodeIndex, Column>,
    materializations: Map<NodeIndex, MaterializationView>,
    end: int,
)
    requires
        end <= u32::MAX,
    ensures
        forall|i: int|
            0 <= i < flow.reshards(assigned, materializations, end).len() ==> (
            #[trigger] flow.reshards(assigned, materializations, end)[i]).node < end,
    decreases end,
{
    if end > 0 {
        lemma_reshards_within(flow, assigned, materializations, end - 1);
        let node = (end - 1) as NodeIndex;
        let before = flow.reshards(assigned, materializations, end - 1);
        let all = flow.reshards(assigned, materializations, end);
        if assigned.contains_key(node) && materializations.contains_key(node) {
            let keys = materialization::ascending(materializations[node].keys);
            let own = flow.reshards_of(node, assigned[node], materializations[node].keys);
            let f = |key: usize|
                if flow.resolve(node, key) == Some(assigned[node]) {
                    None
                } else {
                    Some(Reshard { node, column: key, want: flow.resolve(node, key)->0 })
                };
            assert(own == keys.filter_map(f));
            assert forall|i: int| 0 <= i < all.len() implies (#[trigger] all[i]).node < end by {
                if i < before.len() {
                    assert(all[i] == before[i]);
                } else {
                    let reshard = own[i - before.len()];
                    assert(all[i] == reshard);
                    assert(own.contains(reshard));
                    keys.lemma_filter_map_contains(f, reshard);
                }
            }
        }
    }
}

/// Columns of mirrors come from operators with a smaller index, as those of the others do.
pub proof fn lemma_with_mirrors_sources(flow: Flow, mirrors: Seq<Mirror>)
    requires
        flow.sources_precede(),
        forall|i: int|
            0 <= i < mirrors.len() ==> (#[trigger] mirrors[i]).node < flow.nodes.len(),
    ensures
        flow.with_mirrors(mirrors).sources_precede(),
        flow.with_mirrors(mirrors).nodes.len() == flow.nodes.len() + mirrors.len(),
    decreases mirrors.len(),
{
    if mirrors.len() > 0 {
        let earlier = mirrors.drop_last();
        assert forall|i: int| 0 <= i < earlier.len() implies (#[trigger] earlier[i]).node
            < flow.nodes.len() by {
            assert(earlier[i] == mirrors[i]);
        }
        assert(mirrors[mirrors.len() - 1] == mirrors.last());
        lemma_with_mirrors_sources(flow, earlier);
        let before = flow.with_mirrors(earlier);
        let after = flow.with_mirrors(mirrors);
        let node = mirrors.last().node as int;
        assert forall|at: int, column: int, i: int|
            0 <= at < after.nodes.len() && 0 <= column < after.nodes[at].sources.len() && 0 <= i
                < after.nodes[at].sources[column].len() implies (
        #[trigger] after.nodes[at].sources[column][i]).0 < at by {
            if at < before.nodes.len() {
                assert(after.nodes[at] == before.nodes[at]);
                assert(before.nodes[at].sources[column][i].0 < at);
            } else {
                assert(after.nodes[at] == before.nodes[node]);
                assert(before.nodes[node].sources[column][i].0 < node);
            }
        }
    }
}

/// New nodes to visit are nodes of the graph.
proof fn lemma_new_visits_within(added: Set<NodeIndex>, end: int)
    requires
        end <= u32::MAX,
    ensures
        forall|i: int|
            0 <= i < reshard::new_visits(added, end).len() ==> (#[trigger] reshard::new_visits(
                added,
                end,
            )[i]).index < end,
    decreases end,
{
    if end > 0 {
        lemma_new_visits_within(added, end - 1);
        let before = reshard::new_visits(added, end - 1);
        let all = reshard::new_visits(added, end);
        assert forall|i: int| 0 <= i < all.len() implies (#[trigger] all[i]).index < end by {
            if i < before.len() {
                assert(all[i] == before[i]);
            }
        }
    }
}

/// The nodes to visit are nodes of the graph with mirrors.
proof fn lemma_order_within(
    added: Set<NodeIndex>,
    mirrors: Seq<Mirror>,
    first: nat,
    order: Seq<VisitNode>,
)
    requires
        first + mirrors.len() <= u32::MAX,
        order.to_multiset() == order::to_visit(added, mirrors, first).to_multiset(),
    ensures
        forall|i: int|
            0 <= i < order.len() ==> (#[trigger] order[i]).index < first + mirrors.len(),
{
    broadcast use vstd::seq_lib::group_to_multiset_ensures;

    let new = reshard::new_visits(added, first as int);
    let copies = reshard::mirror_visits(mirrors, first);
    let all = order::to_visit(added, mirrors, first);
    lemma_new_visits_within(added, first as int);
    assert forall|i: int| 0 <= i < order.len() implies (#[trigger] order[i]).index < first
        + mirrors.len() by {
        assert(order.contains(order[i]));
        assert(order.to_multiset().contains(order[i]));
        assert(all.contains(order[i]));
        let k = choose|k: int| 0 <= k < all.len() && all[k] == order[i];
        if k < new.len() {
            assert(all[k] == new[k]);
        } else {
            assert(all[k] == copies[k - new.len()]);
        }
    }
}

/// Materializations that are not decided yet have no paths, and are at nodes of the graph.
pub proof fn lemma_undecided(flow: Flow, added: Set<NodeIndex>, assigned: Map<NodeIndex, Column>)
    requires
        flow.wf(),
        flow.nodes.len() <= u32::MAX,
    ensures
        replay::replayable(flow.undecided(added, assigned)),
        forall|node: NodeIndex| #[trigger]
            flow.demanded(added).contains_key(node) ==> node < flow.nodes.len(),
        forall|i: int|
            0 <= i < flow.new_mirrors(added, assigned).len() ==> (#[trigger] flow.new_mirrors(
                added,
                assigned,
            )[i]).node < flow.nodes.len(),
        flow.new_mirrors(added, assigned).no_duplicates(),
{
    let end = flow.nodes.len() as int;
    let recorded = flow.recorded(added);
    let copies = flow.copies(added, assigned);
    let mirrors = flow.new_mirrors(added, assigned);
    lemma_lookups_within(recorded, added, end);
    lemma_serving_within(recorded.lookups(added, end), flow.nodes.len());
    lemma_reshards_within(recorded, flow.sharded(added, assigned), flow.demanded(added), end);
    reshard::lemma_mirrors(copies);
    assert forall|i: int| 0 <= i < mirrors.len() implies (#[trigger] mirrors[i]).node
        < flow.nodes.len() by {
        assert(reshard::is_needed(copies, mirrors[i]));
        let k = choose|k: int|
            0 <= k < copies.len() && (#[trigger] copies[k]).mirror() == mirrors[i];
        assert(copies[k].node < end);
    }
    let undecided = flow.undecided(added, assigned);
    assert forall|node: NodeIndex, i: int|
        0 <= i < replay::paths_at(undecided, node).len() implies replay::passes_full(
        undecided,
        #[trigger] replay::paths_at(undecided, node)[i],
    ) by {
        assert(undecided.contains_key(node) ==> undecided[node].plan is None);
    }
}

/// Whether new nodes can be planned for: they are nodes of the graph, columns come from operators
/// that were added before, and lookups are into operators of the graph.
pub open spec fn plannable(flow: Flow, added: Set<NodeIndex>) -> bool {
    &&& flow.wf()
    &&& forall|node: NodeIndex| #[trigger] added.contains(node) ==> node < flow.nodes.len()
}

/// Where nothing is added, there is nothing to require, to look up or to visit.
proof fn lemma_nothing(flow: Flow, assigned: Map<NodeIndex, Column>, end: int)
    ensures
        flow.requirements(Set::empty(), end) == Seq::<Requirement>::empty(),
        flow.lookups(Set::empty(), end) == Seq::<Column>::empty(),
        flow.reshards(assigned, Map::empty(), end) == Seq::<Reshard>::empty(),
        reshard::new_visits(Set::empty(), end) == Seq::<VisitNode>::empty(),
        inherit::unsharded_new(Set::empty(), assigned, end) == Seq::<NodeIndex>::empty(),
        assign::shuffled(flow.edges, Seq::empty(), assigned, end) == Seq::<
            (NodeIndex, NodeIndex),
        >::empty(),
        trim::trimmed(Set::empty(), Map::empty(), end) == Map::<
            NodeIndex,
            MaterializationView,
        >::empty(),
    decreases end,
{
    if end > 0 {
        lemma_nothing(flow, assigned, end - 1);
        let columns = assign::requested(Seq::empty(), (end - 1) as NodeIndex);
        assert(columns =~= Seq::empty());
    }
}

/// A migration that adds nothing comes to a plan that changes nothing.
pub proof fn law_nothing_added(flow: Flow, assigned: Map<NodeIndex, Column>)
    requires
        flow.nodes.len() <= u32::MAX,
        flow.edges.len() <= u32::MAX,
    ensures
        flow.plan(Set::empty(), assigned) == Ok::<MigrationPlanView, CommitError>(
            MigrationPlanView {
                flow,
                added: Set::empty(),
                shardings: assigned,
                shuffles: Seq::empty(),
                materializations: Map::empty(),
            },
        ),
{
    let added = Set::<NodeIndex>::empty();
    let end = flow.nodes.len() as int;
    lemma_nothing(flow, assigned, end);
    assert(flow.recorded(added) == flow);
    assert(flow.required(added, assigned) =~= assigned);
    assert forall|node: NodeIndex| #[trigger] assign::requested(Seq::empty(), node).len() == 0 by {
        assert(assign::requested(Seq::empty(), node) =~= Seq::empty());
    }
    assert(flow.sharded(added, assigned) =~= assigned);
    assert forall|node: NodeIndex| #[trigger]
        materialization::columns_at(Seq::empty(), node).len() == 0 by {
        assert(materialization::columns_at(Seq::empty(), node) =~= Seq::empty());
    }
    assert(flow.demanded(added) =~= Map::empty());
    let copies = flow.copies(added, assigned);
    assert(copies =~= Seq::empty());
    assert(flow.mirrored(added, assigned) == flow);
    assert(flow.all_new(added, assigned) =~= added);
    let mirrors = flow.new_mirrors(added, assigned);
    assert(mirrors =~= Seq::empty());
    assert(flow.determined(added, assigned) =~= assigned);
    let nodes = order::to_visit(added, mirrors, flow.nodes.len());
    assert(nodes =~= Seq::empty());
    visit::lemma_visit_order_total();
    nodes.lemma_sort_by_ensures(visit::visit_order());
    assert(flow.order(added, assigned).len() == 0) by {
        broadcast use vstd::seq_lib::group_to_multiset_ensures;

        assert(flow.order(added, assigned).to_multiset().len() == nodes.to_multiset().len());
    }
    assert(flow.undecided(added, assigned) =~= Map::empty());
    assert(flow.kept(added, assigned) == Ok::<
        Map<NodeIndex, MaterializationView>,
        CommitError,
    >(Map::empty()));
    assert(flow.contested(added, assigned) + reshard::mirror_shuffles(mirrors, flow.nodes.len())
        =~= Seq::empty());
}

/// Plans a migration: decides how new nodes are sharded and where that takes a shuffle, which state
/// is materialized under which keys, and how it is kept.
pub fn plan_migration(
    graph: FlowGraph,
    added: HashSet<NodeIndex>,
    assigned: HashMap<NodeIndex, Column>,
) -> (result: Result<MigrationPlan, CommitError>)
    requires
        added@ == Set::<NodeIndex>::empty() || plannable(dataflow::flow(graph), added@),
    ensures
        outcome(result) == dataflow::flow(graph).plan(added@, assigned@),
        match result {
            Ok(plan) => dataflow::flow(graph).plan(added@, assigned@) == Ok::<
                MigrationPlanView,
                CommitError,
            >(
                MigrationPlanView {
                    flow: Flow {
                        nodes: dataflow::graph_nodes(plan.graph),
                        edges: dataflow::graph_edges(plan.graph),
                    },
                    added: plan.added@,
                    shardings: plan.shardings@,
                    shuffles: plan.shuffles@,
                    materializations: materialization::views(plan.materializations@),
                },
            ),
            Err(error) => dataflow::flow(graph).plan(added@, assigned@) == Err::<
                MigrationPlanView,
                CommitError,
            >(error),
        },
        added@ == Set::<NodeIndex>::empty() ==> result is Ok,
{
    let ghost flow = dataflow::flow(graph);
    let ghost end = flow.nodes.len() as int;
    let ghost new = added@;
    let ghost given = assigned@;
    // indices are 32 bits wide, which bounds the numbers of nodes and edges
    let count: usize = node_count(&graph);
    let _edges: usize = edge_count(&graph);
    if added.is_empty() {
        let materializations: HashMap<NodeIndex, Materialization> = HashMap::new();
        proof {
            assert(new =~= Set::empty());
            assert(materialization::views(materializations@) =~= Map::empty());
            law_nothing_added(flow, given);
        }
        return Ok(
            MigrationPlan {
                graph,
                added,
                shardings: assigned,
                shuffles: Vec::new(),
                materializations,
            },
        );
    }
    let (required, requirements) = match required_shardings(&graph, &added, assigned) {
        Ok(required) => required,
        Err(error) => {
            return Err(error);
        },
    };
    proof {
        lemma_requirements_within(flow, new, end);
        lemma_undecided(flow, new, given);
    }
    let mut now = match record_requirements(graph, &requirements) {
        Ok(recorded) => recorded,
        Err(error) => {
            return Err(error);
        },
    };
    let (sharded, mut shuffles) = settle_shardings(&now, &requirements, required);
    let demanded = demanded_materializations(&now, &added);
    let (mut materializations, reshards) = match split_keys(&now, &sharded, demanded) {
        Ok(split) => split,
        Err(error) => {
            return Err(error);
        },
    };
    let mirrors = mirrors_of(&reshards);
    let mut visits = visits_of_new(&now, &added);
    let mut all_new = added;
    if let Err(error) = add_mirrors(
        &mut now,
        &mut all_new,
        &mut materializations,
        &mut shuffles,
        &mut visits,
        &reshards,
        &mirrors,
    ) {
        return Err(error);
    }
    let determined = shard_mirrors(sharded, &mirrors, count as NodeIndex);
    let order = visits.into_order();
    proof {
        vstd::seq_lib::lemma_multiset_commutative(
            reshard::new_visits(new, end),
            reshard::mirror_visits(mirrors@, flow.nodes.len()),
        );
        visit::lemma_visits(order::to_visit(new, mirrors@, flow.nodes.len()), order@);
        lemma_order_within(new, mirrors@, flow.nodes.len(), order@);
        lemma_with_mirrors_sources(flow.recorded(new), mirrors@);
    }
    let kept = match plan_materializations(&now, &all_new, materializations, &order) {
        Ok(kept) => kept,
        Err(error) => {
            return Err(error);
        },
    };
    proof {
        replay::lemma_planned_replayable(
            dataflow::flow(now),
            all_new@,
            flow.undecided(new, given),
            order@,
        );
    }
    let trimmed = trim_paths(&now, &all_new, kept);
    let waiting = find_unsharded_new(&now, &all_new, &determined);
    match inherit_shardings(&now, determined, waiting) {
        Ok(shardings) => Ok(
            MigrationPlan {
                graph: now,
                added: all_new,
                shardings,
                shuffles,
                materializations: trimmed,
            },
        ),
        Err(error) => Err(error),
    }
}

/// The data-flow, and what is assigned to its operators.
#[derive(Debug)]
pub struct State {
    /// The operators.
    pub graph: FlowGraph,
    /// The domains that operators are in.
    pub in_domain: HashMap<NodeIndex, DomainIndex>,
    /// The shardings of domains.
    pub sharding: HashMap<DomainIndex, Sharding>,
    /// The domains that are assigned to operators.
    pub assigned_domain: HashMap<NodeIndex, DomainIndex>,
    /// What operators are sharded by.
    pub assigned_sharding: HashMap<NodeIndex, Column>,
}

impl Default for State {
    fn default() -> (state: Self)
        ensures
            dataflow::flow(state.graph) == (Flow { nodes: Seq::empty(), edges: Seq::empty() }),
            state.in_domain@ == Map::<NodeIndex, DomainIndex>::empty(),
            state.sharding@ == Map::<DomainIndex, Sharding>::empty(),
            state.assigned_domain@ == Map::<NodeIndex, DomainIndex>::empty(),
            state.assigned_sharding@ == Map::<NodeIndex, Column>::empty(),
    {
        State {
            graph: new_graph(),
            in_domain: HashMap::new(),
            sharding: HashMap::new(),
            assigned_domain: HashMap::new(),
            assigned_sharding: HashMap::new(),
        }
    }
}

/// A change to a data-flow that is being put together.
pub struct Migration<'a> {
    /// The operators, new ones among them.
    pub graph: FlowGraph,
    /// The new operators. An operator is added after its parents and gets a larger index, so going
    /// through them by index is going through them in topological order.
    pub added: HashSet<NodeIndex>,
    /// The data-flow that is changed.
    pub state: &'a mut State,
    /// The domains that are assigned to operators.
    pub assigned_domain: HashMap<NodeIndex, DomainIndex>,
    /// What operators are sharded by.
    pub assigned_sharding: HashMap<NodeIndex, Column>,
}

impl State {
    /// Starts a migration, with a copy of the data-flow and nothing added.
    pub fn migrate(&mut self) -> (migration: Migration<'_>)
        ensures
            dataflow::flow(migration.graph) == dataflow::flow(old(self).graph),
            dataflow::graph_edge_ids(migration.graph) == dataflow::graph_edge_ids(old(self).graph),
            migration.added@ == Set::<NodeIndex>::empty(),
            *migration.state == *old(self),
            *final(self) == *final(migration.state),
            migration.assigned_domain@ == old(self).assigned_domain@,
            migration.assigned_sharding@ == old(self).assigned_sharding@,
    {
        let graph = clone_graph(&self.graph);
        let assigned_domain = self.assigned_domain.clone();
        let assigned_sharding = self.assigned_sharding.clone();
        Migration { graph, added: HashSet::new(), assigned_domain, assigned_sharding, state: self }
    }
}

impl<'a> Migration<'a> {
    /// Nothing is added, or the new nodes are nodes of the graph, columns come from operators that
    /// were added before, and lookups are into operators of the graph.
    pub open spec fn wf(self) -> bool {
        self.added@ == Set::<NodeIndex>::empty() || plannable(
            dataflow::flow(self.graph),
            self.added@,
        )
    }

    /// The plan that the migration comes to, or why there is none.
    pub open spec fn plan(self) -> Result<MigrationPlanView, CommitError> {
        dataflow::flow(self.graph).plan(self.added@, self.assigned_sharding@)
    }

    /// The base table column that a column resolves to.
    pub fn resolve_for_lookup(&self, node: NodeIndex, column: usize) -> (resolved: Column)
        requires
            dataflow::flow(self.graph).sources_precede(),
            dataflow::flow(self.graph).resolve(node, column) is Some,
        ensures
            Some(resolved) == dataflow::flow(self.graph).resolve(node, column),
    {
        match resolve_column(&self.graph, node, column) {
            Some(resolved) => resolved,
            None => unreached(),
        }
    }

    /// Ends the migration with the plan that it comes to, or with why there is none. The data-flow
    /// stays as it is.
    pub fn try_commit(self) -> (result: Result<MigrationPlan, CommitError>)
        requires
            self.wf(),
        ensures
            outcome(result) == self.plan(),
            match result {
                Ok(plan) => dataflow::flow(self.graph).plan(
                    self.added@,
                    self.assigned_sharding@,
                ) == Ok::<MigrationPlanView, CommitError>(
                    MigrationPlanView {
                        flow: Flow {
                            nodes: dataflow::graph_nodes(plan.graph),
                            edges: dataflow::graph_edges(plan.graph),
                        },
                        added: plan.added@,
                        shardings: plan.shardings@,
                        shuffles: plan.shuffles@,
                        materializations: materialization::views(plan.materializations@),
                    },
                ),
                Err(error) => dataflow::flow(self.graph).plan(
                    self.added@,
                    self.assigned_sharding@,
                ) == Err::<MigrationPlanView, CommitError>(error),
            },
            *final(self.state) == *old(self.state),
    {
        plan_migration(self.graph, self.added, self.assigned_sharding)
    }

    /// Ends the migration with the plan that it comes to. The data-flow stays as it is.
    pub fn commit(self) -> (plan: MigrationPlan)
        requires
            self.wf(),
            self.added@ == Set::<NodeIndex>::empty() || self.plan() is Ok,
        ensures
            self.plan() == Ok::<MigrationPlanView, CommitError>(plan@),
            dataflow::flow(self.graph).plan(self.added@, self.assigned_sharding@) == Ok::<
                MigrationPlanView,
                CommitError,
            >(
                MigrationPlanView {
                    flow: Flow {
                        nodes: dataflow::graph_nodes(plan.graph),
                        edges: dataflow::graph_edges(plan.graph),
                    },
                    added: plan.added@,
                    shardings: plan.shardings@,
                    shuffles: plan.shuffles@,
                    materializations: materialization::views(plan.materializations@),
                },
            ),
            *final(self.state) == *old(self.state),
    {
        match plan_migration(self.graph, self.added, self.assigned_sharding) {
            Ok(plan) => plan,
            Err(_) => unreached(),
        }
    }
}

} // verus!
