//! How materialized state is kept: all of it, or on demand with paths to replay it over.

use std::collections::{HashMap, HashSet, VecDeque};
use vstd::prelude::*;

use crate::ancestry;
use crate::ancestry::ancestors_of;
use crate::dataflow;
use crate::dataflow::{operator, Flow, FlowGraph};
use crate::error::CommitError;
use crate::materialization;
use crate::materialization::{
    ascending_keys, Materialization, MaterializationPlan, MaterializationView, PlanView,
};
use crate::sharding::{Column, NodeIndex};
use crate::visit::VisitNode;

verus! {

/// Whether all of the state at a node is kept.
pub open spec fn full(
    materializations: Map<NodeIndex, MaterializationView>,
    node: NodeIndex,
) -> bool {
    materializations.contains_key(node) && materializations[node].plan == Some(PlanView::Full)
}

/// Whether all of the state at a node is kept.
pub fn is_full(materializations: &HashMap<NodeIndex, Materialization>, node: NodeIndex) -> (kept:
    bool)
    ensures
        kept == full(materialization::views(materializations@), node),
        kept == (materializations@.contains_key(node) && materializations@[node].plan matches Some(
            MaterializationPlan::Full,
        )),
{
    match materializations.get(&node) {
        Some(materialization) => match materialization.is_full() {
            Some(kept) => kept,
            None => false,
        },
        None => false,
    }
}

/// A column in front of each path.
pub open spec fn led_by(column: Column, paths: Seq<Seq<Column>>) -> Seq<Seq<Column>> {
    paths.map_values(|path: Seq<Column>| seq![column] + path)
}

impl Flow {
    /// Whether a column can be replayed: every way up through what supplies it leads to a full
    /// materialization, and every operator that it has to come from on the way can supply it.
    pub open spec fn viable(
        self,
        materializations: Map<NodeIndex, MaterializationView>,
        node: NodeIndex,
        column: usize,
    ) -> bool
        decreases node,
    {
        full(materializations, node) || self.source_of(node, column).len() > 0 && forall|i: int|
            #![trigger self.source_of(node, column)[i]]
            0 <= i < self.source_of(node, column).len() ==> match self.source_of(
                node,
                column,
            )[i].1 {
                Some(above) => self.source_of(node, column)[i].0 < node && self.viable(
                    materializations,
                    self.source_of(node, column)[i].0,
                    above,
                ),
                None => false,
            }
    }

    /// The paths that a column is replayed over: from the node up through what supplies the
    /// column, each to the first full materialization on its way.
    pub open spec fn paths(
        self,
        materializations: Map<NodeIndex, MaterializationView>,
        node: NodeIndex,
        column: usize,
    ) -> Seq<Seq<Column>>
        decreases node, self.source_of(node, column).len() + 1,
    {
        if full(materializations, node) {
            seq![seq![(node, column)]]
        } else {
            self.paths_by(
                materializations,
                node,
                column,
                self.source_of(node, column).len() as int,
            )
        }
    }

    /// The paths that a column is replayed over by way of its sources before `end`.
    pub open spec fn paths_by(
        self,
        materializations: Map<NodeIndex, MaterializationView>,
        node: NodeIndex,
        column: usize,
        end: int,
    ) -> Seq<Seq<Column>>
        decreases node, end,
    {
        if end <= 0 {
            Seq::empty()
        } else {
            let before = self.paths_by(materializations, node, column, end - 1);
            let (ancestor, supplied) = self.source_of(node, column)[end - 1];
            match supplied {
                Some(above) => if ancestor < node {
                    before + led_by((node, column), self.paths(materializations, ancestor, above))
                } else {
                    before
                },
                None => before,
            }
        }
    }
}

/// What is observable of paths.
pub open spec fn path_views(paths: Seq<Vec<Column>>) -> Seq<Seq<Column>> {
    paths.map_values(|path: Vec<Column>| path@)
}

/// A path with a column in front.
fn extend_path(column: Column, path: &Vec<Column>) -> (extended: Vec<Column>)
    ensures
        extended@ == seq![column] + path@,
{
    let mut extended: Vec<Column> = Vec::new();
    extended.push(column);
    for i in 0..path.len()
        invariant
            extended@ == seq![column] + path@.take(i as int),
    {
        extended.push(path[i]);
    }
    extended
}

/// Adds paths, each with a column in front.
fn lead_paths(
    paths: &mut VecDeque<Vec<Column>>,
    column: Column,
    further: &VecDeque<Vec<Column>>,
)
    ensures
        path_views(final(paths)@) == path_views(old(paths)@) + led_by(
            column,
            path_views(further@),
        ),
{
    let ghost before = path_views(paths@);
    let ghost led = led_by(column, path_views(further@));
    assert(before + led.take(0) =~= before);
    for i in 0..further.len()
        invariant
            before == path_views(old(paths)@),
            led == led_by(column, path_views(further@)),
            path_views(paths@) == before + led.take(i as int),
    {
        let ghost held = paths@;
        let path = extend_path(column, &further[i]);
        paths.push_back(path);
        assert(path@ == led[i as int]);
        assert(path_views(paths@) =~= path_views(held).push(path@));
        assert(before + led.take(i + 1) =~= (before + led.take(i as int)).push(led[i as int]));
    }
    assert(led.take(further@.len() as int) =~= led);
}

/// Finds the paths that a column is replayed over; `None` where it cannot be replayed.
pub fn replay_paths(
    graph: &FlowGraph,
    materializations: &HashMap<NodeIndex, Materialization>,
    node: NodeIndex,
    column: usize,
) -> (paths: Option<VecDeque<Vec<Column>>>)
    requires
        dataflow::flow(*graph).sources_precede(),
        node < dataflow::flow(*graph).nodes.len(),
    ensures
        ({
            let flow = dataflow::flow(*graph);
            let views = materialization::views(materializations@);
            match paths {
                Some(paths) => {
                    &&& flow.viable(views, node, column)
                    &&& path_views(paths@) == flow.paths(views, node, column)
                },
                None => !flow.viable(views, node, column),
            }
        }),
    decreases node,
{
    let ghost flow = dataflow::flow(*graph);
    let ghost views = materialization::views(materializations@);
    let mut paths: VecDeque<Vec<Column>> = VecDeque::new();
    if is_full(materializations, node) {
        let mut path: Vec<Column> = Vec::new();
        path.push((node, column));
        paths.push_back(path);
        assert(path@ =~= seq![(node, column)]);
        assert(path_views(paths@) =~= seq![seq![(node, column)]]);
        return Some(paths);
    }
    let sources = operator(graph, node).source_of(column);
    if sources.len() == 0 {
        return None;
    }
    assert(path_views(paths@) =~= flow.paths_by(views, node, column, 0));
    for i in 0..sources.len()
        invariant
            flow == dataflow::flow(*graph),
            views == materialization::views(materializations@),
            flow.sources_precede(),
            node < flow.nodes.len(),
            !full(views, node),
            sources@ == flow.source_of(node, column),
            forall|j: int|
                0 <= j < i ==> (#[trigger] sources@[j]).1 is Some && sources@[j].0 < node
                    && flow.viable(views, sources@[j].0, sources@[j].1->0),
            path_views(paths@) == flow.paths_by(views, node, column, i as int),
    {
        let (ancestor, supplied) = sources[i];
        assert(flow.nodes[node as int].sources[column as int][i as int].0 < node);
        assert(sources@[i as int] == flow.source_of(node, column)[i as int]);
        match supplied {
            Some(above) => match replay_paths(graph, materializations, ancestor, above) {
                Some(further) => {
                    lead_paths(&mut paths, (node, column), &further);
                },
                None => {
                    assert(!flow.viable(views, node, column));
                    return None;
                },
            },
            None => {
                assert(!flow.viable(views, node, column));
                return None;
            },
        }
    }
    assert forall|j: int| #![trigger flow.source_of(node, column)[j]]
        0 <= j < sources@.len() implies flow.source_of(node, column)[j].1 is Some
        && flow.source_of(node, column)[j].0 < node && flow.viable(
        views,
        flow.source_of(node, column)[j].0,
        flow.source_of(node, column)[j].1->0,
    ) by {
        assert(sources@[j].1 is Some);
    }
    Some(paths)
}

impl Flow {
    /// Whether all keys of a node can be replayed.
    pub open spec fn keys_viable(
        self,
        materializations: Map<NodeIndex, MaterializationView>,
        node: NodeIndex,
        keys: Set<usize>,
    ) -> bool {
        forall|key: usize| #[trigger]
            keys.contains(key) ==> self.viable(materializations, node, key)
    }

    /// The paths that the keys of a node are replayed over, key by key.
    pub open spec fn key_paths(
        self,
        materializations: Map<NodeIndex, MaterializationView>,
        node: NodeIndex,
        keys: Seq<usize>,
    ) -> Seq<Seq<Column>>
        decreases keys.len(),
    {
        if keys.len() == 0 {
            Seq::empty()
        } else {
            self.key_paths(materializations, node, keys.drop_last()) + self.paths(
                materializations,
                node,
                keys.last(),
            )
        }
    }
}

/// Finds the paths that the keys of a node are replayed over, in ascending order of the keys;
/// `None` where a key cannot be replayed.
fn replay_key_paths(
    graph: &FlowGraph,
    materializations: &HashMap<NodeIndex, Materialization>,
    node: NodeIndex,
    keys: &HashSet<usize>,
) -> (paths: Option<VecDeque<Vec<Column>>>)
    requires
        dataflow::flow(*graph).sources_precede(),
        node < dataflow::flow(*graph).nodes.len(),
    ensures
        ({
            let flow = dataflow::flow(*graph);
            let views = materialization::views(materializations@);
            match paths {
                Some(paths) => {
                    &&& flow.keys_viable(views, node, keys@)
                    &&& path_views(paths@) == flow.key_paths(
                        views,
                        node,
                        materialization::ascending(keys@),
                    )
                },
                None => !flow.keys_viable(views, node, keys@),
            }
        }),
{
    let ghost flow = dataflow::flow(*graph);
    let ghost views = materialization::views(materializations@);
    let mut paths: VecDeque<Vec<Column>> = VecDeque::new();
    let list = ascending_keys(keys);
    proof {
        materialization::lemma_ascending(keys@);
    }
    assert(path_views(paths@) =~= Seq::empty());
    for i in 0..list.len()
        invariant
            flow == dataflow::flow(*graph),
            views == materialization::views(materializations@),
            flow.sources_precede(),
            node < flow.nodes.len(),
            list@ == materialization::ascending(keys@),
            forall|key: usize| #[trigger]
                materialization::ascending(keys@).contains(key) <==> keys@.contains(key),
            forall|j: int| 0 <= j < i ==> flow.viable(views, node, #[trigger] list@[j]),
            path_views(paths@) == flow.key_paths(views, node, list@.take(i as int)),
    {
        assert(list@.take(i + 1).drop_last() =~= list@.take(i as int));
        assert(list@.contains(list@[i as int]));
        match replay_paths(graph, materializations, node, list[i]) {
            Some(mut further) => {
                let ghost held = paths@;
                let ghost more = further@;
                paths.append(&mut further);
                assert(path_views(paths@) =~= path_views(held) + path_views(more));
            },
            None => {
                assert(!flow.viable(views, node, list@[i as int]));
                return None;
            },
        }
    }
    assert(list@.take(list@.len() as int) =~= list@);
    assert forall|key: usize| #[trigger] keys@.contains(key) implies flow.viable(
        views,
        node,
        key,
    ) by {
        assert(materialization::ascending(keys@).contains(key));
        let j = choose|j: int| 0 <= j < list@.len() && list@[j] == key;
        assert(flow.viable(views, node, list@[j]));
    }
    Some(paths)
}

/// The materializations once those of some nodes are full.
pub open spec fn made_full(
    materializations: Map<NodeIndex, MaterializationView>,
    nodes: Set<NodeIndex>,
) -> Map<NodeIndex, MaterializationView> {
    Map::new(
        |node: NodeIndex| materializations.contains_key(node),
        |node: NodeIndex|
            if nodes.contains(node) {
                MaterializationView {
                    keys: materializations[node].keys,
                    plan: Some(PlanView::Full),
                }
            } else {
                materializations[node]
            },
    )
}

/// Whether an existing operator has state that is not full.
pub open spec fn settled_otherwise(
    added: Set<NodeIndex>,
    materializations: Map<NodeIndex, MaterializationView>,
    node: NodeIndex,
) -> bool {
    materializations.contains_key(node) && !added.contains(node) && !full(materializations, node)
}

/// Whether one of the nodes is an existing operator with state that is not full.
pub open spec fn any_settled_otherwise(
    added: Set<NodeIndex>,
    materializations: Map<NodeIndex, MaterializationView>,
    nodes: Set<NodeIndex>,
) -> bool {
    exists|node: NodeIndex| #[trigger]
        nodes.contains(node) && settled_otherwise(added, materializations, node)
}

impl Flow {
    /// The materializations once it is decided how the state at a node is kept. It is replayed on
    /// demand where all its keys can be, and otherwise it is full, and so is all state above it.
    pub open spec fn decided(
        self,
        added: Set<NodeIndex>,
        materializations: Map<NodeIndex, MaterializationView>,
        node: NodeIndex,
    ) -> Result<Map<NodeIndex, MaterializationView>, CommitError> {
        let keys = materializations[node].keys;
        if !materializations.contains_key(node) || materializations[node].plan is Some
            || keys.is_empty() {
            Ok(materializations)
        } else if self.keys_viable(materializations, node, keys) {
            let paths = self.key_paths(materializations, node, materialization::ascending(keys));
            Ok(
                materializations.insert(
                    node,
                    MaterializationView { keys, plan: Some(PlanView::Partial { paths }) },
                ),
            )
        } else {
            let upward = ancestry::above(self.edges, node);
            if any_settled_otherwise(added, materializations, upward) {
                Err(CommitError::ExistingNotFull)
            } else {
                Ok(made_full(materializations, upward))
            }
        }
    }

    /// The materializations once it is decided how the state at each node is kept, node by node.
    pub open spec fn planned(
        self,
        added: Set<NodeIndex>,
        materializations: Map<NodeIndex, MaterializationView>,
        order: Seq<VisitNode>,
    ) -> Result<Map<NodeIndex, MaterializationView>, CommitError>
        decreases order.len(),
    {
        if order.len() == 0 {
            Ok(materializations)
        } else {
            match self.planned(added, materializations, order.drop_last()) {
                Ok(before) => self.decided(added, before, order.last().index),
                Err(error) => Err(error),
            }
        }
    }
}

/// What is observable of planned materializations.
pub open spec fn result_views(
    result: Result<HashMap<NodeIndex, Materialization>, CommitError>,
) -> Result<Map<NodeIndex, MaterializationView>, CommitError> {
    match result {
        Ok(materializations) => Ok(materialization::views(materializations@)),
        Err(error) => Err(error),
    }
}

/// Makes the state at some nodes full.
fn make_full(
    added: &HashSet<NodeIndex>,
    materializations: HashMap<NodeIndex, Materialization>,
    nodes: &Vec<NodeIndex>,
) -> (result: Result<HashMap<NodeIndex, Materialization>, CommitError>)
    ensures
        ({
            let views = materialization::views(materializations@);
            result_views(result) == if any_settled_otherwise(added@, views, nodes@.to_set()) {
                Err(CommitError::ExistingNotFull)
            } else {
                Ok(made_full(views, nodes@.to_set()))
            }
        }),
{
    let ghost views = materialization::views(materializations@);
    let mut filled = materializations;
    assert(views =~= made_full(views, nodes@.take(0).to_set()));
    for i in 0..nodes.len()
        invariant
            views == materialization::views(materializations@),
            materialization::views(filled@) == made_full(views, nodes@.take(i as int).to_set()),
            forall|j: int|
                0 <= j < i ==> !settled_otherwise(added@, views, #[trigger] nodes@[j]),
    {
        let node: NodeIndex = nodes[i];
        let ghost held = filled@;
        let ghost before = nodes@.take(i as int).to_set();
        let ghost after = nodes@.take(i + 1).to_set();
        let ghost earlier = nodes@.take(i as int);
        let ghost later = nodes@.take(i + 1);
        proof {
            assert(later =~= earlier.push(node));
            assert forall|other: NodeIndex| #[trigger] after.contains(other) == before.insert(
                node,
            ).contains(other) by {
                if before.contains(other) {
                    let k = choose|k: int| 0 <= k < earlier.len() && earlier[k] == other;
                    assert(later[k] == other);
                }
                if after.contains(other) && other != node {
                    let k = choose|k: int| 0 <= k < later.len() && later[k] == other;
                    assert(earlier[k] == other);
                }
                assert(later[i as int] == node);
            }
            assert(materialization::views(held).contains_key(node) == views.contains_key(node));
            if before.contains(node) {
                let k = choose|k: int| 0 <= k < earlier.len() && earlier[k] == node;
                assert(!settled_otherwise(added@, views, nodes@[k]));
            }
        }
        if !added.contains(&node) && filled.contains_key(&node) && !is_full(&filled, node) {
            proof {
                assert(settled_otherwise(added@, views, node));
                assert(nodes@[i as int] == node);
                assert(nodes@.to_set().contains(node));
            }
            return Err(CommitError::ExistingNotFull);
        }
        if let Some(materialization) = filled.remove(&node) {
            assert(materialization@ == materialization::views(held)[node]);
            let now = Materialization {
                keys: materialization.keys,
                plan: Some(MaterializationPlan::Full),
            };
            filled.insert(node, now);
            assert(materialization::views(filled@) =~= materialization::views(held).insert(
                node,
                now@,
            ));
            assert(made_full(views, after) =~= made_full(views, before).insert(node, now@));
        } else {
            assert(filled@ =~= held);
            assert(made_full(views, after) =~= made_full(views, before));
        }
        assert(!settled_otherwise(added@, views, node));
    }
    proof {
        assert(nodes@.take(nodes@.len() as int) =~= nodes@);
        assert forall|node: NodeIndex| #[trigger]
            nodes@.to_set().contains(node) implies !settled_otherwise(added@, views, node) by {
            let j = choose|j: int| 0 <= j < nodes@.len() && nodes@[j] == node;
            assert(!settled_otherwise(added@, views, nodes@[j]));
        }
    }
    Ok(filled)
}

/// Decides how the state at a node is kept.
fn decide(
    graph: &FlowGraph,
    added: &HashSet<NodeIndex>,
    materializations: HashMap<NodeIndex, Materialization>,
    node: NodeIndex,
) -> (result: Result<HashMap<NodeIndex, Materialization>, CommitError>)
    requires
        dataflow::flow(*graph).sources_precede(),
        node < dataflow::flow(*graph).nodes.len(),
    ensures
        result_views(result) == dataflow::flow(*graph).decided(
            added@,
            materialization::views(materializations@),
            node,
        ),
{
    let ghost views = materialization::views(materializations@);
    let replayed = match materializations.get(&node) {
        Some(materialization) => {
            assert(views[node] == materialization@);
            if materialization.plan.is_some() || materialization.keys.is_empty() {
                return Ok(materializations);
            }
            replay_key_paths(graph, &materializations, node, &materialization.keys)
        },
        None => {
            return Ok(materializations);
        },
    };
    match replayed {
        Some(paths) => {
            let mut planned = materializations;
            if let Some(materialization) = planned.remove(&node) {
                assert(views[node] == materialization@);
                let now = Materialization {
                    keys: materialization.keys,
                    plan: Some(MaterializationPlan::Partial { paths }),
                };
                planned.insert(node, now);
                assert(materialization::views(planned@) =~= views.insert(node, now@));
            }
            Ok(planned)
        },
        None => {
            let upward = ancestors_of(graph, node);
            make_full(added, materializations, &upward)
        },
    }
}

/// Decides how the state at each node is kept, node by node.
pub fn plan_materializations(
    graph: &FlowGraph,
    added: &HashSet<NodeIndex>,
    materializations: HashMap<NodeIndex, Materialization>,
    order: &Vec<VisitNode>,
) -> (result: Result<HashMap<NodeIndex, Materialization>, CommitError>)
    requires
        dataflow::flow(*graph).sources_precede(),
        forall|i: int|
            0 <= i < order@.len() ==> (#[trigger] order@[i]).index < dataflow::flow(
                *graph,
            ).nodes.len(),
    ensures
        result_views(result) == dataflow::flow(*graph).planned(
            added@,
            materialization::views(materializations@),
            order@,
        ),
{
    let ghost flow = dataflow::flow(*graph);
    let ghost views = materialization::views(materializations@);
    let mut planned = materializations;
    for i in 0..order.len()
        invariant
            flow == dataflow::flow(*graph),
            views == materialization::views(materializations@),
            flow.sources_precede(),
            forall|i: int|
                0 <= i < order@.len() ==> (#[trigger] order@[i]).index < flow.nodes.len(),
            flow.planned(added@, views, order@.take(i as int)) == Ok::<
                Map<NodeIndex, MaterializationView>,
                CommitError,
            >(materialization::views(planned@)),
    {
        assert(order@.take(i + 1).drop_last() =~= order@.take(i as int));
        planned = match decide(graph, added, planned, order[i].index) {
            Ok(planned) => planned,
            Err(error) => {
                proof {
                    lemma_planned_fails(flow, added@, views, order@, i + 1);
                }
                return Err(error);
            },
        };
    }
    assert(order@.take(order@.len() as int) =~= order@);
    Ok(planned)
}

/// What cannot be decided at a node is not decided further on.
pub proof fn lemma_planned_fails(
    flow: Flow,
    added: Set<NodeIndex>,
    materializations: Map<NodeIndex, MaterializationView>,
    order: Seq<VisitNode>,
    end: int,
)
    requires
        0 <= end <= order.len(),
        flow.planned(added, materializations, order.take(end)) is Err,
    ensures
        flow.planned(added, materializations, order) == flow.planned(
            added,
            materializations,
            order.take(end),
        ),
    decreases order.len() - end,
{
    if end < order.len() {
        assert(order.take(end + 1).drop_last() =~= order.take(end));
        lemma_planned_fails(flow, added, materializations, order, end + 1);
    } else {
        assert(order.take(end) =~= order);
    }
}

/// Whether a path passes a full materialization.
pub open spec fn passes_full(
    materializations: Map<NodeIndex, MaterializationView>,
    path: Seq<Column>,
) -> bool {
    exists|i: int|
        0 <= i < path.len() && full(materializations, (#[trigger] path[i]).0)
}

/// Whether a path ends in a full materialization and passes none before.
pub open spec fn ends_full(
    materializations: Map<NodeIndex, MaterializationView>,
    path: Seq<Column>,
) -> bool {
    &&& path.len() > 0
    &&& full(materializations, path.last().0)
    &&& forall|i: int|
        0 <= i < path.len() - 1 ==> !full(materializations, (#[trigger] path[i]).0)
}

/// The paths that the state at a node is replayed over, if it is replayed.
pub open spec fn paths_at(
    materializations: Map<NodeIndex, MaterializationView>,
    node: NodeIndex,
) -> Seq<Seq<Column>> {
    if materializations.contains_key(node) {
        match materializations[node].plan {
            Some(PlanView::Partial { paths }) => paths,
            _ => Seq::empty(),
        }
    } else {
        Seq::empty()
    }
}

/// Whether every path that state is replayed over passes a full materialization.
pub open spec fn replayable(materializations: Map<NodeIndex, MaterializationView>) -> bool {
    forall|node: NodeIndex, i: int|
        0 <= i < paths_at(materializations, node).len() ==> passes_full(
            materializations,
            #[trigger] paths_at(materializations, node)[i],
        )
}

impl Flow {
    /// Whether a column comes from another.
    pub open spec fn supplied_by(self, column: Column, source: Column) -> bool {
        self.source_of(column.0, column.1).contains((source.0, Some(source.1)))
    }

    /// Whether a path leads from a column up through what supplies it, step by step.
    pub open spec fn follows(self, path: Seq<Column>) -> bool {
        forall|i: int, j: int|
            0 <= i && j == i + 1 && j < path.len() ==> self.supplied_by(
                #[trigger] path[i],
                #[trigger] path[j],
            )
    }

    /// Whether a column can be replayed over a path: the path leads from the column up through what
    /// supplies it, ends in a full materialization and passes none before.
    pub open spec fn replays(
        self,
        materializations: Map<NodeIndex, MaterializationView>,
        node: NodeIndex,
        column: usize,
        path: Seq<Column>,
    ) -> bool {
        &&& path.len() > 0
        &&& path[0] == (node, column)
        &&& self.follows(path)
        &&& ends_full(materializations, path)
    }
}

/// A step in front of a path that a column can be replayed over.
proof fn lemma_replays_step(
    flow: Flow,
    materializations: Map<NodeIndex, MaterializationView>,
    node: NodeIndex,
    column: usize,
    i: int,
    path: Seq<Column>,
)
    requires
        !full(materializations, node),
        0 <= i < flow.source_of(node, column).len(),
        flow.source_of(node, column)[i].1 is Some,
        flow.replays(
            materializations,
            flow.source_of(node, column)[i].0,
            flow.source_of(node, column)[i].1->0,
            path,
        ),
    ensures
        flow.replays(materializations, node, column, seq![(node, column)] + path),
{
    let longer = seq![(node, column)] + path;
    let sources = flow.source_of(node, column);
    assert(forall|j: int| 0 <= j < path.len() ==> longer[j + 1] == #[trigger] path[j]);
    assert forall|j: int, k: int| 0 <= j && k == j + 1 && k < longer.len() implies flow.supplied_by(
        #[trigger] longer[j],
        #[trigger] longer[k],
    ) by {
        assert(longer[k] == path[j]);
        if j == 0 {
            assert(sources[i] == (path[0].0, Some(path[0].1)));
        } else {
            assert(longer[j] == path[j - 1]);
        }
    }
    assert forall|j: int| 0 <= j < longer.len() - 1 implies !full(
        materializations,
        (#[trigger] longer[j]).0,
    ) by {
        if j > 0 {
            assert(!full(materializations, path[j - 1].0));
        }
    }
}

/// A column can be replayed over each of its paths.
pub proof fn law_paths_replay(
    flow: Flow,
    materializations: Map<NodeIndex, MaterializationView>,
    node: NodeIndex,
    column: usize,
)
    ensures
        forall|i: int|
            0 <= i < flow.paths(materializations, node, column).len() ==> flow.replays(
                materializations,
                node,
                column,
                #[trigger] flow.paths(materializations, node, column)[i],
            ),
    decreases node, flow.source_of(node, column).len() + 1,
{
    let paths = flow.paths(materializations, node, column);
    if full(materializations, node) {
        assert forall|i: int| 0 <= i < paths.len() implies flow.replays(
            materializations,
            node,
            column,
            #[trigger] paths[i],
        ) by {
            assert(paths[i] == seq![(node, column)]);
        }
    } else {
        lemma_paths_by_replay(
            flow,
            materializations,
            node,
            column,
            flow.source_of(node, column).len() as int,
        );
        assert(paths == flow.paths_by(
            materializations,
            node,
            column,
            flow.source_of(node, column).len() as int,
        ));
    }
}

/// A column can be replayed over each of the paths by way of its first sources.
proof fn lemma_paths_by_replay(
    flow: Flow,
    materializations: Map<NodeIndex, MaterializationView>,
    node: NodeIndex,
    column: usize,
    end: int,
)
    requires
        !full(materializations, node),
        end <= flow.source_of(node, column).len(),
    ensures
        forall|i: int|
            0 <= i < flow.paths_by(materializations, node, column, end).len() ==> flow.replays(
                materializations,
                node,
                column,
                #[trigger] flow.paths_by(materializations, node, column, end)[i],
            ),
    decreases node, end,
{
    if end > 0 {
        lemma_paths_by_replay(flow, materializations, node, column, end - 1);
        let before = flow.paths_by(materializations, node, column, end - 1);
        let all = flow.paths_by(materializations, node, column, end);
        let (ancestor, supplied) = flow.source_of(node, column)[end - 1];
        if supplied is Some && ancestor < node {
            let further = flow.paths(materializations, ancestor, supplied->0);
            law_paths_replay(flow, materializations, ancestor, supplied->0);
            assert forall|i: int| 0 <= i < all.len() implies flow.replays(
                materializations,
                node,
                column,
                #[trigger] all[i],
            ) by {
                if i < before.len() {
                    assert(all[i] == before[i]);
                } else {
                    let path = further[i - before.len()];
                    assert(all[i] == seq![(node, column)] + path);
                    lemma_replays_step(flow, materializations, node, column, end - 1, path);
                }
            }
        }
    }
}

/// A column has all the paths that it can be replayed over.
pub proof fn law_paths_complete(
    flow: Flow,
    materializations: Map<NodeIndex, MaterializationView>,
    node: NodeIndex,
    column: usize,
    path: Seq<Column>,
)
    requires
        flow.sources_precede(),
        node < flow.nodes.len(),
        flow.replays(materializations, node, column, path),
    ensures
        flow.paths(materializations, node, column).contains(path),
    decreases node,
{
    let paths = flow.paths(materializations, node, column);
    if full(materializations, node) {
        if path.len() > 1 {
            assert(!full(materializations, path[0].0));
        }
        assert(path =~= seq![(node, column)]);
        assert(paths[0] == path);
    } else {
        let sources = flow.source_of(node, column);
        assert(path.len() > 1);
        assert(flow.supplied_by(path[0], path[1]));
        let k = choose|k: int|
            0 <= k < sources.len() && sources[k] == (path[1].0, Some(path[1].1));
        assert(flow.nodes[node as int].sources[column as int][k].0 < node);
        let rest = path.skip(1);
        assert forall|i: int, j: int|
            0 <= i && j == i + 1 && j < rest.len() implies flow.supplied_by(
            #[trigger] rest[i],
            #[trigger] rest[j],
        ) by {
            assert(rest[i] == path[i + 1]);
            assert(rest[j] == path[j + 1]);
        }
        assert forall|i: int| 0 <= i < rest.len() - 1 implies !full(
            materializations,
            (#[trigger] rest[i]).0,
        ) by {
            assert(!full(materializations, path[i + 1].0));
        }
        law_paths_complete(flow, materializations, path[1].0, path[1].1, rest);
        assert(seq![(node, column)] + rest =~= path);
        lemma_paths_by_complete(
            flow,
            materializations,
            node,
            column,
            k,
            sources.len() as int,
            rest,
        );
    }
}

/// The paths by way of the first sources hold those by way of each of them.
proof fn lemma_paths_by_complete(
    flow: Flow,
    materializations: Map<NodeIndex, MaterializationView>,
    node: NodeIndex,
    column: usize,
    k: int,
    end: int,
    rest: Seq<Column>,
)
    requires
        0 <= k < end,
        flow.source_of(node, column)[k].0 < node,
        flow.source_of(node, column)[k].1 is Some,
        flow.paths(
            materializations,
            flow.source_of(node, column)[k].0,
            flow.source_of(node, column)[k].1->0,
        ).contains(rest),
    ensures
        flow.paths_by(materializations, node, column, end).contains(seq![(node, column)] + rest),
    decreases end,
{
    let all = flow.paths_by(materializations, node, column, end);
    let before = flow.paths_by(materializations, node, column, end - 1);
    let path = seq![(node, column)] + rest;
    if k == end - 1 {
        let further = flow.paths(
            materializations,
            flow.source_of(node, column)[k].0,
            flow.source_of(node, column)[k].1->0,
        );
        let i = choose|i: int| 0 <= i < further.len() && further[i] == rest;
        assert(all[before.len() + i] == path);
    } else {
        lemma_paths_by_complete(flow, materializations, node, column, k, end - 1, rest);
        let i = choose|i: int| 0 <= i < before.len() && before[i] == path;
        assert(all[i] == path);
    }
}

/// A column that can be replayed is replayed from everywhere that it comes from: however far a way
/// up through what supplies it has gone without getting to a full materialization, it goes on to
/// operators that all supply the column.
pub proof fn law_all_ways_lead_to_full(
    flow: Flow,
    materializations: Map<NodeIndex, MaterializationView>,
    node: NodeIndex,
    column: usize,
    path: Seq<Column>,
)
    requires
        flow.viable(materializations, node, column),
        path.len() > 0,
        path[0] == (node, column),
        flow.follows(path),
        forall|i: int| 0 <= i < path.len() ==> !full(materializations, (#[trigger] path[i]).0),
    ensures
        ({
            let sources = flow.source_of(path.last().0, path.last().1);
            &&& sources.len() > 0
            &&& forall|i: int| 0 <= i < sources.len() ==> (#[trigger] sources[i]).1 is Some
        }),
    decreases path.len(),
{
    let sources = flow.source_of(node, column);
    assert(!full(materializations, path[0].0));
    if path.len() == 1 {
        assert(path.last() == path[0]);
    } else {
        assert(flow.supplied_by(path[0], path[1]));
        let k = choose|k: int|
            0 <= k < sources.len() && sources[k] == (path[1].0, Some(path[1].1));
        let rest = path.skip(1);
        assert forall|i: int, j: int|
            0 <= i && j == i + 1 && j < rest.len() implies flow.supplied_by(
            #[trigger] rest[i],
            #[trigger] rest[j],
        ) by {
            assert(rest[i] == path[i + 1]);
            assert(rest[j] == path[j + 1]);
        }
        assert forall|i: int| 0 <= i < rest.len() implies !full(
            materializations,
            (#[trigger] rest[i]).0,
        ) by {
            assert(rest[i] == path[i + 1]);
        }
        law_all_ways_lead_to_full(flow, materializations, path[1].0, path[1].1, rest);
        assert(rest.last() == path.last());
    }
}

/// A column that can be replayed has a path.
pub proof fn lemma_viable_has_path(
    flow: Flow,
    materializations: Map<NodeIndex, MaterializationView>,
    node: NodeIndex,
    column: usize,
)
    requires
        flow.viable(materializations, node, column),
    ensures
        flow.paths(materializations, node, column).len() > 0,
    decreases node,
{
    if !full(materializations, node) {
        let sources = flow.source_of(node, column);
        let end = sources.len() as int;
        let (ancestor, supplied) = sources[end - 1];
        lemma_viable_has_path(flow, materializations, ancestor, supplied->0);
        assert(flow.paths_by(materializations, node, column, end).len() > 0);
    }
}

/// A path of a node is a path of one of its keys.
pub proof fn lemma_key_paths(
    flow: Flow,
    materializations: Map<NodeIndex, MaterializationView>,
    node: NodeIndex,
    keys: Seq<usize>,
    i: int,
)
    requires
        0 <= i < flow.key_paths(materializations, node, keys).len(),
    ensures
        exists|k: int|
            0 <= k < keys.len() && flow.replays(
                materializations,
                node,
                #[trigger] keys[k],
                flow.key_paths(materializations, node, keys)[i],
            ),
    decreases keys.len(),
{
    let earlier = keys.drop_last();
    let before = flow.key_paths(materializations, node, earlier);
    let path = flow.key_paths(materializations, node, keys)[i];
    if i < before.len() {
        lemma_key_paths(flow, materializations, node, earlier, i);
        let k = choose|k: int|
            0 <= k < earlier.len() && flow.replays(
                materializations,
                node,
                #[trigger] earlier[k],
                before[i],
            );
        assert(flow.replays(materializations, node, keys[k], path));
    } else {
        law_paths_replay(flow, materializations, node, keys.last());
        assert(path == flow.paths(materializations, node, keys.last())[i - before.len()]);
        assert(flow.replays(materializations, node, keys[keys.len() - 1], path));
    }
}

/// Deciding how state is kept leaves full what is full.
proof fn lemma_decided_grows(
    flow: Flow,
    added: Set<NodeIndex>,
    materializations: Map<NodeIndex, MaterializationView>,
    node: NodeIndex,
)
    ensures
        flow.decided(added, materializations, node) matches Ok(after) ==> {
            &&& after.dom() == materializations.dom()
            &&& forall|other: NodeIndex| #[trigger]
                full(materializations, other) ==> full(after, other)
            &&& forall|other: NodeIndex|
                materializations.contains_key(other) ==> #[trigger] after[other].keys
                    == materializations[other].keys
        },
{
    if let Ok(after) = flow.decided(added, materializations, node) {
        assert(after.dom() =~= materializations.dom());
    }
}

/// Deciding how the state at a node is kept leaves all paths such that they pass a full
/// materialization.
proof fn lemma_decided_replayable(
    flow: Flow,
    added: Set<NodeIndex>,
    materializations: Map<NodeIndex, MaterializationView>,
    node: NodeIndex,
)
    requires
        replayable(materializations),
    ensures
        flow.decided(added, materializations, node) matches Ok(after) ==> replayable(after),
{
    if let Ok(after) = flow.decided(added, materializations, node) {
        lemma_decided_grows(flow, added, materializations, node);
        let keys = materialization::ascending(materializations[node].keys);
        assert forall|other: NodeIndex, i: int|
            0 <= i < paths_at(after, other).len() implies passes_full(
            after,
            #[trigger] paths_at(after, other)[i],
        ) by {
            let path = paths_at(after, other)[i];
            if paths_at(after, other) == paths_at(materializations, other) {
                assert(passes_full(materializations, paths_at(materializations, other)[i]));
                let j = choose|j: int|
                    0 <= j < path.len() && full(materializations, (#[trigger] path[j]).0);
                assert(full(after, path[j].0));
            } else {
                lemma_key_paths(flow, materializations, node, keys, i);
                assert(path[path.len() - 1] == path.last());
                assert(full(after, path[path.len() - 1].0));
            }
        }
    }
}

/// However far it is decided how state is kept, every path passes a full materialization.
pub proof fn lemma_planned_replayable(
    flow: Flow,
    added: Set<NodeIndex>,
    materializations: Map<NodeIndex, MaterializationView>,
    order: Seq<VisitNode>,
)
    requires
        replayable(materializations),
    ensures
        flow.planned(added, materializations, order) matches Ok(after) ==> replayable(after),
    decreases order.len(),
{
    if order.len() > 0 {
        lemma_planned_replayable(flow, added, materializations, order.drop_last());
        if let Ok(before) = flow.planned(added, materializations, order.drop_last()) {
            lemma_decided_replayable(flow, added, before, order.last().index);
        }
    }
}

} // verus!
