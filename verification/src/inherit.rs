//! Shardings that operators take over from a parent.

use std::collections::{HashMap, HashSet};
use vstd::prelude::*;

use crate::ancestry;
use crate::dataflow;
use crate::dataflow::{node_count, parents_of, EdgeView, FlowGraph};
use crate::error::CommitError;
use crate::sharding::{Column, NodeIndex};

verus! {

/// The sharding of the first of the nodes that has one.
pub open spec fn first_sharding(assigned: Map<NodeIndex, Column>, nodes: Seq<NodeIndex>) -> Option<
    Column,
>
    decreases nodes.len(),
{
    if nodes.len() == 0 {
        None
    } else {
        match first_sharding(assigned, nodes.drop_last()) {
            Some(sharding) => Some(sharding),
            None => if assigned.contains_key(nodes.last()) {
                Some(assigned[nodes.last()])
            } else {
                None
            },
        }
    }
}

/// One round over the nodes that wait for the sharding of a parent, in order. A node gets the
/// sharding of the parent by the newest edge whose source has a sharding by then. Gives the
/// shardings after the round and the nodes that still wait.
pub open spec fn round(
    edges: Seq<EdgeView>,
    assigned: Map<NodeIndex, Column>,
    waiting: Seq<NodeIndex>,
) -> (Map<NodeIndex, Column>, Seq<NodeIndex>)
    decreases waiting.len(),
{
    if waiting.len() == 0 {
        (assigned, Seq::empty())
    } else {
        let (before, left) = round(edges, assigned, waiting.drop_last());
        let node = waiting.last();
        match first_sharding(before, dataflow::parents(edges, node)) {
            Some(sharding) => (before.insert(node, sharding), left),
            None => (before, left.push(node)),
        }
    }
}

/// The shardings after as many rounds as it takes until no node waits. It is an error where a round
/// gets nowhere.
pub open spec fn inherited(
    edges: Seq<EdgeView>,
    assigned: Map<NodeIndex, Column>,
    waiting: Seq<NodeIndex>,
) -> Result<Map<NodeIndex, Column>, CommitError>
    decreases waiting.len(),
{
    if waiting.len() == 0 {
        Ok(assigned)
    } else {
        let (after, left) = round(edges, assigned, waiting);
        if left.len() >= waiting.len() {
            Err(CommitError::NoProgress)
        } else {
            inherited(edges, after, left)
        }
    }
}

/// The new nodes before `end` that have no sharding.
pub open spec fn unsharded_new(
    added: Set<NodeIndex>,
    assigned: Map<NodeIndex, Column>,
    end: int,
) -> Seq<NodeIndex>
    decreases end,
{
    if end <= 0 {
        Seq::empty()
    } else {
        let node = (end - 1) as NodeIndex;
        let before = unsharded_new(added, assigned, end - 1);
        if added.contains(node) && !assigned.contains_key(node) {
            before.push(node)
        } else {
            before
        }
    }
}

/// The first sharding is that of one of the nodes, and there is one where a node has one.
proof fn lemma_first_sharding(assigned: Map<NodeIndex, Column>, nodes: Seq<NodeIndex>)
    ensures
        first_sharding(assigned, nodes) is Some <==> exists|i: int|
            0 <= i < nodes.len() && assigned.contains_key(#[trigger] nodes[i]),
        first_sharding(assigned, nodes) matches Some(sharding) ==> exists|i: int|
            0 <= i < nodes.len() && assigned.contains_key(#[trigger] nodes[i])
                && assigned[nodes[i]] == sharding && forall|j: int|
                0 <= j < i ==> !assigned.contains_key(#[trigger] nodes[j]),
    decreases nodes.len(),
{
    if nodes.len() > 0 {
        let rest = nodes.drop_last();
        lemma_first_sharding(assigned, rest);
        assert(forall|i: int| 0 <= i < rest.len() ==> rest[i] == #[trigger] nodes[i]);
        assert(nodes[nodes.len() - 1] == nodes.last());
        if let Some(sharding) = first_sharding(assigned, rest) {
            let i = choose|i: int|
                0 <= i < rest.len() && assigned.contains_key(#[trigger] rest[i])
                    && assigned[rest[i]] == sharding && forall|j: int|
                    0 <= j < i ==> !assigned.contains_key(#[trigger] rest[j]);
            assert(assigned.contains_key(nodes[i]));
        } else {
            assert forall|i: int| 0 <= i < rest.len() implies !assigned.contains_key(
                #[trigger] nodes[i],
            ) by {
                assert(!assigned.contains_key(rest[i]));
            }
        }
    }
}

/// Finds the first of the nodes that has a sharding.
fn find_sharding(
    assigned: &HashMap<NodeIndex, Column>,
    nodes: &Vec<NodeIndex>,
) -> (sharding: Option<Column>)
    ensures
        sharding == first_sharding(assigned@, nodes@),
{
    let mut found: Option<Column> = None;
    for i in 0..nodes.len()
        invariant
            found == first_sharding(assigned@, nodes@.take(i as int)),
    {
        assert(nodes@.take(i + 1).drop_last() =~= nodes@.take(i as int));
        if found.is_none() {
            found = match assigned.get(&nodes[i]) {
                Some(sharding) => Some(*sharding),
                None => None,
            };
        }
    }
    assert(nodes@.take(nodes@.len() as int) =~= nodes@);
    found
}

/// Does one round over the nodes that wait for the sharding of a parent.
fn do_round(
    graph: &FlowGraph,
    assigned: HashMap<NodeIndex, Column>,
    waiting: &Vec<NodeIndex>,
) -> (after: (HashMap<NodeIndex, Column>, Vec<NodeIndex>))
    ensures
        (after.0@, after.1@) == round(dataflow::flow(*graph).edges, assigned@, waiting@),
        after.1@.len() <= waiting@.len(),
{
    let ghost edges = dataflow::flow(*graph).edges;
    let mut now = assigned;
    let mut left: Vec<NodeIndex> = Vec::new();
    for i in 0..waiting.len()
        invariant
            edges == dataflow::flow(*graph).edges,
            (now@, left@) == round(edges, assigned@, waiting@.take(i as int)),
            left@.len() <= i,
    {
        assert(waiting@.take(i + 1).drop_last() =~= waiting@.take(i as int));
        let node: NodeIndex = waiting[i];
        let parents = parents_of(graph, node);
        match find_sharding(&now, &parents) {
            Some(sharding) => {
                now.insert(node, sharding);
            },
            None => {
                left.push(node);
            },
        }
    }
    assert(waiting@.take(waiting@.len() as int) =~= waiting@);
    (now, left)
}

/// Gives each node that waits the sharding of a parent, in rounds.
pub fn inherit_shardings(
    graph: &FlowGraph,
    assigned: HashMap<NodeIndex, Column>,
    waiting: Vec<NodeIndex>,
) -> (result: Result<HashMap<NodeIndex, Column>, CommitError>)
    ensures
        match result {
            Ok(shardings) => inherited(dataflow::flow(*graph).edges, assigned@, waiting@) == Ok::<
                Map<NodeIndex, Column>,
                CommitError,
            >(shardings@),
            Err(error) => inherited(dataflow::flow(*graph).edges, assigned@, waiting@) == Err::<
                Map<NodeIndex, Column>,
                CommitError,
            >(error),
        },
{
    let ghost edges = dataflow::flow(*graph).edges;
    let mut now = assigned;
    let mut left = waiting;
    while left.len() > 0
        invariant
            edges == dataflow::flow(*graph).edges,
            inherited(edges, now@, left@) == inherited(edges, assigned@, waiting@),
        decreases left@.len(),
    {
        let before: usize = left.len();
        let (after, still) = do_round(graph, now, &left);
        if still.len() == before {
            return Err(CommitError::NoProgress);
        }
        now = after;
        left = still;
    }
    Ok(now)
}

/// Finds the new nodes that have no sharding.
pub fn find_unsharded_new(
    graph: &FlowGraph,
    added: &HashSet<NodeIndex>,
    assigned: &HashMap<NodeIndex, Column>,
) -> (nodes: Vec<NodeIndex>)
    ensures
        nodes@ == unsharded_new(added@, assigned@, dataflow::flow(*graph).nodes.len() as int),
{
    let count: usize = node_count(graph);
    let mut nodes: Vec<NodeIndex> = Vec::new();
    let mut node: NodeIndex = 0;
    while (node as usize) < count
        invariant
            count == dataflow::flow(*graph).nodes.len(),
            node <= count <= u32::MAX,
            nodes@ == unsharded_new(added@, assigned@, node as int),
        decreases count - node,
    {
        if added.contains(&node) && !assigned.contains_key(&node) {
            nodes.push(node);
        }
        node = node + 1;
    }
    nodes
}

/// The new nodes that have no sharding, none twice.
pub proof fn lemma_unsharded_new(added: Set<NodeIndex>, assigned: Map<NodeIndex, Column>, end: int)
    requires
        end <= u32::MAX,
    ensures
        unsharded_new(added, assigned, end).no_duplicates(),
        forall|node: NodeIndex| #[trigger]
            unsharded_new(added, assigned, end).contains(node) <==> node < end && added.contains(
                node,
            ) && !assigned.contains_key(node),
    decreases end,
{
    if end > 0 {
        lemma_unsharded_new(added, assigned, end - 1);
        let last = (end - 1) as NodeIndex;
        let before = unsharded_new(added, assigned, end - 1);
        let all = unsharded_new(added, assigned, end);
        assert(!before.contains(last));
        assert forall|node: NodeIndex| #[trigger] all.contains(node) <==> node < end
            && added.contains(node) && !assigned.contains_key(node) by {
            if before.contains(node) {
                let k = choose|k: int| 0 <= k < before.len() && before[k] == node;
                assert(all[k] == node);
            }
            if all.contains(node) && node != last {
                let k = choose|k: int| 0 <= k < all.len() && all[k] == node;
                assert(before[k] == node);
            }
            if node == last && added.contains(node) && !assigned.contains_key(node) {
                assert(all[before.len() as int] == node);
            }
        }
    }
}

/// Whether a sharding gets to a node in that many steps along edges: from a node that has one, by
/// way of nodes that wait for one.
pub open spec fn gets_to(
    edges: Seq<EdgeView>,
    sharded: Set<NodeIndex>,
    waiting: Set<NodeIndex>,
    node: NodeIndex,
    steps: nat,
) -> bool
    decreases steps,
{
    sharded.contains(node) || steps > 0 && waiting.contains(node) && exists|i: int|
        0 <= i < dataflow::parents(edges, node).len() && gets_to(
            edges,
            sharded,
            waiting,
            #[trigger] dataflow::parents(edges, node)[i],
            (steps - 1) as nat,
        )
}

/// Whether a sharding gets to a node along edges: from a node that has one, by way of nodes that
/// wait for one.
pub open spec fn reached(
    edges: Seq<EdgeView>,
    sharded: Set<NodeIndex>,
    waiting: Set<NodeIndex>,
    node: NodeIndex,
) -> bool {
    exists|steps: nat| gets_to(edges, sharded, waiting, node, steps)
}

/// Whether a node has the sharding of one of its parents.
pub open spec fn takes_after_parent(
    edges: Seq<EdgeView>,
    assigned: Map<NodeIndex, Column>,
    node: NodeIndex,
) -> bool {
    exists|i: int|
        0 <= i < dataflow::parents(edges, node).len() && assigned.contains_key(
            #[trigger] dataflow::parents(edges, node)[i],
        ) && assigned[dataflow::parents(edges, node)[i]] == assigned[node]
}

/// Nodes wait that have no sharding, none twice.
pub open spec fn can_wait(assigned: Map<NodeIndex, Column>, waiting: Seq<NodeIndex>) -> bool {
    &&& waiting.no_duplicates()
    &&& forall|i: int| 0 <= i < waiting.len() ==> !assigned.contains_key(#[trigger] waiting[i])
}

/// What a node took from a parent it still has once more nodes have shardings.
proof fn lemma_takes_after_parent(
    edges: Seq<EdgeView>,
    before: Map<NodeIndex, Column>,
    after: Map<NodeIndex, Column>,
    node: NodeIndex,
)
    requires
        before.submap_of(after),
        before.contains_key(node),
        takes_after_parent(edges, before, node),
    ensures
        takes_after_parent(edges, after, node),
{
    let parents = dataflow::parents(edges, node);
    let i = choose|i: int|
        0 <= i < parents.len() && before.contains_key(#[trigger] parents[i]) && before[parents[i]]
            == before[node];
    assert(after.contains_key(parents[i]));
    assert(after.contains_key(node));
}

/// A round leaves shardings as they are and gives some of the nodes that wait that of a parent; the
/// others still wait.
proof fn lemma_round(
    edges: Seq<EdgeView>,
    assigned: Map<NodeIndex, Column>,
    waiting: Seq<NodeIndex>,
)
    requires
        can_wait(assigned, waiting),
    ensures
        ({
            let (after, left) = round(edges, assigned, waiting);
            &&& assigned.submap_of(after)
            &&& can_wait(after, left)
            &&& left.len() <= waiting.len()
            &&& forall|node: NodeIndex| #[trigger] left.contains(node) ==> waiting.contains(node)
            &&& forall|node: NodeIndex| #[trigger]
                after.contains_key(node) <==> assigned.contains_key(node) || waiting.contains(node)
                    && !left.contains(node)
            &&& forall|node: NodeIndex| #[trigger]
                after.contains_key(node) && !assigned.contains_key(node) ==> takes_after_parent(
                    edges,
                    after,
                    node,
                )
        }),
    decreases waiting.len(),
{
    let (after, left) = round(edges, assigned, waiting);
    if waiting.len() > 0 {
        let earlier = waiting.drop_last();
        let node = waiting.last();
        let (before, held) = round(edges, assigned, earlier);
        let parents = dataflow::parents(edges, node);
        assert forall|i: int| 0 <= i < earlier.len() implies !assigned.contains_key(
            #[trigger] earlier[i],
        ) by {
            assert(earlier[i] == waiting[i]);
        }
        assert(waiting[waiting.len() - 1] == node);
        assert(!earlier.contains(node)) by {
            if earlier.contains(node) {
                let k = choose|k: int| 0 <= k < earlier.len() && earlier[k] == node;
                assert(waiting[k] == node);
            }
        }
        lemma_round(edges, assigned, earlier);
        lemma_first_sharding(before, parents);
        assert(!before.contains_key(node));
        assert(!held.contains(node));
        assert(before.submap_of(after));
        assert(assigned.submap_of(after));
        assert forall|other: NodeIndex| waiting.contains(other) == (earlier.contains(other) || other
            == node) by {
            if waiting.contains(other) && other != node {
                let k = choose|k: int| 0 <= k < waiting.len() && waiting[k] == other;
                assert(earlier[k] == other);
            }
            if earlier.contains(other) {
                let k = choose|k: int| 0 <= k < earlier.len() && earlier[k] == other;
                assert(waiting[k] == other);
            }
        }
        assert forall|other: NodeIndex| #[trigger] left.contains(other) implies held.contains(other)
            || other == node by {
            let k = choose|k: int| 0 <= k < left.len() && left[k] == other;
            if k < held.len() {
                assert(held[k] == other);
            }
        }
        assert forall|other: NodeIndex| #[trigger] held.contains(other) implies left.contains(
            other,
        ) by {
            let k = choose|k: int| 0 <= k < held.len() && held[k] == other;
            assert(left[k] == other);
        }
        if first_sharding(before, parents) is None {
            assert(left[held.len() as int] == node);
        }
        assert forall|i: int| 0 <= i < left.len() implies !after.contains_key(
            #[trigger] left[i],
        ) by {
            if i < held.len() {
                assert(left[i] == held[i]);
                assert(held.contains(held[i]));
            }
        }
        assert forall|other: NodeIndex| #[trigger]
            after.contains_key(other) && !assigned.contains_key(other) implies takes_after_parent(
            edges,
            after,
            other,
        ) by {
            if other == node {
                let i = choose|i: int|
                    0 <= i < parents.len() && before.contains_key(#[trigger] parents[i])
                        && before[parents[i]] == first_sharding(before, parents)->0;
                assert(after.contains_key(parents[i]));
            } else {
                lemma_takes_after_parent(edges, before, after, other);
            }
        }
    }
}

/// A sharding that a node has after a round has got to it.
proof fn lemma_round_sound(
    edges: Seq<EdgeView>,
    assigned: Map<NodeIndex, Column>,
    waiting: Seq<NodeIndex>,
    all: Set<NodeIndex>,
    node: NodeIndex,
)
    requires
        forall|i: int| 0 <= i < waiting.len() ==> all.contains(#[trigger] waiting[i]),
        round(edges, assigned, waiting).0.contains_key(node),
    ensures
        reached(edges, assigned.dom(), all, node),
    decreases waiting.len(),
{
    if assigned.contains_key(node) {
        assert(gets_to(edges, assigned.dom(), all, node, 0));
    } else {
        let earlier = waiting.drop_last();
        let before = round(edges, assigned, earlier).0;
        assert forall|i: int| 0 <= i < earlier.len() implies all.contains(
            #[trigger] earlier[i],
        ) by {
            assert(earlier[i] == waiting[i]);
        }
        if before.contains_key(node) {
            lemma_round_sound(edges, assigned, earlier, all, node);
        } else {
            let parents = dataflow::parents(edges, node);
            assert(waiting[waiting.len() - 1] == node);
            lemma_first_sharding(before, parents);
            let i = choose|i: int|
                0 <= i < parents.len() && before.contains_key(#[trigger] parents[i]);
            lemma_round_sound(edges, assigned, earlier, all, parents[i]);
            let steps = choose|steps: nat|
                gets_to(edges, assigned.dom(), all, parents[i], steps);
            assert(gets_to(edges, assigned.dom(), all, node, steps + 1));
        }
    }
}

/// A round that gives no node a sharding had none to give.
proof fn lemma_round_stuck(
    edges: Seq<EdgeView>,
    assigned: Map<NodeIndex, Column>,
    waiting: Seq<NodeIndex>,
)
    requires
        round(edges, assigned, waiting).1.len() >= waiting.len(),
    ensures
        round(edges, assigned, waiting).0 == assigned,
        forall|i: int|
            0 <= i < waiting.len() ==> first_sharding(
                assigned,
                dataflow::parents(edges, #[trigger] waiting[i]),
            ) is None,
    decreases waiting.len(),
{
    if waiting.len() > 0 {
        let earlier = waiting.drop_last();
        lemma_round_len(edges, assigned, earlier);
        lemma_round_stuck(edges, assigned, earlier);
        assert forall|i: int| 0 <= i < waiting.len() implies first_sharding(
            assigned,
            dataflow::parents(edges, #[trigger] waiting[i]),
        ) is None by {
            if i < earlier.len() {
                assert(earlier[i] == waiting[i]);
            }
        }
    }
}

/// No more nodes wait after a round than before.
proof fn lemma_round_len(
    edges: Seq<EdgeView>,
    assigned: Map<NodeIndex, Column>,
    waiting: Seq<NodeIndex>,
)
    ensures
        round(edges, assigned, waiting).1.len() <= waiting.len(),
    decreases waiting.len(),
{
    if waiting.len() > 0 {
        lemma_round_len(edges, assigned, waiting.drop_last());
    }
}

/// Where no node that waits has a parent with a sharding, no sharding gets to any of them.
proof fn lemma_stuck(
    edges: Seq<EdgeView>,
    assigned: Map<NodeIndex, Column>,
    waiting: Seq<NodeIndex>,
    node: NodeIndex,
    steps: nat,
)
    requires
        forall|i: int|
            0 <= i < waiting.len() ==> first_sharding(
                assigned,
                dataflow::parents(edges, #[trigger] waiting[i]),
            ) is None,
        gets_to(edges, assigned.dom(), waiting.to_set(), node, steps),
    ensures
        assigned.contains_key(node),
    decreases steps,
{
    if !assigned.contains_key(node) {
        let parents = dataflow::parents(edges, node);
        assert(waiting.contains(node));
        let k = choose|k: int| 0 <= k < waiting.len() && waiting[k] == node;
        let i = choose|i: int|
            0 <= i < parents.len() && gets_to(
                edges,
                assigned.dom(),
                waiting.to_set(),
                #[trigger] parents[i],
                (steps - 1) as nat,
            );
        lemma_stuck(edges, assigned, waiting, parents[i], (steps - 1) as nat);
        lemma_first_sharding(assigned, parents);
        assert(first_sharding(assigned, dataflow::parents(edges, waiting[k])) is None);
    }
}

/// A sharding gets to the same nodes after a round as before: whatever has a sharding after it was
/// reached, and what was reached either has a sharding or still waits.
pub proof fn lemma_reached_on(
    edges: Seq<EdgeView>,
    sharded: Set<NodeIndex>,
    waiting: Set<NodeIndex>,
    later_sharded: Set<NodeIndex>,
    later_waiting: Set<NodeIndex>,
    node: NodeIndex,
)
    requires
        forall|other: NodeIndex| #[trigger]
            later_sharded.contains(other) ==> reached(edges, sharded, waiting, other),
        later_waiting.subset_of(waiting),
        sharded.subset_of(later_sharded),
        waiting.subset_of(later_sharded.union(later_waiting)),
    ensures
        reached(edges, sharded, waiting, node) <==> reached(
            edges,
            later_sharded,
            later_waiting,
            node,
        ),
{
    if reached(edges, sharded, waiting, node) {
        let steps = choose|steps: nat| gets_to(edges, sharded, waiting, node, steps);
        lemma_gets_to_later(edges, sharded, waiting, later_sharded, later_waiting, node, steps);
        assert(gets_to(edges, later_sharded, later_waiting, node, steps));
    }
    if reached(edges, later_sharded, later_waiting, node) {
        let steps = choose|steps: nat| gets_to(edges, later_sharded, later_waiting, node, steps);
        lemma_gets_to_earlier(edges, sharded, waiting, later_sharded, later_waiting, node, steps);
    }
}

/// What a sharding gets to, it gets to from more nodes.
proof fn lemma_gets_to_later(
    edges: Seq<EdgeView>,
    sharded: Set<NodeIndex>,
    waiting: Set<NodeIndex>,
    later_sharded: Set<NodeIndex>,
    later_waiting: Set<NodeIndex>,
    node: NodeIndex,
    steps: nat,
)
    requires
        sharded.subset_of(later_sharded),
        waiting.subset_of(later_sharded.union(later_waiting)),
        gets_to(edges, sharded, waiting, node, steps),
    ensures
        gets_to(edges, later_sharded, later_waiting, node, steps),
    decreases steps,
{
    if !sharded.contains(node) {
        let parents = dataflow::parents(edges, node);
        let i = choose|i: int|
            0 <= i < parents.len() && gets_to(
                edges,
                sharded,
                waiting,
                #[trigger] parents[i],
                (steps - 1) as nat,
            );
        lemma_gets_to_later(
            edges,
            sharded,
            waiting,
            later_sharded,
            later_waiting,
            parents[i],
            (steps - 1) as nat,
        );
        assert(later_sharded.union(later_waiting).contains(node));
        assert(gets_to(edges, later_sharded, later_waiting, parents[i], (steps - 1) as nat));
    } else {
        assert(later_sharded.contains(node));
    }
}

/// What a sharding gets to from nodes that were reached was reached.
proof fn lemma_gets_to_earlier(
    edges: Seq<EdgeView>,
    sharded: Set<NodeIndex>,
    waiting: Set<NodeIndex>,
    later_sharded: Set<NodeIndex>,
    later_waiting: Set<NodeIndex>,
    node: NodeIndex,
    steps: nat,
)
    requires
        forall|other: NodeIndex| #[trigger]
            later_sharded.contains(other) ==> reached(edges, sharded, waiting, other),
        later_waiting.subset_of(waiting),
        gets_to(edges, later_sharded, later_waiting, node, steps),
    ensures
        reached(edges, sharded, waiting, node),
    decreases steps,
{
    if !later_sharded.contains(node) {
        let parents = dataflow::parents(edges, node);
        let i = choose|i: int|
            0 <= i < parents.len() && gets_to(
                edges,
                later_sharded,
                later_waiting,
                #[trigger] parents[i],
                (steps - 1) as nat,
            );
        lemma_gets_to_earlier(
            edges,
            sharded,
            waiting,
            later_sharded,
            later_waiting,
            parents[i],
            (steps - 1) as nat,
        );
        let before = choose|before: nat| gets_to(edges, sharded, waiting, parents[i], before);
        assert(waiting.contains(node));
        assert(gets_to(edges, sharded, waiting, node, before + 1));
    }
}

/// Nodes that wait all take over the sharding of a parent exactly if a sharding gets to each of
/// them along edges, by way of nodes that wait. Nodes that have a sharding keep it.
pub proof fn law_inherited(
    edges: Seq<EdgeView>,
    assigned: Map<NodeIndex, Column>,
    waiting: Seq<NodeIndex>,
)
    requires
        can_wait(assigned, waiting),
    ensures
        match inherited(edges, assigned, waiting) {
            Ok(after) => {
                &&& assigned.submap_of(after)
                &&& after.dom() == assigned.dom().union(waiting.to_set())
                &&& forall|i: int|
                    #![trigger waiting[i]]
                    0 <= i < waiting.len() ==> takes_after_parent(edges, after, waiting[i])
                        && reached(edges, assigned.dom(), waiting.to_set(), waiting[i])
            },
            Err(error) => {
                &&& error == CommitError::NoProgress
                &&& exists|i: int|
                    0 <= i < waiting.len() && !reached(
                        edges,
                        assigned.dom(),
                        waiting.to_set(),
                        #[trigger] waiting[i],
                    )
            },
        },
    decreases waiting.len(),
{
    if waiting.len() == 0 {
        assert(assigned.dom() =~= assigned.dom().union(waiting.to_set()));
    } else {
        let (after, left) = round(edges, assigned, waiting);
        lemma_round(edges, assigned, waiting);
        if left.len() >= waiting.len() {
            lemma_round_stuck(edges, assigned, waiting);
            if reached(edges, assigned.dom(), waiting.to_set(), waiting[0]) {
                let steps = choose|steps: nat|
                    gets_to(edges, assigned.dom(), waiting.to_set(), waiting[0], steps);
                lemma_stuck(edges, assigned, waiting, waiting[0], steps);
            }
        } else {
            law_inherited(edges, after, left);
            assert forall|node: NodeIndex| #[trigger]
                after.dom().contains(node) implies reached(
                edges,
                assigned.dom(),
                waiting.to_set(),
                node,
            ) by {
                lemma_round_sound(edges, assigned, waiting, waiting.to_set(), node);
            }
            assert forall|node: NodeIndex| reached(
                edges,
                assigned.dom(),
                waiting.to_set(),
                node,
            ) <==> #[trigger] reached(edges, after.dom(), left.to_set(), node) by {
                assert forall|other: NodeIndex| left.to_set().contains(other) implies
                    waiting.to_set().contains(other) by {
                    assert(left.contains(other));
                }
                assert forall|other: NodeIndex| waiting.to_set().contains(other) implies
                    after.dom().union(left.to_set()).contains(other) by {
                    assert(waiting.contains(other));
                    assert(left.contains(other) || after.contains_key(other));
                }
                lemma_reached_on(
                    edges,
                    assigned.dom(),
                    waiting.to_set(),
                    after.dom(),
                    left.to_set(),
                    node,
                );
            }
            match inherited(edges, after, left) {
                Ok(last) => {
                    assert(last.dom() =~= assigned.dom().union(waiting.to_set())) by {
                        assert forall|node: NodeIndex| last.dom().contains(node)
                            == assigned.dom().union(waiting.to_set()).contains(node) by {
                            assert(left.to_set().contains(node) == left.contains(node));
                            assert(waiting.to_set().contains(node) == waiting.contains(node));
                            assert(after.contains_key(node) <==> assigned.contains_key(node)
                                || waiting.contains(node) && !left.contains(node));
                        }
                    }
                    assert(assigned.submap_of(last)) by {
                        assert forall|node: NodeIndex| #[trigger]
                            assigned.dom().contains(node) implies last.dom().contains(node)
                            && last[node] == assigned[node] by {
                            assert(after.contains_key(node));
                            assert(assigned.dom().union(waiting.to_set()).contains(node));
                            assert(last.dom().contains(node));
                        }
                    }
                    assert forall|i: int|
                        #![trigger waiting[i]]
                        0 <= i < waiting.len() implies takes_after_parent(edges, last, waiting[i])
                        && reached(edges, assigned.dom(), waiting.to_set(), waiting[i]) by {
                        let node = waiting[i];
                        assert(waiting.contains(node));
                        if left.contains(node) {
                            let k = choose|k: int| 0 <= k < left.len() && left[k] == node;
                            assert(takes_after_parent(edges, last, left[k]));
                            assert(reached(edges, after.dom(), left.to_set(), left[k]));
                        } else {
                            assert(after.contains_key(node) && !assigned.contains_key(node));
                            lemma_takes_after_parent(edges, after, last, node);
                            assert(after.contains_key(node));
                            assert(assigned.dom().union(waiting.to_set()).contains(node));
                            assert(last.dom().contains(node));
                        }
                    }
                },
                Err(_) => {
                    let i = choose|i: int|
                        0 <= i < left.len() && !reached(
                            edges,
                            after.dom(),
                            left.to_set(),
                            #[trigger] left[i],
                        );
                    assert(left.contains(left[i]));
                    let k = choose|k: int| 0 <= k < waiting.len() && waiting[k] == left[i];
                    assert(!reached(edges, assigned.dom(), waiting.to_set(), waiting[k]));
                },
            }
        }
    }
}

/// The new nodes that have no sharding are in ascending order.
pub proof fn lemma_unsharded_ascend(
    added: Set<NodeIndex>,
    assigned: Map<NodeIndex, Column>,
    end: int,
)
    requires
        end <= u32::MAX,
    ensures
        forall|i: int, j: int|
            0 <= i < j < unsharded_new(added, assigned, end).len() ==> (#[trigger] unsharded_new(
                added,
                assigned,
                end,
            )[i]) < (#[trigger] unsharded_new(added, assigned, end)[j]),
    decreases end,
{
    if end > 0 {
        let before = unsharded_new(added, assigned, end - 1);
        let all = unsharded_new(added, assigned, end);
        lemma_unsharded_ascend(added, assigned, end - 1);
        lemma_unsharded_new(added, assigned, end - 1);
        assert forall|i: int, j: int| 0 <= i < j < all.len() implies (#[trigger] all[i]) < (
        #[trigger] all[j]) by {
            assert(all[i] == before[i]);
            assert(before.contains(before[i]));
            if j < before.len() {
                assert(all[j] == before[j]);
            }
        }
    }
}

/// The first sharding depends only on the shardings of the nodes.
proof fn lemma_same_first_sharding(
    left: Map<NodeIndex, Column>,
    right: Map<NodeIndex, Column>,
    nodes: Seq<NodeIndex>,
)
    requires
        forall|i: int|
            #![trigger nodes[i]]
            0 <= i < nodes.len() ==> left.contains_key(nodes[i]) == right.contains_key(nodes[i])
                && (left.contains_key(nodes[i]) ==> left[nodes[i]] == right[nodes[i]]),
    ensures
        first_sharding(left, nodes) == first_sharding(right, nodes),
    decreases nodes.len(),
{
    if nodes.len() > 0 {
        let rest = nodes.drop_last();
        assert forall|i: int|
            #![trigger rest[i]]
            0 <= i < rest.len() implies left.contains_key(rest[i]) == right.contains_key(rest[i])
            && (left.contains_key(rest[i]) ==> left[rest[i]] == right[rest[i]]) by {
            assert(rest[i] == nodes[i]);
        }
        lemma_same_first_sharding(left, right, rest);
        assert(nodes[nodes.len() - 1] == nodes.last());
    }
}

/// Whether what each of the nodes that wait could take over is there before the node: a parent has
/// a sharding or a smaller index.
pub open spec fn parents_precede(
    edges: Seq<EdgeView>,
    assigned: Map<NodeIndex, Column>,
    waiting: Seq<NodeIndex>,
) -> bool {
    &&& forall|i: int, j: int|
        0 <= i < j < waiting.len() ==> (#[trigger] waiting[i]) < (#[trigger] waiting[j])
    &&& forall|i: int, p: int|
        #![trigger dataflow::parents(edges, waiting[i])[p]]
        0 <= i < waiting.len() && 0 <= p < dataflow::parents(edges, waiting[i]).len()
            ==> assigned.contains_key(dataflow::parents(edges, waiting[i])[p]) || dataflow::parents(
            edges,
            waiting[i],
        )[p] < waiting[i]
}

/// Where parents come first, a round gives each node that waits what it could take over afterwards.
proof fn lemma_round_settles(
    edges: Seq<EdgeView>,
    assigned: Map<NodeIndex, Column>,
    waiting: Seq<NodeIndex>,
)
    requires
        can_wait(assigned, waiting),
        parents_precede(edges, assigned, waiting),
    ensures
        ({
            let (after, left) = round(edges, assigned, waiting);
            forall|i: int|
                #![trigger waiting[i]]
                0 <= i < waiting.len() ==> match first_sharding(
                    after,
                    dataflow::parents(edges, waiting[i]),
                ) {
                    Some(sharding) => after.contains_key(waiting[i]) && after[waiting[i]]
                        == sharding,
                    None => left.contains(waiting[i]),
                }
        }),
    decreases waiting.len(),
{
    if waiting.len() > 0 {
        let earlier = waiting.drop_last();
        let node = waiting.last();
        let (before, held) = round(edges, assigned, earlier);
        let (after, left) = round(edges, assigned, waiting);
        assert forall|i: int| 0 <= i < earlier.len() implies #[trigger] earlier[i]
            == waiting[i] by {}
        assert(waiting[waiting.len() - 1] == node);
        assert(can_wait(assigned, earlier));
        assert(parents_precede(edges, assigned, earlier)) by {
            assert forall|i: int, p: int|
                #![trigger dataflow::parents(edges, earlier[i])[p]]
                0 <= i < earlier.len() && 0 <= p < dataflow::parents(
                    edges,
                    earlier[i],
                ).len() implies assigned.contains_key(dataflow::parents(edges, earlier[i])[p])
                || dataflow::parents(edges, earlier[i])[p] < earlier[i] by {
                assert(dataflow::parents(edges, waiting[i])[p] == dataflow::parents(
                    edges,
                    earlier[i],
                )[p]);
            }
        }
        lemma_round_settles(edges, assigned, earlier);
        lemma_round(edges, assigned, earlier);
        assert(!assigned.contains_key(node));
        assert forall|i: int|
            #![trigger waiting[i]]
            0 <= i < waiting.len() implies match first_sharding(
            after,
            dataflow::parents(edges, waiting[i]),
        ) {
            Some(sharding) => after.contains_key(waiting[i]) && after[waiting[i]] == sharding,
            None => left.contains(waiting[i]),
        } by {
            let parents = dataflow::parents(edges, waiting[i]);
            assert forall|p: int|
                #![trigger parents[p]]
                0 <= p < parents.len() implies before.contains_key(parents[p])
                == after.contains_key(parents[p]) && (before.contains_key(parents[p])
                ==> before[parents[p]] == after[parents[p]]) by {
                assert(dataflow::parents(edges, waiting[i])[p] == parents[p]);
                if i < earlier.len() {
                    assert(waiting[i] < waiting[waiting.len() - 1]);
                }
                assert(parents[p] != node);
            }
            lemma_same_first_sharding(before, after, parents);
            if i < earlier.len() {
                assert(earlier[i] == waiting[i]);
                if first_sharding(after, parents) is None {
                    let k = choose|k: int| 0 <= k < held.len() && held[k] == waiting[i];
                    assert(left[k] == waiting[i]);
                }
            } else if first_sharding(after, parents) is None {
                assert(left[held.len() as int] == node);
            }
        }
    }
}

/// A round over nodes of which none has a parent with a sharding leaves them all waiting.
proof fn lemma_round_idle(
    edges: Seq<EdgeView>,
    assigned: Map<NodeIndex, Column>,
    waiting: Seq<NodeIndex>,
)
    requires
        forall|i: int|
            #![trigger waiting[i]]
            0 <= i < waiting.len() ==> first_sharding(
                assigned,
                dataflow::parents(edges, waiting[i]),
            ) is None,
    ensures
        round(edges, assigned, waiting).0 == assigned,
        round(edges, assigned, waiting).1.len() == waiting.len(),
    decreases waiting.len(),
{
    if waiting.len() > 0 {
        let earlier = waiting.drop_last();
        assert forall|i: int|
            #![trigger earlier[i]]
            0 <= i < earlier.len() implies first_sharding(
            assigned,
            dataflow::parents(edges, earlier[i]),
        ) is None by {
            assert(earlier[i] == waiting[i]);
        }
        lemma_round_idle(edges, assigned, earlier);
        assert(waiting[waiting.len() - 1] == waiting.last());
    }
}

/// The first sharding among the parents is that of the newest edge whose source has one.
proof fn lemma_newest_sharding(
    edges: Seq<EdgeView>,
    assigned: Map<NodeIndex, Column>,
    node: NodeIndex,
) -> (e: int)
    requires
        first_sharding(assigned, dataflow::parents(edges, node)) is Some,
    ensures
        0 <= e < edges.len(),
        edges[e].target == node,
        assigned.contains_key(edges[e].source),
        first_sharding(assigned, dataflow::parents(edges, node)) == Some(
            assigned[edges[e].source],
        ),
        forall|later: int|
            e < later < edges.len() && (#[trigger] edges[later]).target == node
                ==> !assigned.contains_key(edges[later].source),
    decreases edges.len(),
{
    let parents = dataflow::parents(edges, node);
    let older = edges.drop_last();
    let rest = dataflow::parents(older, node);
    let last = edges.last();
    if last.target == node {
        assert(parents == seq![last.source] + rest);
        lemma_first_sharding_front(assigned, last.source, rest);
    }
    if last.target == node && assigned.contains_key(last.source) {
        edges.len() - 1
    } else {
        let e = lemma_newest_sharding(older, assigned, node);
        assert(older[e] == edges[e]);
        assert forall|later: int|
            e < later < edges.len() && (#[trigger] edges[later]).target
                == node implies !assigned.contains_key(edges[later].source) by {
            if later < older.len() {
                assert(older[later] == edges[later]);
            }
        }
        e
    }
}

/// The first sharding of nodes with one more in front.
proof fn lemma_first_sharding_front(
    assigned: Map<NodeIndex, Column>,
    front: NodeIndex,
    rest: Seq<NodeIndex>,
)
    ensures
        first_sharding(assigned, seq![front] + rest) == if assigned.contains_key(front) {
            Some(assigned[front])
        } else {
            first_sharding(assigned, rest)
        },
    decreases rest.len(),
{
    let all = seq![front] + rest;
    if rest.len() == 0 {
        assert(all.drop_last() =~= Seq::<NodeIndex>::empty());
        assert(all.last() == front);
        assert(first_sharding(assigned, all.drop_last()) is None);
    } else {
        lemma_first_sharding_front(assigned, front, rest.drop_last());
        assert(all.drop_last() =~= seq![front] + rest.drop_last());
        assert(all.last() == rest.last());
    }
}

/// Where every parent of a node that waits has a sharding or a smaller index, the node takes over
/// the sharding of the source of the newest edge to it whose source has one in the end.
pub proof fn lemma_takes_after_newest(
    edges: Seq<EdgeView>,
    assigned: Map<NodeIndex, Column>,
    waiting: Seq<NodeIndex>,
    i: int,
)
    requires
        can_wait(assigned, waiting),
        forall|i: int, j: int|
            0 <= i < j < waiting.len() ==> (#[trigger] waiting[i]) < (#[trigger] waiting[j]),
        forall|e: int, i: int|
            0 <= e < edges.len() && 0 <= i < waiting.len() && (#[trigger] edges[e]).target == (
            #[trigger] waiting[i]) ==> assigned.contains_key(edges[e].source) || edges[e].source
                < waiting[i],
        0 <= i < waiting.len(),
    ensures
        inherited(edges, assigned, waiting) matches Ok(after) ==> exists|e: int|
            #![trigger edges[e]]
            {
                &&& 0 <= e < edges.len()
                &&& edges[e].target == waiting[i]
                &&& after.contains_key(edges[e].source)
                &&& after[waiting[i]] == after[edges[e].source]
                &&& forall|later: int|
                    e < later < edges.len() && (#[trigger] edges[later]).target == waiting[i]
                        ==> !after.contains_key(edges[later].source)
            },
{
    let (after, left) = round(edges, assigned, waiting);
    assert(parents_precede(edges, assigned, waiting)) by {
        assert forall|i: int, p: int|
            #![trigger dataflow::parents(edges, waiting[i])[p]]
            0 <= i < waiting.len() && 0 <= p < dataflow::parents(
                edges,
                waiting[i],
            ).len() implies assigned.contains_key(dataflow::parents(edges, waiting[i])[p])
            || dataflow::parents(edges, waiting[i])[p] < waiting[i] by {
            ancestry::lemma_parents(edges, waiting[i]);
            let parent = dataflow::parents(edges, waiting[i])[p];
            assert(ancestry::joined(edges, parent, waiting[i]));
            let e = choose|e: int|
                0 <= e < edges.len() && (#[trigger] edges[e]).source == parent && edges[e].target
                    == waiting[i];
            assert(edges[e].target == waiting[i]);
        }
    }
    lemma_round_settles(edges, assigned, waiting);
    lemma_round(edges, assigned, waiting);
    if left.len() > 0 {
        assert forall|k: int|
            #![trigger left[k]]
            0 <= k < left.len() implies first_sharding(
            after,
            dataflow::parents(edges, left[k]),
        ) is None by {
            assert(left.contains(left[k]));
            let j = choose|j: int| 0 <= j < waiting.len() && waiting[j] == left[k];
            assert(!after.contains_key(left[k]));
            assert(waiting[j] == left[k]);
        }
        lemma_round_idle(edges, after, left);
        reveal_with_fuel(inherited, 2);
        assert(inherited(edges, assigned, waiting) is Err);
    } else {
        assert(waiting[i] == waiting[i]);
        assert(first_sharding(after, dataflow::parents(edges, waiting[i])) is Some);
        let e = lemma_newest_sharding(edges, after, waiting[i]);
        reveal_with_fuel(inherited, 2);
        assert(inherited(edges, assigned, waiting) == Ok::<
            Map<NodeIndex, Column>,
            CommitError,
        >(after));
        assert(edges[e].target == waiting[i]);
    }
}

} // verus!
