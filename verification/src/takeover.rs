//! What a mirror takes over from the operator that it mirrors.

use vstd::prelude::*;

use crate::assign;
use crate::assign::Requirement;
use crate::dataflow;
use crate::dataflow::{EdgeView, Flow};
use crate::reshard;
use crate::reshard::Mirror;
use crate::sharding::{Column, NodeIndex, Sharding};

verus! {

/// The edges without the newest `count` of those that demand a sharding of a node.
pub open spec fn without_newest(
    edges: Seq<EdgeView>,
    node: NodeIndex,
    want: Column,
    count: nat,
) -> Seq<EdgeView>
    decreases edges.len(),
{
    if edges.len() == 0 || count == 0 {
        edges
    } else if reshard::demands(edges.last(), node, want) {
        without_newest(edges.drop_last(), node, want, (count - 1) as nat)
    } else {
        without_newest(edges.drop_last(), node, want, count).push(edges.last())
    }
}

/// Of the edges that are left once some of the newest are taken, one is the next to take, and
/// taking it leaves the edges without one more.
pub proof fn lemma_take_next(
    edges: Seq<EdgeView>,
    node: NodeIndex,
    mirror: NodeIndex,
    want: Column,
    count: nat,
) -> (place: int)
    requires
        count < reshard::moved(edges, node, mirror, want).len(),
    ensures
        ({
            let left = without_newest(edges, node, want, count);
            let next = reshard::moved(edges, node, mirror, want)[count as int];
            &&& 0 <= place < left.len()
            &&& left[place] == EdgeView { source: node, target: next.target, weight: next.weight }
            &&& left.remove(place) == without_newest(edges, node, want, count + 1)
            &&& reshard::demands(left[place], node, want)
            &&& forall|i: int|
                place < i < left.len() ==> !reshard::demands(#[trigger] left[i], node, want)
        }),
    decreases edges.len(),
{
    let older = edges.drop_last();
    let left = without_newest(edges, node, want, count);
    if reshard::demands(edges.last(), node, want) {
        if count == 0 {
            assert(edges.remove(edges.len() - 1) =~= older);
            edges.len() - 1
        } else {
            lemma_take_next(older, node, mirror, want, (count - 1) as nat)
        }
    } else {
        let place = lemma_take_next(older, node, mirror, want, count);
        let older_left = without_newest(older, node, want, count);
        assert(left =~= older_left.push(edges.last()));
        assert(left.remove(place) =~= older_left.remove(place).push(edges.last()));
        place
    }
}

/// What is left are edges that were there.
proof fn lemma_without_newest_within(
    edges: Seq<EdgeView>,
    node: NodeIndex,
    want: Column,
    count: nat,
)
    ensures
        forall|i: int|
            0 <= i < without_newest(edges, node, want, count).len() ==> edges.contains(
                #[trigger] without_newest(edges, node, want, count)[i],
            ),
    decreases edges.len(),
{
    let left = without_newest(edges, node, want, count);
    if edges.len() > 0 && count > 0 {
        let older = edges.drop_last();
        lemma_without_newest_within(older, node, want, count);
        lemma_without_newest_within(older, node, want, (count - 1) as nat);
        assert forall|i: int| 0 <= i < left.len() implies edges.contains(#[trigger] left[i]) by {
            let older_left = if reshard::demands(edges.last(), node, want) {
                without_newest(older, node, want, (count - 1) as nat)
            } else {
                without_newest(older, node, want, count)
            };
            if i < older_left.len() {
                assert(older.contains(older_left[i]));
                assert(older_left[i] == left[i]);
                let j = choose|j: int| 0 <= j < older.len() && older[j] == left[i];
                assert(edges[j] == left[i]);
            } else {
                assert(edges[edges.len() - 1] == left[i]);
            }
        }
    } else {
        assert forall|i: int| 0 <= i < left.len() implies edges.contains(#[trigger] left[i]) by {
            assert(edges[i] == left[i]);
        }
    }
}

/// Edges that are moved leave the mirror and reach a node that an edge reached before.
pub proof fn lemma_moved(edges: Seq<EdgeView>, node: NodeIndex, mirror: NodeIndex, want: Column)
    ensures
        forall|i: int|
            0 <= i < reshard::moved(edges, node, mirror, want).len() ==> {
                let edge = #[trigger] reshard::moved(edges, node, mirror, want)[i];
                &&& edge.source == mirror
                &&& edge.weight == Sharding::By(want.0, want.1)
                &&& edges.contains(
                    EdgeView { source: node, target: edge.target, weight: edge.weight },
                )
            },
    decreases edges.len(),
{
    if edges.len() > 0 {
        let older = edges.drop_last();
        let moving = reshard::moved(edges, node, mirror, want);
        let rest = reshard::moved(older, node, mirror, want);
        lemma_moved(older, node, mirror, want);
        assert forall|i: int| 0 <= i < moving.len() implies {
            let edge = #[trigger] moving[i];
            &&& edge.source == mirror
            &&& edge.weight == Sharding::By(want.0, want.1)
            &&& edges.contains(
                EdgeView { source: node, target: edge.target, weight: edge.weight },
            )
        } by {
            let was = EdgeView {
                source: node,
                target: moving[i].target,
                weight: moving[i].weight,
            };
            if reshard::demands(edges.last(), node, want) && i == 0 {
                assert(edges[edges.len() - 1] == was);
            } else {
                let k = if reshard::demands(edges.last(), node, want) {
                    i - 1
                } else {
                    i
                };
                assert(moving[i] == rest[k]);
                assert(older.contains(was));
                let j = choose|j: int| 0 <= j < older.len() && older[j] == was;
                assert(edges[j] == was);
            }
        }
    }
}

/// Once all edges that demand a sharding are taken, those are left that do not.
pub proof fn lemma_without_all(
    edges: Seq<EdgeView>,
    node: NodeIndex,
    mirror: NodeIndex,
    want: Column,
)
    ensures
        without_newest(edges, node, want, reshard::moved(edges, node, mirror, want).len())
            == edges.filter(|edge: EdgeView| !reshard::demands(edge, node, want)),
        reshard::moved(edges, node, mirror, want).len() + edges.filter(
            |edge: EdgeView| !reshard::demands(edge, node, want),
        ).len() == edges.len(),
    decreases edges.len(),
{
    reveal(Seq::filter);
    if edges.len() > 0 {
        let older = edges.drop_last();
        lemma_without_all(older, node, mirror, want);
        let moving = reshard::moved(older, node, mirror, want);
        if !reshard::demands(edges.last(), node, want) && moving.len() == 0 {
            assert(edges =~= older.push(edges.last()));
        }
    }
}

/// Of edges that each join two nodes once, what is left joins no two nodes twice.
proof fn lemma_without_newest_single(
    edges: Seq<EdgeView>,
    node: NodeIndex,
    want: Column,
    count: nat,
)
    requires
        dataflow::single(edges),
    ensures
        dataflow::single(without_newest(edges, node, want, count)),
    decreases edges.len(),
{
    let left = without_newest(edges, node, want, count);
    if edges.len() > 0 && count > 0 {
        let older = edges.drop_last();
        assert(dataflow::single(older)) by {
            assert forall|i: int, j: int| 0 <= i < j < older.len() implies !dataflow::joins_same(
                #[trigger] older[i],
                #[trigger] older[j],
            ) by {
                assert(!dataflow::joins_same(edges[i], edges[j]));
            }
        }
        if reshard::demands(edges.last(), node, want) {
            lemma_without_newest_single(older, node, want, (count - 1) as nat);
        } else {
            lemma_without_newest_single(older, node, want, count);
            lemma_without_newest_within(older, node, want, count);
            let older_left = without_newest(older, node, want, count);
            assert forall|i: int, j: int| 0 <= i < j < left.len() implies !dataflow::joins_same(
                #[trigger] left[i],
                #[trigger] left[j],
            ) by {
                assert(left[i] == older_left[i]);
                if j < older_left.len() {
                    assert(left[j] == older_left[j]);
                } else {
                    assert(older.contains(older_left[i]));
                    let k = choose|k: int| 0 <= k < older.len() && older[k] == older_left[i];
                    assert(edges[k] == left[i]);
                    assert(!dataflow::joins_same(edges[k], edges[edges.len() - 1]));
                }
            }
        }
    }
}

/// Edges that are moved join no two nodes twice.
proof fn lemma_moved_single(edges: Seq<EdgeView>, node: NodeIndex, mirror: NodeIndex, want: Column)
    requires
        dataflow::single(edges),
    ensures
        dataflow::single(reshard::moved(edges, node, mirror, want)),
    decreases edges.len(),
{
    if edges.len() > 0 {
        let older = edges.drop_last();
        let moving = reshard::moved(edges, node, mirror, want);
        let rest = reshard::moved(older, node, mirror, want);
        assert(dataflow::single(older)) by {
            assert forall|i: int, j: int| 0 <= i < j < older.len() implies !dataflow::joins_same(
                #[trigger] older[i],
                #[trigger] older[j],
            ) by {
                assert(!dataflow::joins_same(edges[i], edges[j]));
            }
        }
        lemma_moved_single(older, node, mirror, want);
        lemma_moved(older, node, mirror, want);
        if reshard::demands(edges.last(), node, want) {
            assert forall|i: int, j: int| 0 <= i < j < moving.len() implies !dataflow::joins_same(
                #[trigger] moving[i],
                #[trigger] moving[j],
            ) by {
                assert(moving[j] == rest[j - 1]);
                if i > 0 {
                    assert(moving[i] == rest[i - 1]);
                } else {
                    let was = EdgeView {
                        source: node,
                        target: rest[j - 1].target,
                        weight: rest[j - 1].weight,
                    };
                    assert(older.contains(was));
                    let k = choose|k: int| 0 <= k < older.len() && older[k] == was;
                    assert(edges[k] == was);
                    assert(!dataflow::joins_same(edges[k], edges[edges.len() - 1]));
                }
            }
        }
    }
}

/// Whether a mirror takes an edge over.
pub open spec fn demanded(mirrors: Seq<Mirror>, edge: EdgeView) -> bool {
    exists|i: int|
        0 <= i < mirrors.len() && reshard::demands(
            edge,
            (#[trigger] mirrors[i]).node,
            mirrors[i].want,
        )
}

/// The edges that mirrors take over, each mirror followed by the edge that feeds it. The first
/// mirror has the index `first`.
pub open spec fn taken_over(edges: Seq<EdgeView>, mirrors: Seq<Mirror>, first: nat) -> Seq<EdgeView>
    decreases mirrors.len(),
{
    if mirrors.len() == 0 {
        Seq::empty()
    } else {
        let Mirror { node, want } = mirrors.last();
        let at = (first + mirrors.len() - 1) as NodeIndex;
        taken_over(edges, mirrors.drop_last(), first) + reshard::moved(edges, node, at, want).push(
            reshard::feed(node, at, want),
        )
    }
}

/// The edges once mirrors have taken over what they take over.
pub open spec fn shared_out(
    edges: Seq<EdgeView>,
    mirrors: Seq<Mirror>,
    first: nat,
) -> Seq<EdgeView> {
    edges.filter(|edge: EdgeView| !demanded(mirrors, edge)) + taken_over(edges, mirrors, first)
}

/// What moves out of edges and newer ones are those that move out of the newer and then those that
/// move out of the others.
proof fn lemma_moved_append(
    older: Seq<EdgeView>,
    newer: Seq<EdgeView>,
    node: NodeIndex,
    at: NodeIndex,
    want: Column,
)
    ensures
        reshard::moved(older + newer, node, at, want) == reshard::moved(newer, node, at, want)
            + reshard::moved(older, node, at, want),
    decreases newer.len(),
{
    let all = older + newer;
    if newer.len() == 0 {
        assert(all =~= older);
        assert(reshard::moved(all, node, at, want) =~= reshard::moved(newer, node, at, want)
            + reshard::moved(older, node, at, want));
    } else {
        assert(all.drop_last() =~= older + newer.drop_last());
        assert(all.last() == newer.last());
        lemma_moved_append(older, newer.drop_last(), node, at, want);
        assert(reshard::moved(all, node, at, want) =~= reshard::moved(newer, node, at, want)
            + reshard::moved(older, node, at, want));
    }
}

/// Edges move as they do without edges that do not.
proof fn lemma_moved_filter(
    edges: Seq<EdgeView>,
    keep: spec_fn(EdgeView) -> bool,
    node: NodeIndex,
    at: NodeIndex,
    want: Column,
)
    requires
        forall|edge: EdgeView| #[trigger] reshard::demands(edge, node, want) ==> keep(edge),
    ensures
        reshard::moved(edges.filter(keep), node, at, want) == reshard::moved(edges, node, at, want),
    decreases edges.len(),
{
    reveal(Seq::filter);
    if edges.len() > 0 {
        let older = edges.drop_last();
        let edge = edges.last();
        lemma_moved_filter(older, keep, node, at, want);
        if keep(edge) {
            assert(edges.filter(keep) =~= older.filter(keep).push(edge));
            assert(edges.filter(keep).drop_last() =~= older.filter(keep));
        } else {
            assert(!reshard::demands(edge, node, want));
            assert(edges.filter(keep) =~= older.filter(keep));
        }
    } else {
        assert(edges.filter(keep) =~= edges);
    }
}

/// Nothing moves out of edges of which none demands the sharding, and all of them stay.
proof fn lemma_none_moved(edges: Seq<EdgeView>, node: NodeIndex, at: NodeIndex, want: Column)
    requires
        forall|i: int| 0 <= i < edges.len() ==> !reshard::demands(#[trigger] edges[i], node, want),
    ensures
        reshard::moved(edges, node, at, want) == Seq::<EdgeView>::empty(),
        edges.filter(|edge: EdgeView| !reshard::demands(edge, node, want)) == edges,
    decreases edges.len(),
{
    reveal(Seq::filter);
    let stay = |edge: EdgeView| !reshard::demands(edge, node, want);
    if edges.len() > 0 {
        let older = edges.drop_last();
        assert forall|i: int| 0 <= i < older.len() implies !reshard::demands(
            #[trigger] older[i],
            node,
            want,
        ) by {
            assert(older[i] == edges[i]);
        }
        lemma_none_moved(older, node, at, want);
        assert(!reshard::demands(edges[edges.len() - 1], node, want));
        assert(edges.filter(stay) =~= older.push(edges.last()));
        assert(older.push(edges.last()) =~= edges);
    } else {
        assert(edges.filter(stay) =~= edges);
    }
}

/// Keeping in two steps what passes both.
proof fn lemma_filter_twice(
    edges: Seq<EdgeView>,
    first: spec_fn(EdgeView) -> bool,
    second: spec_fn(EdgeView) -> bool,
    both: spec_fn(EdgeView) -> bool,
)
    requires
        forall|edge: EdgeView| #[trigger] both(edge) == (first(edge) && second(edge)),
    ensures
        edges.filter(first).filter(second) == edges.filter(both),
    decreases edges.len(),
{
    reveal(Seq::filter);
    if edges.len() > 0 {
        let older = edges.drop_last();
        let edge = edges.last();
        lemma_filter_twice(older, first, second, both);
        assert(both(edge) == (first(edge) && second(edge)));
        if first(edge) {
            assert(edges.filter(first) =~= older.filter(first).push(edge));
            assert(edges.filter(first).drop_last() =~= older.filter(first));
        } else {
            assert(edges.filter(first) =~= older.filter(first));
        }
    } else {
        assert(edges.filter(first) =~= edges);
        assert(edges.filter(first).filter(second) =~= edges.filter(both));
    }
}

/// What mirrors take over, and what feeds them, no other mirror takes over.
proof fn lemma_taken_over(
    edges: Seq<EdgeView>,
    mirrors: Seq<Mirror>,
    first: nat,
    other: Mirror,
)
    requires
        first + mirrors.len() <= u32::MAX,
        other.node < first,
        !mirrors.contains(other),
    ensures
        forall|i: int|
            0 <= i < taken_over(edges, mirrors, first).len() ==> !reshard::demands(
                #[trigger] taken_over(edges, mirrors, first)[i],
                other.node,
                other.want,
            ),
    decreases mirrors.len(),
{
    if mirrors.len() > 0 {
        let earlier = mirrors.drop_last();
        let Mirror { node, want } = mirrors.last();
        let at = (first + mirrors.len() - 1) as NodeIndex;
        let before = taken_over(edges, earlier, first);
        let moving = reshard::moved(edges, node, at, want);
        let all = taken_over(edges, mirrors, first);
        assert(!earlier.contains(other)) by {
            if earlier.contains(other) {
                let k = choose|k: int| 0 <= k < earlier.len() && earlier[k] == other;
                assert(mirrors[k] == other);
            }
        }
        assert(mirrors[mirrors.len() - 1] == mirrors.last());
        lemma_taken_over(edges, earlier, first, other);
        lemma_moved(edges, node, at, want);
        assert forall|i: int| 0 <= i < all.len() implies !reshard::demands(
            #[trigger] all[i],
            other.node,
            other.want,
        ) by {
            if i < before.len() {
                assert(all[i] == before[i]);
            } else if i < before.len() + moving.len() {
                assert(all[i] == moving[i - before.len()]);
            } else {
                assert(all[i] == reshard::feed(node, at, want));
            }
        }
    }
}

/// In a graph with mirrors each mirror feeds exactly what demanded its sharding of the node that it
/// mirrors, and the node feeds the mirror. All other edges stay.
#[verifier::rlimit(60)]
pub proof fn lemma_mirrors_take_over(flow: Flow, mirrors: Seq<Mirror>)
    requires
        flow.nodes.len() + mirrors.len() <= u32::MAX,
        forall|i: int|
            0 <= i < mirrors.len() ==> (#[trigger] mirrors[i]).node < flow.nodes.len(),
        mirrors.no_duplicates(),
    ensures
        flow.with_mirrors(mirrors).edges == shared_out(flow.edges, mirrors, flow.nodes.len()),
    decreases mirrors.len(),
{
    let edges = flow.edges;
    let first = flow.nodes.len();
    let stay = |edge: EdgeView| !demanded(mirrors, edge);
    if mirrors.len() == 0 {
        assert forall|i: int| 0 <= i < edges.len() implies stay(#[trigger] edges[i]) by {}
        lemma_all_stay(edges, stay);
        assert(shared_out(edges, mirrors, first) =~= edges);
    } else {
        let earlier = mirrors.drop_last();
        let mirror = mirrors.last();
        let Mirror { node, want } = mirror;
        let before = flow.with_mirrors(earlier);
        let at = (first + earlier.len()) as NodeIndex;
        assert forall|i: int| 0 <= i < earlier.len() implies (#[trigger] earlier[i]).node
            < first by {
            assert(earlier[i] == mirrors[i]);
        }
        assert(mirrors[mirrors.len() - 1] == mirror);
        lemma_mirrors_take_over(flow, earlier);
        reshard::lemma_with_mirrors(flow, earlier);
        let stayed = |edge: EdgeView| !demanded(earlier, edge);
        let stays = |edge: EdgeView| !reshard::demands(edge, node, want);
        let taken = taken_over(edges, earlier, first);
        let left = edges.filter(stayed);
        assert(!earlier.contains(mirror)) by {
            if earlier.contains(mirror) {
                let k = choose|k: int| 0 <= k < earlier.len() && earlier[k] == mirror;
                assert(mirrors[k] == mirrors[mirrors.len() - 1]);
            }
        }
        assert forall|edge: EdgeView| #[trigger] reshard::demands(edge, node, want) implies stayed(
            edge,
        ) by {
            if demanded(earlier, edge) {
                let k = choose|k: int|
                    0 <= k < earlier.len() && reshard::demands(
                        edge,
                        (#[trigger] earlier[k]).node,
                        earlier[k].want,
                    );
                assert(earlier[k] == mirror);
            }
        }
        assert forall|edge: EdgeView| #[trigger] stay(edge) == (stayed(edge) && stays(edge)) by {
            if demanded(earlier, edge) {
                let k = choose|k: int|
                    0 <= k < earlier.len() && reshard::demands(
                        edge,
                        (#[trigger] earlier[k]).node,
                        earlier[k].want,
                    );
                assert(reshard::demands(edge, mirrors[k].node, mirrors[k].want));
            }
            if reshard::demands(edge, node, want) {
                assert(reshard::demands(
                    edge,
                    mirrors[mirrors.len() - 1].node,
                    mirrors[mirrors.len() - 1].want,
                ));
            }
            if demanded(mirrors, edge) {
                let k = choose|k: int|
                    0 <= k < mirrors.len() && reshard::demands(
                        edge,
                        (#[trigger] mirrors[k]).node,
                        mirrors[k].want,
                    );
                if k < earlier.len() {
                    assert(reshard::demands(edge, earlier[k].node, earlier[k].want));
                }
            }
        }
        lemma_taken_over(edges, earlier, first, mirror);
        lemma_none_moved(taken, node, at, want);
        lemma_moved_append(left, taken, node, at, want);
        lemma_moved_filter(edges, stayed, node, at, want);
        lemma_filter_twice(edges, stayed, stays, stay);
        Seq::filter_distributes_over_add(left, taken, stays);
        let moving = reshard::moved(edges, node, at, want);
        assert(reshard::moved(before.edges, node, at, want) =~= moving);
        assert(before.edges.filter(stays) =~= edges.filter(stay) + taken);
        assert(flow.with_mirrors(mirrors).edges =~= (edges.filter(stay) + taken + moving).push(
            reshard::feed(node, at, want),
        ));
        assert(shared_out(edges, mirrors, first) =~= (edges.filter(stay) + taken + moving).push(
            reshard::feed(node, at, want),
        ));
    }
}

/// All edges stay that pass.
proof fn lemma_all_stay(edges: Seq<EdgeView>, stay: spec_fn(EdgeView) -> bool)
    requires
        forall|i: int| 0 <= i < edges.len() ==> stay(#[trigger] edges[i]),
    ensures
        edges.filter(stay) == edges,
    decreases edges.len(),
{
    reveal(Seq::filter);
    if edges.len() > 0 {
        let older = edges.drop_last();
        assert forall|i: int| 0 <= i < older.len() implies stay(#[trigger] older[i]) by {
            assert(older[i] == edges[i]);
        }
        lemma_all_stay(older, stay);
        assert(stay(edges[edges.len() - 1]));
        assert(older.push(edges.last()) =~= edges);
    } else {
        assert(edges.filter(stay) =~= edges);
    }
}

/// With a mirror still no two edges join the same two nodes, and all edges join nodes of the graph.
proof fn lemma_mirror_single(flow: Flow, mirror: Mirror)
    requires
        flow.edges_single(),
        flow.edges_within(),
        mirror.node < flow.nodes.len() < u32::MAX,
    ensures
        flow.with_mirror(mirror).edges_single(),
        flow.with_mirror(mirror).edges_within(),
{
    let edges = flow.edges;
    let Mirror { node, want } = mirror;
    let at = flow.nodes.len() as NodeIndex;
    let feed = reshard::feed(node, at, want);
    let moving = reshard::moved(edges, node, at, want);
    let left = edges.filter(|edge: EdgeView| !reshard::demands(edge, node, want));
    let after = flow.with_mirror(mirror).edges;
    lemma_without_all(edges, node, at, want);
    lemma_without_newest_single(edges, node, want, moving.len());
    lemma_without_newest_within(edges, node, want, moving.len());
    lemma_moved(edges, node, at, want);
    lemma_moved_single(edges, node, at, want);
    assert forall|i: int| 0 <= i < left.len() implies (#[trigger] left[i]).source < at
        && left[i].target < at by {
        assert(edges.contains(left[i]));
    }
    assert forall|i: int| 0 <= i < moving.len() implies (#[trigger] moving[i]).source == at
        && moving[i].target < at by {
        let was = EdgeView { source: node, target: moving[i].target, weight: moving[i].weight };
        assert(edges.contains(was));
    }
    assert forall|i: int| 0 <= i < after.len() implies #[trigger] after[i] == if i < left.len() {
        left[i]
    } else if i < left.len() + moving.len() {
        moving[i - left.len()]
    } else {
        feed
    } by {}
    assert forall|i: int, j: int| 0 <= i < j < after.len() implies !dataflow::joins_same(
        #[trigger] after[i],
        #[trigger] after[j],
    ) by {
        if j < left.len() {
            assert(!dataflow::joins_same(left[i], left[j]));
        } else if j < left.len() + moving.len() && i >= left.len() {
            assert(!dataflow::joins_same(moving[i - left.len()], moving[j - left.len()]));
        }
    }
}

/// With mirrors still no two edges join the same two nodes, and all edges join nodes of the graph.
pub proof fn lemma_mirrors_single(flow: Flow, mirrors: Seq<Mirror>)
    requires
        flow.edges_single(),
        flow.edges_within(),
        flow.nodes.len() + mirrors.len() <= u32::MAX,
        forall|i: int|
            0 <= i < mirrors.len() ==> (#[trigger] mirrors[i]).node < flow.nodes.len(),
    ensures
        flow.with_mirrors(mirrors).edges_single(),
        flow.with_mirrors(mirrors).edges_within(),
    decreases mirrors.len(),
{
    if mirrors.len() > 0 {
        let earlier = mirrors.drop_last();
        assert forall|i: int| 0 <= i < earlier.len() implies (#[trigger] earlier[i]).node
            < flow.nodes.len() by {
            assert(earlier[i] == mirrors[i]);
        }
        assert(mirrors[mirrors.len() - 1] == mirrors.last());
        lemma_mirrors_single(flow, earlier);
        reshard::lemma_with_mirrors(flow, earlier);
        lemma_mirror_single(flow.with_mirrors(earlier), mirrors.last());
    }
}

/// Requirements along edges leave the edges such that no two join the same two nodes, and all join
/// nodes of the graph.
pub proof fn lemma_with_requirements_single(
    edges: Seq<EdgeView>,
    requirements: Seq<Requirement>,
    bound: nat,
)
    requires
        dataflow::single(edges),
        forall|i: int|
            0 <= i < edges.len() ==> (#[trigger] edges[i]).source < bound && edges[i].target
                < bound,
        forall|i: int|
            0 <= i < requirements.len() ==> (#[trigger] requirements[i]).target < bound
                && requirements[i].child < bound,
    ensures
        dataflow::single(assign::with_requirements(edges, requirements)),
        forall|i: int|
            0 <= i < assign::with_requirements(edges, requirements).len() ==> (
            #[trigger] assign::with_requirements(edges, requirements)[i]).source < bound
                && assign::with_requirements(edges, requirements)[i].target < bound,
    decreases requirements.len(),
{
    if requirements.len() > 0 {
        let earlier = requirements.drop_last();
        let last = requirements.last();
        assert forall|i: int| 0 <= i < earlier.len() implies (#[trigger] earlier[i]).target < bound
            && earlier[i].child < bound by {
            assert(earlier[i] == requirements[i]);
        }
        assert(requirements[requirements.len() - 1] == last);
        lemma_with_requirements_single(edges, earlier, bound);
        let before = assign::with_requirements(edges, earlier);
        let after = assign::with_requirements(edges, requirements);
        dataflow::lemma_newest(before, last.target, last.child);
        assert forall|i: int, j: int| 0 <= i < j < after.len() implies !dataflow::joins_same(
            #[trigger] after[i],
            #[trigger] after[j],
        ) by {
            if j < before.len() {
                assert(!dataflow::joins_same(before[i], before[j]));
            } else {
                assert(after[i] == before[i]);
            }
        }
    }
}

} // verus!
