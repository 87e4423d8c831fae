//! Trimming of replay paths, and the keys that they need along the way.

use std::collections::{HashMap, HashSet, VecDeque};
use vstd::prelude::*;

use crate::dataflow;
use crate::dataflow::{node_count, FlowGraph};
use crate::materialization;
use crate::materialization::{
    Materialization, MaterializationPlan, MaterializationView, PlanView,
};
use crate::replay;
use crate::replay::is_full;
use crate::sharding::{Column, NodeIndex};

verus! {

/// Where the first full materialization stands on a path, from a place on.
pub open spec fn first_full(
    materializations: Map<NodeIndex, MaterializationView>,
    path: Seq<Column>,
    from: int,
) -> int
    decreases path.len() - from,
{
    if from >= path.len() || replay::full(materializations, path[from].0) {
        from
    } else {
        first_full(materializations, path, from + 1)
    }
}

/// The path up to and including the first full materialization.
pub open spec fn cut(
    materializations: Map<NodeIndex, MaterializationView>,
    path: Seq<Column>,
) -> Seq<Column> {
    path.take(first_full(materializations, path, 0) + 1)
}

/// The materializations once the one at a column's node is keyed by the column, if there is one.
pub open spec fn keyed(
    materializations: Map<NodeIndex, MaterializationView>,
    column: Column,
) -> Map<NodeIndex, MaterializationView> {
    if materializations.contains_key(column.0) {
        materializations.insert(
            column.0,
            MaterializationView {
                keys: materializations[column.0].keys.insert(column.1),
                plan: materializations[column.0].plan,
            },
        )
    } else {
        materializations
    }
}

/// The materializations once they are keyed by the columns of a path.
pub open spec fn keyed_along(
    materializations: Map<NodeIndex, MaterializationView>,
    path: Seq<Column>,
) -> Map<NodeIndex, MaterializationView>
    decreases path.len(),
{
    if path.len() == 0 {
        materializations
    } else {
        keyed(keyed_along(materializations, path.drop_last()), path.last())
    }
}

/// The materializations once they are keyed by the columns of all the paths.
pub open spec fn keyed_along_all(
    materializations: Map<NodeIndex, MaterializationView>,
    paths: Seq<Seq<Column>>,
) -> Map<NodeIndex, MaterializationView>
    decreases paths.len(),
{
    if paths.len() == 0 {
        materializations
    } else {
        keyed_along(keyed_along_all(materializations, paths.drop_last()), paths.last())
    }
}

/// The paths, each cut at its first full materialization.
pub open spec fn cut_all(
    materializations: Map<NodeIndex, MaterializationView>,
    paths: Seq<Seq<Column>>,
) -> Seq<Seq<Column>> {
    paths.map_values(|path: Seq<Column>| cut(materializations, path))
}

/// The materializations once the paths of a node are cut, and the other materializations have the
/// keys that the paths need.
pub open spec fn trimmed_at(
    materializations: Map<NodeIndex, MaterializationView>,
    node: NodeIndex,
) -> Map<NodeIndex, MaterializationView> {
    if materializations.contains_key(node) {
        match materializations[node].plan {
            Some(PlanView::Partial { paths }) => {
                let others = materializations.remove(node);
                let cuts = cut_all(others, paths);
                keyed_along_all(others, cuts).insert(
                    node,
                    MaterializationView {
                        keys: materializations[node].keys,
                        plan: Some(PlanView::Partial { paths: cuts }),
                    },
                )
            },
            _ => materializations,
        }
    } else {
        materializations
    }
}

/// The materializations once the paths of the new nodes before `end` are trimmed, node by node.
pub open spec fn trimmed(
    added: Set<NodeIndex>,
    materializations: Map<NodeIndex, MaterializationView>,
    end: int,
) -> Map<NodeIndex, MaterializationView>
    decreases end,
{
    if end <= 0 {
        materializations
    } else {
        let before = trimmed(added, materializations, end - 1);
        if added.contains((end - 1) as NodeIndex) {
            trimmed_at(before, (end - 1) as NodeIndex)
        } else {
            before
        }
    }
}

/// Materializations at the same nodes, with the same plans.
pub open spec fn same_plans(
    left: Map<NodeIndex, MaterializationView>,
    right: Map<NodeIndex, MaterializationView>,
) -> bool {
    &&& left.dom() == right.dom()
    &&& forall|node: NodeIndex| #[trigger]
        left.contains_key(node) ==> left[node].plan == right[node].plan
}

/// A key changes no plans.
proof fn lemma_keyed_along(
    materializations: Map<NodeIndex, MaterializationView>,
    path: Seq<Column>,
)
    ensures
        same_plans(materializations, keyed_along(materializations, path)),
    decreases path.len(),
{
    if path.len() > 0 {
        lemma_keyed_along(materializations, path.drop_last());
    }
    assert(materializations.dom() =~= keyed_along(materializations, path).dom());
}

/// Keys change no plans.
proof fn lemma_keyed_along_all(
    materializations: Map<NodeIndex, MaterializationView>,
    paths: Seq<Seq<Column>>,
)
    ensures
        same_plans(materializations, keyed_along_all(materializations, paths)),
    decreases paths.len(),
{
    if paths.len() > 0 {
        let before = keyed_along_all(materializations, paths.drop_last());
        lemma_keyed_along_all(materializations, paths.drop_last());
        lemma_keyed_along(before, paths.last());
    }
}

/// The first full materialization is full, and none is between.
pub proof fn lemma_first_full(
    materializations: Map<NodeIndex, MaterializationView>,
    path: Seq<Column>,
    from: int,
)
    requires
        0 <= from <= path.len(),
    ensures
        ({
            let at = first_full(materializations, path, from);
            &&& from <= at <= path.len()
            &&& at < path.len() ==> replay::full(materializations, path[at].0)
            &&& forall|i: int|
                from <= i < at ==> !replay::full(materializations, (#[trigger] path[i]).0)
        }),
    decreases path.len() - from,
{
    if from < path.len() && !replay::full(materializations, path[from].0) {
        lemma_first_full(materializations, path, from + 1);
    }
}

/// A path that passes a full materialization is cut so that it ends in one and passes none before.
pub proof fn lemma_cut(materializations: Map<NodeIndex, MaterializationView>, path: Seq<Column>)
    requires
        replay::passes_full(materializations, path),
    ensures
        replay::ends_full(materializations, cut(materializations, path)),
        cut(materializations, path).is_prefix_of(path),
        first_full(materializations, path, 0) < path.len(),
{
    let at = first_full(materializations, path, 0);
    lemma_first_full(materializations, path, 0);
    let i = choose|i: int|
        0 <= i < path.len() && replay::full(materializations, (#[trigger] path[i]).0);
    assert(at <= i);
    let short = cut(materializations, path);
    assert(short.last() == path[at]);
    assert forall|i: int| 0 <= i < short.len() - 1 implies !replay::full(
        materializations,
        (#[trigger] short[i]).0,
    ) by {
        assert(short[i] == path[i]);
    }
}

/// Trimming the paths of a node leaves the same state full, leaves the paths of other nodes, and
/// cuts those of the node.
proof fn lemma_trimmed_at(
    materializations: Map<NodeIndex, MaterializationView>,
    node: NodeIndex,
)
    requires
        replay::replayable(materializations),
    ensures
        ({
            let after = trimmed_at(materializations, node);
            &&& after.dom() == materializations.dom()
            &&& forall|other: NodeIndex| #[trigger]
                replay::full(after, other) == replay::full(materializations, other)
            &&& forall|other: NodeIndex|
                other != node ==> #[trigger] replay::paths_at(after, other) == replay::paths_at(
                    materializations,
                    other,
                )
            &&& replay::paths_at(after, node) == cut_all(
                materializations,
                replay::paths_at(materializations, node),
            )
            &&& replay::replayable(after)
        }),
{
    let after = trimmed_at(materializations, node);
    let paths = replay::paths_at(materializations, node);
    if materializations.contains_key(node) && materializations[node].plan is Some
        && materializations[node].plan->0 is Partial {
        let others = materializations.remove(node);
        let cuts = cut_all(others, paths);
        let keyed = keyed_along_all(others, cuts);
        lemma_keyed_along_all(others, cuts);
        assert(after.dom() =~= materializations.dom());
        assert forall|other: NodeIndex| #[trigger]
            replay::full(after, other) == replay::full(materializations, other) by {
            if other != node {
                assert(others.contains_key(other) == keyed.contains_key(other));
            }
        }
        assert forall|other: NodeIndex|
            other != node implies #[trigger] replay::paths_at(after, other) == replay::paths_at(
            materializations,
            other,
        ) by {
            assert(others.contains_key(other) == keyed.contains_key(other));
        }
        assert(replay::paths_at(after, node) == cuts);
        assert forall|i: int| 0 <= i < paths.len() implies cut(others, #[trigger] paths[i]) == cut(
            materializations,
            paths[i],
        ) by {
            assert(replay::passes_full(
                materializations,
                replay::paths_at(materializations, node)[i],
            ));
            lemma_same_first_full(others, materializations, paths[i], 0);
        }
        assert(cuts =~= cut_all(materializations, paths));
    } else {
        assert(paths =~= Seq::empty());
        assert(cut_all(materializations, paths) =~= Seq::empty());
    }
    assert forall|other: NodeIndex, i: int|
        0 <= i < replay::paths_at(after, other).len() implies replay::passes_full(
        after,
        #[trigger] replay::paths_at(after, other)[i],
    ) by {
        let path = replay::paths_at(materializations, other)[i];
        assert(replay::passes_full(materializations, path));
        lemma_cut(materializations, path);
        let short = cut(materializations, path);
        if other == node {
            assert(short[short.len() - 1] == short.last());
            assert(replay::full(after, short[short.len() - 1].0));
        } else {
            let j = choose|j: int|
                0 <= j < path.len() && replay::full(materializations, (#[trigger] path[j]).0);
            assert(replay::full(after, path[j].0));
        }
    }
}

/// The first full materialization depends only on what is full.
proof fn lemma_same_first_full(
    left: Map<NodeIndex, MaterializationView>,
    right: Map<NodeIndex, MaterializationView>,
    path: Seq<Column>,
    from: int,
)
    requires
        0 <= from <= path.len(),
        forall|node: NodeIndex| #[trigger] replay::full(left, node) == replay::full(right, node),
    ensures
        first_full(left, path, from) == first_full(right, path, from),
    decreases path.len() - from,
{
    if from < path.len() {
        assert(replay::full(left, path[from].0) == replay::full(right, path[from].0));
        if !replay::full(left, path[from].0) {
            lemma_same_first_full(left, right, path, from + 1);
        }
    }
}

/// Trimming leaves the same state full, cuts the paths of the new nodes before `end`, and leaves
/// the others.
pub proof fn lemma_trimmed(
    added: Set<NodeIndex>,
    materializations: Map<NodeIndex, MaterializationView>,
    end: int,
)
    requires
        replay::replayable(materializations),
        end <= u32::MAX,
    ensures
        ({
            let after = trimmed(added, materializations, end);
            &&& after.dom() == materializations.dom()
            &&& forall|node: NodeIndex| #[trigger]
                replay::full(after, node) == replay::full(materializations, node)
            &&& forall|node: NodeIndex| #[trigger]
                replay::paths_at(after, node) == if node < end && added.contains(node) {
                    cut_all(materializations, replay::paths_at(materializations, node))
                } else {
                    replay::paths_at(materializations, node)
                }
            &&& replay::replayable(after)
        }),
    decreases end,
{
    if end > 0 {
        let last = (end - 1) as NodeIndex;
        let before = trimmed(added, materializations, end - 1);
        let after = trimmed(added, materializations, end);
        lemma_trimmed(added, materializations, end - 1);
        lemma_trimmed_at(before, last);
        assert(before.dom() == materializations.dom());
        assert forall|node: NodeIndex| #[trigger]
            replay::full(after, node) == replay::full(materializations, node) by {
            assert(replay::full(before, node) == replay::full(materializations, node));
            assert(replay::full(trimmed_at(before, last), node) == replay::full(before, node));
        }
        assert forall|node: NodeIndex| #[trigger]
            replay::paths_at(after, node) == if node < end && added.contains(node) {
                cut_all(materializations, replay::paths_at(materializations, node))
            } else {
                replay::paths_at(materializations, node)
            } by {
            if node == last && added.contains(node) {
                let paths = replay::paths_at(before, node);
                assert(paths == replay::paths_at(materializations, node));
                assert forall|i: int| 0 <= i < paths.len() implies cut(before, #[trigger] paths[i])
                    == cut(materializations, paths[i]) by {
                    lemma_same_first_full(before, materializations, paths[i], 0);
                }
                assert(cut_all(before, paths) =~= cut_all(materializations, paths));
            } else {
                assert(replay::paths_at(before, node) == replay::paths_at(after, node));
            }
        }
    }
}

/// Every path of a new node that state is replayed over is trimmed to the first full
/// materialization on it.
pub proof fn law_trimmed_to_first_full(
    added: Set<NodeIndex>,
    materializations: Map<NodeIndex, MaterializationView>,
    end: int,
    node: NodeIndex,
    i: int,
)
    requires
        replay::replayable(materializations),
        end <= u32::MAX,
        node < end,
        added.contains(node),
        0 <= i < replay::paths_at(materializations, node).len(),
    ensures
        ({
            let after = trimmed(added, materializations, end);
            let path = replay::paths_at(after, node)[i];
            &&& i < replay::paths_at(after, node).len()
            &&& path.is_prefix_of(replay::paths_at(materializations, node)[i])
            &&& replay::ends_full(after, path)
        }),
{
    let after = trimmed(added, materializations, end);
    let whole = replay::paths_at(materializations, node)[i];
    lemma_trimmed(added, materializations, end);
    assert(replay::passes_full(materializations, whole));
    lemma_cut(materializations, whole);
    let path = replay::paths_at(after, node)[i];
    assert(path == cut(materializations, whole));
    assert(replay::full(after, path.last().0));
    assert forall|j: int| 0 <= j < path.len() - 1 implies !replay::full(
        after,
        (#[trigger] path[j]).0,
    ) by {
        assert(!replay::full(materializations, path[j].0));
    }
}

/// Trimming leaves decided what is decided, and partial what is partial.
pub proof fn lemma_trimmed_partial(
    added: Set<NodeIndex>,
    materializations: Map<NodeIndex, MaterializationView>,
    end: int,
    node: NodeIndex,
)
    requires
        end <= u32::MAX,
    ensures
        ({
            let after = trimmed(added, materializations, end);
            &&& after.contains_key(node) == materializations.contains_key(node)
            &&& materializations.contains_key(node) ==> match materializations[node].plan {
                Some(plan) => after[node].plan is Some && after[node].plan->0 is Partial
                    == plan is Partial,
                None => after[node].plan is None,
            }
        }),
    decreases end,
{
    if end > 0 {
        let last = (end - 1) as NodeIndex;
        let before = trimmed(added, materializations, end - 1);
        lemma_trimmed_partial(added, materializations, end - 1, node);
        if before.contains_key(last) && before[last].plan is Some
            && before[last].plan->0 is Partial {
            let others = before.remove(last);
            let cuts = cut_all(others, replay::paths_at(before, last));
            lemma_keyed_along_all(others, cuts);
            assert(others.contains_key(node) == keyed_along_all(others, cuts).contains_key(node));
        }
    }
}

/// Keys that are there stay.
pub open spec fn keys_kept(
    before: Map<NodeIndex, MaterializationView>,
    after: Map<NodeIndex, MaterializationView>,
) -> bool {
    forall|node: NodeIndex, key: usize|
        before.contains_key(node) && before[node].keys.contains(key) ==> after.contains_key(node)
            && #[trigger] after[node].keys.contains(key)
}

/// Whether the materialization at a column's node, if there is one, is keyed by the column.
pub open spec fn is_keyed(
    materializations: Map<NodeIndex, MaterializationView>,
    column: Column,
) -> bool {
    materializations.contains_key(column.0) ==> materializations[column.0].keys.contains(column.1)
}

/// Whether the materializations of other nodes that the paths of a node pass are keyed by the
/// columns that the paths pass them by.
pub open spec fn keyed_on_paths(
    materializations: Map<NodeIndex, MaterializationView>,
    node: NodeIndex,
) -> bool {
    let paths = replay::paths_at(materializations, node);
    forall|i: int, j: int|
        0 <= i < paths.len() && 0 <= j < paths[i].len() && paths[i][j].0 != node ==> is_keyed(
            materializations,
            #[trigger] paths[i][j],
        )
}

/// A key that is added is there, and so are those that were.
proof fn lemma_keyed(materializations: Map<NodeIndex, MaterializationView>, column: Column)
    ensures
        keys_kept(materializations, keyed(materializations, column)),
        is_keyed(keyed(materializations, column), column),
        keyed(materializations, column).dom() == materializations.dom(),
{
    assert(keyed(materializations, column).dom() =~= materializations.dom());
}

/// The keys along a path are there once they are added, and so are those that were.
pub proof fn lemma_keyed_along_keys(
    materializations: Map<NodeIndex, MaterializationView>,
    path: Seq<Column>,
)
    ensures
        keys_kept(materializations, keyed_along(materializations, path)),
        keyed_along(materializations, path).dom() == materializations.dom(),
        forall|i: int|
            0 <= i < path.len() ==> is_keyed(
                keyed_along(materializations, path),
                #[trigger] path[i],
            ),
    decreases path.len(),
{
    if path.len() > 0 {
        let earlier = path.drop_last();
        let before = keyed_along(materializations, earlier);
        let after = keyed_along(materializations, path);
        lemma_keyed_along_keys(materializations, earlier);
        lemma_keyed(before, path.last());
        assert forall|i: int| 0 <= i < path.len() implies is_keyed(after, #[trigger] path[i]) by {
            if i < earlier.len() {
                assert(is_keyed(before, earlier[i]));
            }
        }
        assert forall|node: NodeIndex, key: usize|
            materializations.contains_key(node) && materializations[node].keys.contains(
                key,
            ) implies after.contains_key(node) && #[trigger] after[node].keys.contains(key) by {
            assert(before[node].keys.contains(key));
        }
    }
}

/// The keys along paths are there once they are added, and so are those that were.
pub proof fn lemma_keyed_along_all_keys(
    materializations: Map<NodeIndex, MaterializationView>,
    paths: Seq<Seq<Column>>,
)
    ensures
        keys_kept(materializations, keyed_along_all(materializations, paths)),
        keyed_along_all(materializations, paths).dom() == materializations.dom(),
        forall|i: int, j: int|
            0 <= i < paths.len() && 0 <= j < paths[i].len() ==> is_keyed(
                keyed_along_all(materializations, paths),
                #[trigger] paths[i][j],
            ),
    decreases paths.len(),
{
    if paths.len() > 0 {
        let earlier = paths.drop_last();
        let before = keyed_along_all(materializations, earlier);
        let after = keyed_along_all(materializations, paths);
        lemma_keyed_along_all_keys(materializations, earlier);
        lemma_keyed_along_keys(before, paths.last());
        assert forall|i: int, j: int|
            0 <= i < paths.len() && 0 <= j < paths[i].len() implies is_keyed(
            after,
            #[trigger] paths[i][j],
        ) by {
            if i < earlier.len() {
                assert(is_keyed(before, earlier[i][j]));
            } else {
                assert(is_keyed(after, paths.last()[j]));
            }
        }
        assert forall|node: NodeIndex, key: usize|
            materializations.contains_key(node) && materializations[node].keys.contains(
                key,
            ) implies after.contains_key(node) && #[trigger] after[node].keys.contains(key) by {
            assert(before[node].keys.contains(key));
        }
    }
}

/// Trimming the paths of a node keeps all keys, and keys the other materializations by the columns
/// of the paths.
proof fn lemma_trimmed_at_keys(
    materializations: Map<NodeIndex, MaterializationView>,
    node: NodeIndex,
)
    ensures
        ({
            let after = trimmed_at(materializations, node);
            &&& keys_kept(materializations, after)
            &&& keyed_on_paths(after, node)
        }),
{
    if materializations.contains_key(node) && materializations[node].plan is Some
        && materializations[node].plan->0 is Partial {
        let others = materializations.remove(node);
        let cuts = cut_all(others, replay::paths_at(materializations, node));
        let keyed = keyed_along_all(others, cuts);
        let after = trimmed_at(materializations, node);
        lemma_keyed_along_all_keys(others, cuts);
        assert(replay::paths_at(after, node) == cuts);
        assert forall|i: int, j: int|
            0 <= i < cuts.len() && 0 <= j < cuts[i].len() && cuts[i][j].0 != node implies is_keyed(
            after,
            #[trigger] cuts[i][j],
        ) by {
            assert(is_keyed(keyed, cuts[i][j]));
        }
        assert forall|other: NodeIndex, key: usize|
            materializations.contains_key(other) && materializations[other].keys.contains(
                key,
            ) implies after.contains_key(other) && #[trigger] after[other].keys.contains(key) by {
            if other != node {
                assert(others[other].keys.contains(key));
                assert(keyed[other].keys.contains(key));
            }
        }
    }
}

/// Every materialization that a path of another new node passes is keyed by the column that the
/// path passes it by, and no key is lost.
pub proof fn law_keyed_along_paths(
    added: Set<NodeIndex>,
    materializations: Map<NodeIndex, MaterializationView>,
    end: int,
)
    requires
        replay::replayable(materializations),
        end <= u32::MAX,
    ensures
        ({
            let after = trimmed(added, materializations, end);
            &&& keys_kept(materializations, after)
            &&& forall|node: NodeIndex|
                node < end && added.contains(node) ==> #[trigger] keyed_on_paths(after, node)
        }),
    decreases end,
{
    if end > 0 {
        let last = (end - 1) as NodeIndex;
        let before = trimmed(added, materializations, end - 1);
        let after = trimmed(added, materializations, end);
        law_keyed_along_paths(added, materializations, end - 1);
        lemma_trimmed(added, materializations, end - 1);
        if added.contains(last) {
            lemma_trimmed_at(before, last);
            lemma_trimmed_at_keys(before, last);
            assert forall|node: NodeIndex, key: usize|
                materializations.contains_key(node) && materializations[node].keys.contains(
                    key,
                ) implies after.contains_key(node) && #[trigger] after[node].keys.contains(
                key,
            ) by {
                assert(before[node].keys.contains(key));
            }
            assert forall|node: NodeIndex|
                node < end && added.contains(node) implies #[trigger] keyed_on_paths(
                after,
                node,
            ) by {
                if node != last {
                    let paths = replay::paths_at(after, node);
                    assert(replay::paths_at(before, node) == paths);
                    assert(keyed_on_paths(before, node));
                    assert forall|i: int, j: int|
                        0 <= i < paths.len() && 0 <= j < paths[i].len() && paths[i][j].0
                            != node implies is_keyed(after, #[trigger] paths[i][j]) by {
                        assert(is_keyed(before, paths[i][j]));
                    }
                }
            }
        }
    }
}

/// The path up to and including the first full materialization.
fn cut_path(materializations: &HashMap<NodeIndex, Materialization>, path: &Vec<Column>) -> (short:
    Vec<Column>)
    requires
        replay::passes_full(materialization::views(materializations@), path@),
    ensures
        short@ == cut(materialization::views(materializations@), path@),
{
    let ghost views = materialization::views(materializations@);
    proof {
        lemma_cut(views, path@);
    }
    let mut short: Vec<Column> = Vec::new();
    for i in 0..path.len()
        invariant
            views == materialization::views(materializations@),
            short@ == path@.take(i as int),
            first_full(views, path@, 0) == first_full(views, path@, i as int),
            first_full(views, path@, 0) < path@.len(),
    {
        short.push(path[i]);
        if is_full(materializations, path[i].0) {
            return short;
        }
    }
    short
}

/// Keys the materializations by the columns of a path.
fn key_along(materializations: &mut HashMap<NodeIndex, Materialization>, path: &Vec<Column>)
    ensures
        materialization::views(final(materializations)@) == keyed_along(
            materialization::views(old(materializations)@),
            path@,
        ),
{
    let ghost views = materialization::views(materializations@);
    for i in 0..path.len()
        invariant
            views == materialization::views(old(materializations)@),
            materialization::views(materializations@) == keyed_along(views, path@.take(i as int)),
    {
        let ghost held = materializations@;
        let (node, column) = path[i];
        assert(path@.take(i + 1).drop_last() =~= path@.take(i as int));
        match materializations.remove(&node) {
            Some(mut materialization) => {
                assert(materialization::views(held)[node] == materialization@);
                materialization.add_key(column);
                materializations.insert(node, materialization);
                assert(materialization::views(materializations@) =~= materialization::views(
                    held,
                ).insert(node, materialization@));
            },
            None => {
                assert(materializations@ =~= held);
            },
        }
    }
    assert(path@.take(path@.len() as int) =~= path@);
}

/// Cuts paths at the first full materialization on each.
fn cut_paths(
    materializations: &HashMap<NodeIndex, Materialization>,
    paths: &VecDeque<Vec<Column>>,
) -> (cuts: VecDeque<Vec<Column>>)
    requires
        forall|i: int|
            0 <= i < paths@.len() ==> replay::passes_full(
                materialization::views(materializations@),
                #[trigger] replay::path_views(paths@)[i],
            ),
    ensures
        replay::path_views(cuts@) == cut_all(
            materialization::views(materializations@),
            replay::path_views(paths@),
        ),
{
    let ghost views = materialization::views(materializations@);
    let mut cuts: VecDeque<Vec<Column>> = VecDeque::new();
    for i in 0..paths.len()
        invariant
            views == materialization::views(materializations@),
            forall|i: int|
                0 <= i < paths@.len() ==> replay::passes_full(
                    views,
                    #[trigger] replay::path_views(paths@)[i],
                ),
            cuts@.len() == i,
            forall|j: int|
                0 <= j < i ==> #[trigger] cuts@[j]@ == cut(views, replay::path_views(paths@)[j]),
    {
        assert(replay::passes_full(views, replay::path_views(paths@)[i as int]));
        cuts.push_back(cut_path(materializations, &paths[i]));
    }
    assert(replay::path_views(cuts@) =~= cut_all(views, replay::path_views(paths@)));
    cuts
}

/// Trims the paths of a node, and keys the other materializations as the paths need it.
fn trim_at(materializations: &mut HashMap<NodeIndex, Materialization>, node: NodeIndex)
    requires
        replay::replayable(materialization::views(old(materializations)@)),
    ensures
        materialization::views(final(materializations)@) == trimmed_at(
            materialization::views(old(materializations)@),
            node,
        ),
{
    let ghost views = materialization::views(materializations@);
    if let Some(materialization) = materializations.remove(&node) {
        assert(views[node] == materialization@);
        let ghost others = materialization::views(materializations@);
        assert(others =~= views.remove(node));
        let Materialization { keys, plan } = materialization;
        match plan {
            Some(MaterializationPlan::Partial { paths }) => {
                proof {
                    assert(replay::path_views(paths@) == replay::paths_at(views, node));
                    assert forall|i: int| 0 <= i < paths@.len() implies replay::passes_full(
                        others,
                        #[trigger] replay::path_views(paths@)[i],
                    ) by {
                        let path = replay::paths_at(views, node)[i];
                        assert(replay::passes_full(views, path));
                        let j = choose|j: int|
                            0 <= j < path.len() && replay::full(views, (#[trigger] path[j]).0);
                        assert(replay::full(others, path[j].0));
                    }
                }
                let cuts = cut_paths(materializations, &paths);
                let ghost cut_views = replay::path_views(cuts@);
                assert(cut_views.take(0) =~= Seq::empty());
                for i in 0..cuts.len()
                    invariant
                        cut_views == replay::path_views(cuts@),
                        materialization::views(materializations@) == keyed_along_all(
                            others,
                            cut_views.take(i as int),
                        ),
                {
                    assert(cut_views.take(i + 1).drop_last() =~= cut_views.take(i as int));
                    key_along(materializations, &cuts[i]);
                }
                assert(cut_views.take(cut_views.len() as int) =~= cut_views);
                let ghost keyed = materializations@;
                let now = Materialization {
                    keys,
                    plan: Some(MaterializationPlan::Partial { paths: cuts }),
                };
                materializations.insert(node, now);
                assert(materialization::views(materializations@) =~= materialization::views(
                    keyed,
                ).insert(node, now@));
            },
            plan => {
                let now = Materialization { keys, plan };
                materializations.insert(node, now);
                assert(materialization::views(materializations@) =~= views);
            },
        }
    } else {
        assert(materialization::views(materializations@) =~= views);
    }
}

/// Trims the paths of the new nodes to the nearest full materialization, which may have become full
/// after the path was chosen, and keys the materializations that the paths pass.
pub fn trim_paths(
    graph: &FlowGraph,
    added: &HashSet<NodeIndex>,
    materializations: HashMap<NodeIndex, Materialization>,
) -> (trimmed_materializations: HashMap<NodeIndex, Materialization>)
    requires
        replay::replayable(materialization::views(materializations@)),
    ensures
        materialization::views(trimmed_materializations@) == trimmed(
            added@,
            materialization::views(materializations@),
            dataflow::flow(*graph).nodes.len() as int,
        ),
{
    let ghost views = materialization::views(materializations@);
    let count: usize = node_count(graph);
    let mut now = materializations;
    let mut node: NodeIndex = 0;
    while (node as usize) < count
        invariant
            count == dataflow::flow(*graph).nodes.len(),
            node <= count <= u32::MAX,
            views == materialization::views(materializations@),
            replay::replayable(views),
            materialization::views(now@) == trimmed(added@, views, node as int),
        decreases count - node,
    {
        if added.contains(&node) {
            proof {
                lemma_trimmed(added@, views, node as int);
            }
            trim_at(&mut now, node);
        }
        node = node + 1;
    }
    now
}

} // verus!
