//! The state that operators keep, and the keys and plans it is kept under.

use std::collections::{HashMap, HashSet, VecDeque};
use vstd::prelude::*;

use crate::dataflow;
use crate::dataflow::{node_count, operator, Flow, FlowGraph};
use crate::operator::copy_columns;
use crate::sharding::{Column, NodeIndex};

verus! {

/// How the state of a materialization is kept.
#[derive(Debug, PartialEq, Eq)]
pub enum MaterializationPlan {
    /// All of the state is kept.
    Full,
    /// Missing state is replayed over these paths. Each leads from the materialization up to a full
    /// one.
    Partial { paths: VecDeque<Vec<Column>> },
}

/// What is observable of a plan.
#[verifier::ext_equal]
pub enum PlanView {
    Full,
    Partial { paths: Seq<Seq<Column>> },
}

impl View for MaterializationPlan {
    type V = PlanView;

    open spec fn view(&self) -> PlanView {
        match *self {
            MaterializationPlan::Full => PlanView::Full,
            MaterializationPlan::Partial { paths } => PlanView::Partial {
                paths: paths@.map_values(|path: Vec<Column>| path@),
            },
        }
    }
}

impl Clone for MaterializationPlan {
    fn clone(&self) -> (copy: Self)
        ensures
            copy@ == self@,
    {
        match self {
            MaterializationPlan::Full => MaterializationPlan::Full,
            MaterializationPlan::Partial { paths } => {
                let mut copies: VecDeque<Vec<Column>> = VecDeque::new();
                for i in 0..paths.len()
                    invariant
                        copies@.len() == i,
                        forall|j: int| 0 <= j < i ==> #[trigger] copies@[j]@ == paths@[j]@,
                {
                    copies.push_back(copy_columns(&paths[i]));
                }
                let copy = MaterializationPlan::Partial { paths: copies };
                assert(copy@->paths =~= self@->paths);
                copy
            },
        }
    }
}

impl MaterializationPlan {
    /// Whether all of the state is kept.
    pub fn is_full(&self) -> (full: bool)
        ensures
            full == (self@ is Full),
            full == (*self is Full),
    {
        match *self {
            MaterializationPlan::Full => true,
            _ => false,
        }
    }
}

/// State that is kept at an operator.
#[derive(Debug, PartialEq, Eq)]
pub struct Materialization {
    /// The columns that the state is looked up by.
    pub keys: HashSet<usize>,
    /// How the state is kept, once that is decided.
    pub plan: Option<MaterializationPlan>,
}

/// What is observable of a materialization.
#[verifier::ext_equal]
pub struct MaterializationView {
    pub keys: Set<usize>,
    pub plan: Option<PlanView>,
}

impl View for Materialization {
    type V = MaterializationView;

    open spec fn view(&self) -> MaterializationView {
        MaterializationView {
            keys: self.keys@,
            plan: match self.plan {
                Some(plan) => Some(plan@),
                None => None,
            },
        }
    }
}

impl Clone for Materialization {
    fn clone(&self) -> (copy: Self)
        ensures
            copy@ == self@,
    {
        let list = ascending_keys(&self.keys);
        let mut keys: HashSet<usize> = HashSet::new();
        for i in 0..list.len()
            invariant
                forall|key: usize| #[trigger]
                    keys@.contains(key) <==> list@.take(i as int).contains(key),
        {
            keys.insert(list[i]);
            assert forall|key: usize| #[trigger] list@.take(i + 1).contains(key) <==> list@.take(
                i as int,
            ).contains(key) || key == list@[i as int] by {
                if list@.take(i as int).contains(key) {
                    let k = choose|k: int|
                        0 <= k < i && #[trigger] list@.take(i as int)[k] == key;
                    assert(list@.take(i + 1)[k] == key);
                }
                if list@.take(i + 1).contains(key) && key != list@[i as int] {
                    let k = choose|k: int|
                        0 <= k < i + 1 && #[trigger] list@.take(i + 1)[k] == key;
                    assert(list@.take(i as int)[k] == key);
                }
                assert(list@.take(i + 1)[i as int] == list@[i as int]);
            }
        }
        proof {
            assert(list@.take(list@.len() as int) =~= list@);
            lemma_ascending(self.keys@);
            assert(keys@ =~= self.keys@);
        }
        let plan = match &self.plan {
            Some(plan) => Some(plan.clone()),
            None => None,
        };
        Materialization { keys, plan }
    }
}

impl Default for Materialization {
    fn default() -> (materialization: Self)
        ensures
            materialization@ == (MaterializationView { keys: Set::empty(), plan: None }),
            materialization.keys@ == Set::<usize>::empty(),
            materialization.plan is None,
    {
        Materialization { keys: HashSet::new(), plan: None }
    }
}

/// Whether keys are in ascending order.
pub open spec fn ascends(keys: Seq<usize>) -> bool {
    forall|i: int, j: int| 0 <= i < j < keys.len() ==> (#[trigger] keys[i]) < (#[trigger] keys[j])
}

/// The keys below `end` in ascending order.
pub open spec fn ascending_below(keys: Set<usize>, end: int) -> Seq<usize>
    decreases end,
{
    if end <= 0 {
        Seq::empty()
    } else if keys.contains((end - 1) as usize) {
        ascending_below(keys, end - 1).push((end - 1) as usize)
    } else {
        ascending_below(keys, end - 1)
    }
}

/// The keys in ascending order.
pub open spec fn ascending(keys: Set<usize>) -> Seq<usize> {
    ascending_below(keys, usize::MAX + 1)
}

/// Keys in ascending order are the keys, in ascending order.
proof fn lemma_ascending_below(keys: Set<usize>, end: int)
    requires
        end <= usize::MAX + 1,
    ensures
        ascends(ascending_below(keys, end)),
        forall|key: usize| #[trigger]
            ascending_below(keys, end).contains(key) <==> key < end && keys.contains(key),
    decreases end,
{
    if end > 0 {
        let last = (end - 1) as usize;
        let before = ascending_below(keys, end - 1);
        let all = ascending_below(keys, end);
        lemma_ascending_below(keys, end - 1);
        assert forall|i: int| 0 <= i < before.len() implies (#[trigger] before[i]) < last by {
            assert(before.contains(before[i]));
        }
        assert forall|i: int, j: int| 0 <= i < j < all.len() implies (#[trigger] all[i]) < (
        #[trigger] all[j]) by {
            assert(all[i] == before[i]);
        }
        assert forall|key: usize| #[trigger] all.contains(key) <==> key < end && keys.contains(
            key,
        ) by {
            if before.contains(key) {
                let k = choose|k: int| 0 <= k < before.len() && before[k] == key;
                assert(all[k] == key);
            }
            if all.contains(key) && key != last {
                let k = choose|k: int| 0 <= k < all.len() && all[k] == key;
                assert(before[k] == key);
            }
            if key == last && keys.contains(key) {
                assert(all[before.len() as int] == key);
            }
        }
    }
}

/// Keys in ascending order are the keys, in ascending order.
pub proof fn lemma_ascending(keys: Set<usize>)
    ensures
        ascends(ascending(keys)),
        forall|key: usize| #[trigger] ascending(keys).contains(key) <==> keys.contains(key),
{
    lemma_ascending_below(keys, usize::MAX + 1);
}

/// There is one way to list keys in ascending order.
proof fn lemma_ascends_unique(left: Seq<usize>, right: Seq<usize>)
    requires
        ascends(left),
        ascends(right),
        forall|key: usize| #[trigger] left.contains(key) <==> right.contains(key),
    ensures
        left == right,
    decreases left.len(),
{
    if left.len() == 0 {
        if right.len() > 0 {
            assert(right.contains(right[0]));
            assert(left.contains(right[0]));
        }
        assert(left =~= right);
    } else {
        assert(left.contains(left[left.len() - 1]));
        assert(right.contains(left.last()));
        assert(right.contains(right[right.len() - 1]));
        assert(left.contains(right.last()));
        let i = choose|i: int| 0 <= i < right.len() && right[i] == left.last();
        let j = choose|j: int| 0 <= j < left.len() && left[j] == right.last();
        if i < right.len() - 1 {
            assert(right[i] < right[right.len() - 1]);
            assert(j < left.len() - 1 ==> left[j] < left[left.len() - 1]);
        }
        assert(left.last() == right.last());
        let l = left.drop_last();
        let r = right.drop_last();
        assert forall|a: int, b: int| 0 <= a < b < l.len() implies (#[trigger] l[a]) < (
        #[trigger] l[b]) by {
            assert(left[a] < left[b]);
        }
        assert forall|a: int, b: int| 0 <= a < b < r.len() implies (#[trigger] r[a]) < (
        #[trigger] r[b]) by {
            assert(right[a] < right[b]);
        }
        assert forall|key: usize| #[trigger] l.contains(key) <==> r.contains(key) by {
            if l.contains(key) {
                let k = choose|k: int| 0 <= k < l.len() && l[k] == key;
                assert(left[k] < left[left.len() - 1]);
                assert(left.contains(key));
                let m = choose|m: int| 0 <= m < right.len() && right[m] == key;
                assert(r[m] == key);
            }
            if r.contains(key) {
                let k = choose|k: int| 0 <= k < r.len() && r[k] == key;
                assert(right[k] < right[right.len() - 1]);
                assert(right.contains(key));
                assert(left.contains(key));
                let m = choose|m: int| 0 <= m < left.len() && left[m] == key;
                assert(l[m] == key);
            }
        }
        lemma_ascends_unique(l, r);
        assert(left =~= l.push(left.last()));
        assert(right =~= r.push(right.last()));
    }
}

/// Puts a key into its place among keys in ascending order.
fn insert_ascending(keys: &mut Vec<usize>, key: usize)
    requires
        ascends(old(keys)@),
        !old(keys)@.contains(key),
    ensures
        ascends(final(keys)@),
        forall|other: usize| #[trigger]
            final(keys)@.contains(other) <==> old(keys)@.contains(other) || other == key,
{
    let ghost before = keys@;
    let mut place: usize = 0;
    while place < keys.len() && keys[place] < key
        invariant
            keys@ == before,
            ascends(before),
            place <= before.len(),
            forall|i: int| 0 <= i < place ==> (#[trigger] before[i]) < key,
        decreases before.len() - place,
    {
        place = place + 1;
    }
    keys.insert(place, key);
    proof {
        let after = keys@;
        assert(after == before.insert(place as int, key));
        assert forall|i: int| place <= i < before.len() implies key < (#[trigger] before[i]) by {
            assert(before.contains(before[i]));
            if place < i {
                assert(before[place as int] < before[i]);
            }
            assert(before.contains(before[place as int]));
        }
        assert forall|i: int| 0 <= i < after.len() implies #[trigger] after[i] == if i < place {
            before[i]
        } else if i == place {
            key
        } else {
            before[i - 1]
        } by {}
        assert forall|i: int, j: int| 0 <= i < j < after.len() implies (#[trigger] after[i]) < (
        #[trigger] after[j]) by {}
        assert forall|other: usize| #[trigger] after.contains(other) <==> before.contains(other)
            || other == key by {
            if before.contains(other) {
                let k = choose|k: int| 0 <= k < before.len() && before[k] == other;
                if k < place {
                    assert(after[k] == other);
                } else {
                    assert(after[k + 1] == other);
                }
            }
            assert(after[place as int] == key);
        }
    }
}

/// The keys in ascending order.
pub fn ascending_keys(keys: &HashSet<usize>) -> (list: Vec<usize>)
    ensures
        list@ == ascending(keys@),
        forall|i: int, j: int|
            0 <= i < j < list@.len() ==> (#[trigger] list@[i]) < (#[trigger] list@[j]),
        forall|key: usize| #[trigger] list@.contains(key) <==> keys@.contains(key),
{
    broadcast use vstd::std_specs::hash::group_hash_axioms;

    let mut list: Vec<usize> = Vec::new();
    for key in walk: keys.iter()
        invariant
            walk.seq().unref().to_set() == keys@,
            walk.seq().no_duplicates(),
            ascends(list@),
            forall|other: usize| #[trigger]
                list@.contains(other) ==> keys@.contains(other) && exists|i: int|
                    0 <= i < walk.index() && *(#[trigger] walk.seq()[i]) == other,
            forall|other: usize| #[trigger]
                keys@.contains(other) ==> list@.contains(other) || exists|i: int|
                    walk.index() <= i < walk.seq().len() && *(#[trigger] walk.seq()[i]) == other,
    {
        let ghost all = walk.seq().unref();
        let ghost held = list@;
        proof {
            assert(*walk.seq()[walk.index()] == *key);
            assert(all[walk.index()] == *key);
            assert(all.to_set().contains(*key));
            if held.contains(*key) {
                let i = choose|i: int| 0 <= i < walk.index() && *(#[trigger] walk.seq()[i]) == *key;
                assert(walk.seq()[i] != walk.seq()[walk.index()]);
            }
        }
        insert_ascending(&mut list, *key);
        assert forall|other: usize| #[trigger] list@.contains(other) implies keys@.contains(other)
            && exists|i: int|
            0 <= i < walk.index() + 1 && *(#[trigger] walk.seq()[i]) == other by {
            if other != *key {
                assert(held.contains(other));
            } else {
                assert(*walk.seq()[walk.index()] == other);
            }
        }
        assert forall|other: usize| #[trigger] keys@.contains(other) implies list@.contains(other)
            || exists|i: int|
            walk.index() + 1 <= i < walk.seq().len() && *(#[trigger] walk.seq()[i]) == other by {
            if !held.contains(other) && other != *key {
                let i = choose|i: int|
                    walk.index() <= i < walk.seq().len() && *(#[trigger] walk.seq()[i]) == other;
                assert(i != walk.index());
            } else {
                assert(list@.contains(other));
            }
        }
    }
    assert forall|key: usize| #[trigger] list@.contains(key) <==> ascending(keys@).contains(
        key,
    ) by {
        lemma_ascending(keys@);
        assert(ascending(keys@).contains(key) <==> keys@.contains(key));
    }
    proof {
        lemma_ascending(keys@);
        lemma_ascends_unique(list@, ascending(keys@));
    }
    list
}

impl Materialization {
    /// Whether all of the state is kept, if that is decided.
    pub fn is_full(&self) -> (full: Option<bool>)
        ensures
            full == match self@.plan {
                Some(plan) => Some(plan is Full),
                None => None,
            },
            full == match self.plan {
                Some(plan) => Some(plan is Full),
                None => None,
            },
    {
        match &self.plan {
            Some(plan) => Some(plan.is_full()),
            None => None,
        }
    }

    /// Adds a key, unless it is there.
    pub fn add_key(&mut self, key: usize)
        ensures
            final(self)@ == (MaterializationView {
                keys: old(self)@.keys.insert(key),
                plan: old(self)@.plan,
            }),
            final(self).keys@ == old(self).keys@.insert(key),
            final(self).plan == old(self).plan,
    {
        self.keys.insert(key);
    }
}

/// What is observable of the materializations of a graph.
pub open spec fn views(materializations: Map<NodeIndex, Materialization>) -> Map<
    NodeIndex,
    MaterializationView,
> {
    materializations.map_values(|materialization: Materialization| materialization@)
}

/// What is observable of materializations is where they are, by what they are keyed and how they
/// are kept.
pub proof fn law_materializations_observed(
    materializations: Map<NodeIndex, Materialization>,
    node: NodeIndex,
)
    ensures
        views(materializations).contains_key(node) <==> materializations.contains_key(node),
        materializations.contains_key(node) ==> {
            let view = views(materializations)[node];
            &&& view.keys == materializations[node].keys@
            &&& match materializations[node].plan {
                None => view.plan is None,
                Some(MaterializationPlan::Full) => view.plan == Some(PlanView::Full),
                Some(MaterializationPlan::Partial { paths }) => {
                    &&& view.plan matches Some(PlanView::Partial { paths: seen })
                    &&& seen.len() == paths@.len()
                    &&& forall|i: int| 0 <= i < paths@.len() ==> #[trigger] seen[i] == paths@[i]@
                },
            }
        },
{
}

/// The columns of one operator.
pub open spec fn columns_at(columns: Seq<Column>, node: NodeIndex) -> Seq<usize> {
    columns.filter_map(
        |column: Column|
            if column.0 == node {
                Some(column.1)
            } else {
                None
            },
    )
}

/// The materializations that serve lookups, with no plans yet.
pub open spec fn serving(lookups: Seq<Column>) -> Map<NodeIndex, MaterializationView> {
    Map::new(
        |node: NodeIndex| columns_at(lookups, node).len() > 0,
        |node: NodeIndex|
            MaterializationView { keys: columns_at(lookups, node).to_set(), plan: None },
    )
}

impl Flow {
    /// The lookups that the new nodes before `end` do.
    pub open spec fn lookups(self, added: Set<NodeIndex>, end: int) -> Seq<Column>
        decreases end,
    {
        if end <= 0 {
            Seq::empty()
        } else if added.contains((end - 1) as NodeIndex) {
            self.lookups(added, end - 1) + self.nodes[end - 1].lookups
        } else {
            self.lookups(added, end - 1)
        }
    }
}

/// One more lookup adds its column to the keys of the operator that it looks into.
proof fn lemma_serving_push(lookups: Seq<Column>, lookup: Column)
    ensures
        ({
            let before = serving(lookups);
            let keys = if before.contains_key(lookup.0) {
                before[lookup.0].keys
            } else {
                Set::empty()
            };
            serving(lookups.push(lookup)) == before.insert(
                lookup.0,
                MaterializationView { keys: keys.insert(lookup.1), plan: None },
            )
        }),
{
    let after = lookups.push(lookup);
    assert(after.drop_last() =~= lookups);
    assert forall|node: NodeIndex| #[trigger]
        columns_at(after, node) == if lookup.0 == node {
            columns_at(lookups, node).push(lookup.1)
        } else {
            columns_at(lookups, node)
        } by {
        if lookup.0 == node {
            assert(columns_at(after, node) =~= columns_at(lookups, node) + seq![lookup.1]);
            assert(columns_at(lookups, node) + seq![lookup.1] =~= columns_at(lookups, node).push(
                lookup.1,
            ));
        }
    }
    let columns = columns_at(lookups, lookup.0);
    assert(columns.push(lookup.1).to_set() =~= columns.to_set().insert(lookup.1)) by {
        assert forall|key: usize| #[trigger] columns.push(lookup.1).contains(key) == (
        columns.contains(key) || key == lookup.1) by {
            if columns.contains(key) {
                let k = choose|k: int| 0 <= k < columns.len() && columns[k] == key;
                assert(columns.push(lookup.1)[k] == key);
            }
            assert(columns.push(lookup.1)[columns.len() as int] == lookup.1);
        }
    }
    assert(columns.len() == 0 ==> columns.to_set() =~= Set::empty());
    let before = serving(lookups);
    let keys = if before.contains_key(lookup.0) {
        before[lookup.0].keys
    } else {
        Set::empty()
    };
    assert(serving(after) =~= before.insert(
        lookup.0,
        MaterializationView { keys: keys.insert(lookup.1), plan: None },
    ));
}

/// Finds what is going to be materialized, and what it is keyed by: whatever new nodes look into,
/// by the columns of the lookups.
pub fn demanded_materializations(graph: &FlowGraph, added: &HashSet<NodeIndex>) -> (
    materializations: HashMap<NodeIndex, Materialization>)
    ensures
        views(materializations@) == serving(
            dataflow::flow(*graph).lookups(added@, dataflow::flow(*graph).nodes.len() as int),
        ),
{
    let ghost flow = dataflow::flow(*graph);
    let count: usize = node_count(graph);
    let mut materializations: HashMap<NodeIndex, Materialization> = HashMap::new();
    let mut node: NodeIndex = 0;
    assert(views(materializations@) =~= serving(flow.lookups(added@, 0)));
    while (node as usize) < count
        invariant
            flow == dataflow::flow(*graph),
            count == flow.nodes.len(),
            node <= count <= u32::MAX,
            views(materializations@) == serving(flow.lookups(added@, node as int)),
        decreases count - node,
    {
        if added.contains(&node) {
            let lookups = operator(graph, node).lookup_in();
            let ghost before = flow.lookups(added@, node as int);
            assert(before + lookups@.take(0) =~= before);
            for i in 0..lookups.len()
                invariant
                    views(materializations@) == serving(before + lookups@.take(i as int)),
            {
                let (target, column) = lookups[i];
                let ghost so_far = before + lookups@.take(i as int);
                proof {
                    lemma_serving_push(so_far, lookups@[i as int]);
                    assert(so_far.push(lookups@[i as int]) =~= before + lookups@.take(i + 1));
                }
                let ghost held = materializations@;
                let mut materialization = match materializations.remove(&target) {
                    Some(materialization) => materialization,
                    None => Materialization::default(),
                };
                assert(views(held).contains_key(target) ==> views(held)[target]
                    == materialization@);
                materialization.add_key(column);
                materializations.insert(target, materialization);
                assert(views(materializations@) =~= views(held).insert(target, materialization@));
            }
            assert(lookups@.take(lookups@.len() as int) =~= lookups@);
        }
        node = node + 1;
    }
    materializations
}

} // verus!
