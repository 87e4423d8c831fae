use std::collections::{HashMap, HashSet, VecDeque};

use dataflow_migration::ancestry::ancestors_of;
use dataflow_migration::dataflow::FlowGraph;
use dataflow_migration::error::CommitError;
use dataflow_migration::materialization::{
    ascending_keys, demanded_materializations, Materialization, MaterializationPlan,
};
use dataflow_migration::operator::{Source, Tmp};
use dataflow_migration::replay::{is_full, plan_materializations, replay_paths};
use dataflow_migration::reshard::{
    add_mirrors, mirrors_of, shard_mirrors, split_keys, visits_of_new, Mirror, Reshard,
};
use dataflow_migration::sharding::{Column, Sharding};
use dataflow_migration::trim::trim_paths;
use dataflow_migration::visit::VisitNode;
use petgraph::visit::EdgeRef;

fn operator(lookups: &[Column], sources: &[&[Source]], base: bool) -> Tmp {
    Tmp {
        lookups: lookups.to_vec(),
        sources: sources.iter().map(|column| column.to_vec()).collect(),
        base,
    }
}

fn graph_of(operators: Vec<Tmp>, edges: &[(u32, u32)]) -> FlowGraph {
    let mut graph = FlowGraph::default();
    for operator in operators {
        graph.add_node(operator);
    }
    for &(source, target) in edges {
        graph.add_edge(source.into(), target.into(), Sharding::Unsharded);
    }
    graph
}

fn set(nodes: &[u32]) -> HashSet<u32> {
    nodes.iter().cloned().collect()
}

fn keyed(keys: &[usize]) -> Materialization {
    Materialization { keys: keys.iter().cloned().collect(), plan: None }
}

fn full(keys: &[usize]) -> Materialization {
    Materialization { keys: keys.iter().cloned().collect(), plan: Some(MaterializationPlan::Full) }
}

fn partial(keys: &[usize], paths: &[&[Column]]) -> Materialization {
    let paths = paths.iter().map(|path| path.to_vec()).collect();
    Materialization {
        keys: keys.iter().cloned().collect(),
        plan: Some(MaterializationPlan::Partial { paths }),
    }
}

fn over(paths: &[&[Column]]) -> Option<VecDeque<Vec<Column>>> {
    Some(paths.iter().map(|path| path.to_vec()).collect())
}

fn visit(node: u32) -> VisitNode {
    VisitNode { logical: (node, 0), index: node }
}

#[test]
fn plans_are_full_or_not() {
    assert!(MaterializationPlan::Full.is_full());
    assert!(!MaterializationPlan::Partial { paths: VecDeque::new() }.is_full());
    assert_eq!(Materialization::default().is_full(), None);
    assert_eq!(full(&[]).is_full(), Some(true));
    assert_eq!(partial(&[0], &[]).is_full(), Some(false));
}

#[test]
fn keys_have_an_order_but_state_does_not_depend_on_it() {
    let keys: HashSet<usize> = [7, 0, 3, 12].into_iter().collect();
    assert_eq!(ascending_keys(&keys), vec![0, 3, 7, 12]);
    assert_eq!(ascending_keys(&HashSet::new()), vec![]);
    assert_eq!(keyed(&[1, 2]), keyed(&[2, 1]));
}

#[test]
fn copies_of_state_are_equal() {
    let paths: [&[Column]; 2] = [&[(3, 0), (1, 0)], &[(3, 0)]];
    for materialization in [keyed(&[4, 2]), full(&[]), partial(&[1, 9], &paths)] {
        assert_eq!(materialization.clone(), materialization);
    }
}

#[test]
fn key_is_added_once() {
    let mut materialization = Materialization::default();
    materialization.add_key(4);
    materialization.add_key(2);
    materialization.add_key(4);
    assert_eq!(materialization, keyed(&[4, 2]));
}

#[test]
fn whatever_new_nodes_look_into_is_materialized() {
    let graph = graph_of(
        vec![
            operator(&[], &[], true),
            operator(&[(0, 2), (0, 1), (1, 5)], &[], false),
            operator(&[(0, 2), (1, 0)], &[], false),
            operator(&[(0, 9)], &[], false),
        ],
        &[],
    );
    let materializations = demanded_materializations(&graph, &set(&[1, 2]));
    let expected: HashMap<u32, Materialization> =
        [(0, keyed(&[2, 1])), (1, keyed(&[5, 0]))].into_iter().collect();
    assert_eq!(materializations, expected);
}

#[test]
fn keys_that_do_not_fit_the_sharding_need_copies() {
    let graph = graph_of(
        vec![
            operator(&[], &[], true),
            operator(&[], &[&[(0, Some(0))], &[(0, Some(1))], &[(0, Some(0))]], false),
        ],
        &[(0, 1)],
    );
    let sharded: HashMap<u32, Column> = [(1, (0, 0))].into_iter().collect();
    let materializations: HashMap<u32, Materialization> =
        [(0, keyed(&[3, 4])), (1, keyed(&[1, 2, 0]))].into_iter().collect();
    let (fitted, reshards) = split_keys(&graph, &sharded, materializations).unwrap();
    let expected: HashMap<u32, Materialization> =
        [(0, keyed(&[3, 4])), (1, keyed(&[2, 0]))].into_iter().collect();
    assert_eq!(fitted, expected);
    assert_eq!(reshards, vec![Reshard { node: 1, column: 1, want: (0, 1) }]);
}

#[test]
fn key_that_is_no_column_is_an_error() {
    let graph = graph_of(vec![Tmp::default()], &[]);
    let sharded: HashMap<u32, Column> = [(0, (0, 0))].into_iter().collect();
    let materializations: HashMap<u32, Materialization> =
        [(0, keyed(&[0]))].into_iter().collect();
    assert_eq!(
        split_keys(&graph, &sharded, materializations),
        Err(CommitError::UnknownColumn)
    );
}

#[test]
fn mirror_takes_over_what_demands_its_sharding() {
    let mut graph = graph_of(
        vec![
            operator(&[], &[], true),
            operator(&[(0, 1)], &[&[(0, Some(1))]], false),
            Tmp::default(),
            Tmp::default(),
            Tmp::default(),
        ],
        &[(0, 1)],
    );
    graph.add_edge(1.into(), 2.into(), Sharding::By(0, 1));
    graph.add_edge(1.into(), 3.into(), Sharding::By(0, 0));
    graph.add_edge(1.into(), 4.into(), Sharding::By(0, 1));
    let mut added = set(&[1, 2, 3, 4]);
    let mut materializations: HashMap<u32, Materialization> =
        [(1, keyed(&[0]))].into_iter().collect();
    let mut shuffles = vec![(1, 2)];
    let mut visits = visits_of_new(&graph, &added);
    let reshards = vec![Reshard { node: 1, column: 3, want: (0, 1) }];
    let result = add_mirrors(
        &mut graph,
        &mut added,
        &mut materializations,
        &mut shuffles,
        &mut visits,
        &reshards,
        &mirrors_of(&reshards),
    );
    assert_eq!(result, Ok(()));
    assert_eq!(graph.node_count(), 6);
    assert_eq!(graph[petgraph::graph::NodeIndex::new(5)].lookup_in(), vec![(0, 1)]);
    assert_eq!(graph[petgraph::graph::NodeIndex::new(5)].source_of(0), vec![(0, Some(1))]);
    let mut edges: Vec<(usize, usize, Sharding)> = graph
        .raw_edges()
        .iter()
        .map(|edge| (edge.source().index(), edge.target().index(), edge.weight))
        .collect();
    edges.sort_by_key(|edge| (edge.0, edge.1));
    assert_eq!(
        edges,
        vec![
            (0, 1, Sharding::Unsharded),
            (1, 3, Sharding::By(0, 0)),
            (1, 5, Sharding::By(0, 1)),
            (5, 2, Sharding::By(0, 1)),
            (5, 4, Sharding::By(0, 1)),
        ]
    );
    assert_eq!(added, set(&[1, 2, 3, 4, 5]));
    assert_eq!(materializations[&5], keyed(&[3]));
    assert_eq!(materializations[&1], keyed(&[0]));
    assert_eq!(shuffles, vec![(1, 2), (1, 5)]);
    let order: Vec<u32> = visits.into_order().iter().map(|visit| visit.index).collect();
    assert_eq!(order, vec![4, 3, 2, 5, 1]);
}

#[test]
fn mirror_takes_over_only_the_edges_that_demand_its_sharding() {
    let mut graph = graph_of(vec![Tmp::default(), Tmp::default()], &[]);
    graph.add_edge(0.into(), 1.into(), Sharding::By(9, 1));
    graph.add_edge(0.into(), 1.into(), Sharding::Unsharded);
    graph.add_edge(0.into(), 1.into(), Sharding::By(9, 1));
    graph.add_edge(0.into(), 0.into(), Sharding::By(9, 1));
    graph.add_edge(0.into(), 1.into(), Sharding::By(9, 2));
    let mut added = set(&[0, 1]);
    let mut materializations = HashMap::new();
    let mut shuffles = vec![];
    let mut visits = visits_of_new(&graph, &added);
    let reshards = vec![Reshard { node: 0, column: 5, want: (9, 1) }];
    add_mirrors(
        &mut graph,
        &mut added,
        &mut materializations,
        &mut shuffles,
        &mut visits,
        &reshards,
        &mirrors_of(&reshards),
    )
    .unwrap();
    let out = |node: u32| {
        graph
            .edges(node.into())
            .map(|edge| (edge.target().index(), *edge.weight()))
            .collect::<Vec<(usize, Sharding)>>()
    };
    assert_eq!(
        out(0),
        vec![(2, Sharding::By(9, 1)), (1, Sharding::By(9, 2)), (1, Sharding::Unsharded)]
    );
    assert_eq!(
        out(2),
        vec![(1, Sharding::By(9, 1)), (1, Sharding::By(9, 1)), (0, Sharding::By(9, 1))]
    );
    assert_eq!(out(1), vec![]);
}

#[test]
fn copies_of_one_sharding_share_a_mirror() {
    let reshards = vec![
        Reshard { node: 0, column: 1, want: (9, 1) },
        Reshard { node: 0, column: 2, want: (9, 2) },
        Reshard { node: 0, column: 3, want: (9, 1) },
        Reshard { node: 1, column: 4, want: (9, 1) },
    ];
    let mirrors = mirrors_of(&reshards);
    assert_eq!(
        mirrors,
        vec![
            Mirror { node: 0, want: (9, 1) },
            Mirror { node: 0, want: (9, 2) },
            Mirror { node: 1, want: (9, 1) },
        ]
    );
    let mut graph = graph_of(vec![Tmp::default(), Tmp::default(), Tmp::default()], &[]);
    graph.add_edge(0.into(), 2.into(), Sharding::By(9, 1));
    let mut added = set(&[0, 1, 2]);
    let mut materializations = HashMap::new();
    let mut shuffles = vec![];
    let mut visits = visits_of_new(&graph, &added);
    add_mirrors(
        &mut graph,
        &mut added,
        &mut materializations,
        &mut shuffles,
        &mut visits,
        &reshards,
        &mirrors,
    )
    .unwrap();
    let expected: HashMap<u32, Materialization> =
        [(3, keyed(&[1, 3])), (4, keyed(&[2])), (5, keyed(&[4]))].into_iter().collect();
    assert_eq!(materializations, expected);
    let assigned: HashMap<u32, Column> = [(0, (9, 0))].into_iter().collect();
    let shardings: HashMap<u32, Column> =
        [(0, (9, 0)), (3, (9, 1)), (4, (9, 2)), (5, (9, 1))].into_iter().collect();
    assert_eq!(shard_mirrors(assigned, &mirrors, 3), shardings);
    assert_eq!(graph.edge_count(), 4);
    assert!(graph.contains_edge(3.into(), 2.into()));
    assert!(graph.contains_edge(0.into(), 3.into()));
    assert!(graph.contains_edge(0.into(), 4.into()));
    assert!(graph.contains_edge(1.into(), 5.into()));
}

#[test]
fn two_mirrors_stand_between_a_node_and_its_children() {
    let mut graph = graph_of(vec![Tmp::default(), Tmp::default(), Tmp::default()], &[]);
    graph.add_edge(0.into(), 1.into(), Sharding::By(9, 1));
    graph.add_edge(0.into(), 2.into(), Sharding::By(9, 2));
    let mut added = set(&[0, 1, 2]);
    let mut materializations = HashMap::new();
    let mut shuffles = vec![];
    let mut visits = visits_of_new(&graph, &added);
    let reshards = vec![
        Reshard { node: 0, column: 1, want: (9, 1) },
        Reshard { node: 0, column: 2, want: (9, 2) },
    ];
    add_mirrors(
        &mut graph,
        &mut added,
        &mut materializations,
        &mut shuffles,
        &mut visits,
        &reshards,
        &mirrors_of(&reshards),
    )
    .unwrap();
    let order: Vec<u32> = visits.into_order().iter().map(|visit| visit.index).collect();
    assert_eq!(order, vec![2, 1, 4, 3, 0]);
    assert!(graph.contains_edge(3.into(), 1.into()));
    assert!(graph.contains_edge(4.into(), 2.into()));
    assert!(!graph.contains_edge(0.into(), 1.into()));
    assert_eq!(shuffles, vec![(0, 3), (0, 4)]);
}

#[test]
fn ancestors_are_found_once() {
    let graph = graph_of(
        vec![Tmp::default(), Tmp::default(), Tmp::default(), Tmp::default(), Tmp::default()],
        &[(0, 1), (0, 2), (1, 3), (2, 3), (3, 4)],
    );
    let mut ancestors = ancestors_of(&graph, 3);
    ancestors.sort();
    assert_eq!(ancestors, vec![0, 1, 2, 3]);
    assert_eq!(ancestors_of(&graph, 0), vec![0]);
}

// a union of two operators above which state may be full
fn union() -> FlowGraph {
    graph_of(
        vec![
            operator(&[], &[], true),
            operator(&[], &[&[(0, Some(1))], &[(0, None)]], false),
            operator(&[], &[&[(0, Some(2))], &[(0, Some(3))]], false),
            operator(
                &[],
                &[&[(1, Some(0)), (2, Some(0))], &[(1, Some(1)), (2, Some(1))], &[]],
                false,
            ),
        ],
        &[(0, 1), (0, 2), (1, 3), (2, 3)],
    )
}

#[test]
fn union_replays_over_all_its_parents() {
    let materializations: HashMap<u32, Materialization> =
        [(0, full(&[])), (3, keyed(&[0]))].into_iter().collect();
    assert!(is_full(&materializations, 0));
    assert!(!is_full(&materializations, 3));
    assert!(!is_full(&materializations, 1));
    assert_eq!(
        replay_paths(&union(), &materializations, 3, 0),
        over(&[&[(3, 0), (1, 0), (0, 1)], &[(3, 0), (2, 0), (0, 2)]])
    );
}

#[test]
fn replay_stops_at_the_first_full_materialization() {
    let materializations: HashMap<u32, Materialization> =
        [(0, full(&[])), (1, full(&[])), (2, partial(&[], &[]))].into_iter().collect();
    assert_eq!(
        replay_paths(&union(), &materializations, 3, 0),
        over(&[&[(3, 0), (1, 0)], &[(3, 0), (2, 0), (0, 2)]])
    );
    assert_eq!(replay_paths(&union(), &materializations, 1, 1), over(&[&[(1, 1)]]));
}

#[test]
fn column_that_one_parent_cannot_supply_is_not_replayed() {
    let materializations: HashMap<u32, Materialization> =
        [(0, full(&[]))].into_iter().collect();
    assert_eq!(replay_paths(&union(), &materializations, 3, 1), None);
    let supplied: HashMap<u32, Materialization> =
        [(0, full(&[])), (1, full(&[]))].into_iter().collect();
    assert_eq!(
        replay_paths(&union(), &supplied, 3, 1),
        over(&[&[(3, 1), (1, 1)], &[(3, 1), (2, 1), (0, 3)]])
    );
}

#[test]
fn nothing_full_above_leaves_nothing_to_replay() {
    assert_eq!(replay_paths(&union(), &HashMap::new(), 3, 0), None);
    assert_eq!(replay_paths(&union(), &HashMap::new(), 3, 2), None);
}

#[test]
fn way_up_that_gets_to_nothing_full_is_noticed() {
    let materializations: HashMap<u32, Materialization> =
        [(1, full(&[]))].into_iter().collect();
    assert_eq!(
        replay_paths(&union(), &materializations, 3, 0),
        None
    );
}

#[test]
fn state_that_not_all_parents_can_replay_is_full() {
    let materializations: HashMap<u32, Materialization> =
        [(1, full(&[4])), (2, keyed(&[])), (3, keyed(&[0]))].into_iter().collect();
    let planned = plan_materializations(
        &union(),
        &set(&[1, 2, 3]),
        materializations,
        &vec![visit(3), visit(2), visit(1)],
    )
    .unwrap();
    let expected: HashMap<u32, Materialization> =
        [(1, full(&[4])), (2, full(&[])), (3, full(&[0]))].into_iter().collect();
    assert_eq!(planned, expected);
}

#[test]
fn state_above_full_state_is_full() {
    let materializations: HashMap<u32, Materialization> =
        [(0, keyed(&[7])), (2, keyed(&[0])), (3, keyed(&[1]))].into_iter().collect();
    let planned = plan_materializations(
        &union(),
        &set(&[0, 1, 2, 3]),
        materializations,
        &vec![visit(3), visit(2), visit(1), visit(0)],
    )
    .unwrap();
    let expected: HashMap<u32, Materialization> =
        [(0, full(&[7])), (2, full(&[0])), (3, full(&[1]))].into_iter().collect();
    assert_eq!(planned, expected);
}

#[test]
fn state_below_full_state_is_partial() {
    let materializations: HashMap<u32, Materialization> =
        [(0, full(&[7])), (2, keyed(&[])), (3, keyed(&[0]))].into_iter().collect();
    let planned = plan_materializations(
        &union(),
        &set(&[1, 2, 3]),
        materializations,
        &vec![visit(3), visit(2), visit(1)],
    )
    .unwrap();
    let expected: HashMap<u32, Materialization> = [
        (0, full(&[7])),
        (2, keyed(&[])),
        (3, partial(&[0], &[&[(3, 0), (1, 0), (0, 1)], &[(3, 0), (2, 0), (0, 2)]])),
    ]
    .into_iter()
    .collect();
    assert_eq!(planned, expected);
}

#[test]
fn partial_state_stays_partial_when_state_above_becomes_full() {
    let materializations: HashMap<u32, Materialization> =
        [(0, full(&[7])), (1, keyed(&[1])), (3, keyed(&[0]))].into_iter().collect();
    let planned = plan_materializations(
        &union(),
        &set(&[1, 2, 3]),
        materializations,
        &vec![visit(3), visit(2), visit(1)],
    )
    .unwrap();
    let paths: [&[Column]; 2] = [&[(3, 0), (1, 0), (0, 1)], &[(3, 0), (2, 0), (0, 2)]];
    let expected: HashMap<u32, Materialization> =
        [(0, full(&[7])), (1, full(&[1])), (3, partial(&[0], &paths))].into_iter().collect();
    assert_eq!(planned, expected);
    let trimmed = trim_paths(&union(), &set(&[1, 2, 3]), planned);
    let paths: [&[Column]; 2] = [&[(3, 0), (1, 0)], &[(3, 0), (2, 0), (0, 2)]];
    assert_eq!(trimmed[&3], partial(&[0], &paths));
    assert_eq!(trimmed[&1], full(&[1, 0]));
    assert_eq!(trimmed[&0], full(&[7, 2]));
}

#[test]
fn state_with_nothing_to_replay_from_is_full() {
    let materializations: HashMap<u32, Materialization> =
        [(2, keyed(&[])), (3, keyed(&[0]))].into_iter().collect();
    let planned = plan_materializations(
        &union(),
        &set(&[1, 2, 3]),
        materializations,
        &vec![visit(3), visit(2), visit(1)],
    )
    .unwrap();
    let expected: HashMap<u32, Materialization> =
        [(2, full(&[])), (3, full(&[0]))].into_iter().collect();
    assert_eq!(planned, expected);
}

#[test]
fn all_keys_are_replayed() {
    let plan = |node: u32| {
        let materializations: HashMap<u32, Materialization> =
            [(0, full(&[])), (node, keyed(&[0, 1]))].into_iter().collect();
        plan_materializations(&union(), &set(&[1, 2, 3]), materializations, &vec![visit(node)])
            .unwrap()
    };
    assert_eq!(plan(2)[&2], partial(&[0, 1], &[&[(2, 0), (0, 2)], &[(2, 1), (0, 3)]]));
    // an operator above cannot supply the second key
    assert_eq!(plan(3)[&3], full(&[0, 1]));
}

#[test]
fn plans_that_cannot_be_made() {
    let plan = |materializations: Vec<(u32, Materialization)>| {
        plan_materializations(
            &union(),
            &set(&[1, 2, 3]),
            materializations.into_iter().collect(),
            &vec![visit(3), visit(2), visit(1)],
        )
    };
    assert_eq!(
        plan(vec![(0, keyed(&[4])), (3, keyed(&[1]))]),
        Err(CommitError::ExistingNotFull)
    );
    assert_eq!(
        plan(vec![(0, partial(&[4], &[])), (3, keyed(&[1]))]),
        Err(CommitError::ExistingNotFull)
    );
    assert!(plan(vec![(0, full(&[4])), (3, keyed(&[1]))]).is_ok());
}

#[test]
fn paths_are_trimmed_to_the_nearest_full_materialization() {
    let materializations: HashMap<u32, Materialization> = [
        (0, full(&[1])),
        (1, full(&[])),
        (2, partial(&[5], &[&[(2, 5), (0, 3)]])),
        (3, partial(&[0], &[&[(3, 0), (1, 0), (0, 1)], &[(3, 0), (2, 0), (0, 2)]])),
    ]
    .into_iter()
    .collect();
    let trimmed = trim_paths(&union(), &set(&[1, 2, 3]), materializations);
    let expected: HashMap<u32, Materialization> = [
        (0, full(&[1, 3, 2])),
        (1, full(&[0])),
        (2, partial(&[5, 0], &[&[(2, 5), (0, 3)]])),
        (3, partial(&[0], &[&[(3, 0), (1, 0)], &[(3, 0), (2, 0), (0, 2)]])),
    ]
    .into_iter()
    .collect();
    assert_eq!(trimmed, expected);
}

#[test]
fn paths_of_existing_nodes_stay() {
    let materializations: HashMap<u32, Materialization> = [
        (0, full(&[1])),
        (1, full(&[])),
        (3, partial(&[0], &[&[(3, 0), (1, 0), (0, 1)]])),
    ]
    .into_iter()
    .collect();
    let trimmed = trim_paths(&union(), &set(&[1, 2]), materializations.clone());
    assert_eq!(trimmed, materializations);
}
