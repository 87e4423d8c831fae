use std::collections::{HashMap, HashSet};

use dataflow_migration::assign::{
    record_requirements, required_shardings, settle_shardings, Requirement,
};
use dataflow_migration::dataflow::FlowGraph;
use dataflow_migration::error::CommitError;
use dataflow_migration::inherit::{find_unsharded_new, inherit_shardings};
use dataflow_migration::operator::{Source, Tmp};
use dataflow_migration::resolve::{least_column, resolve_column};
use dataflow_migration::sharding::{Column, Sharding};

fn operator(lookups: &[Column], sources: &[&[Source]], base: bool) -> Tmp {
    Tmp {
        lookups: lookups.to_vec(),
        sources: sources.iter().map(|column| column.to_vec()).collect(),
        base,
    }
}

fn link(graph: &mut FlowGraph, source: u32, target: u32, weight: Sharding) {
    graph.add_edge(source.into(), target.into(), weight);
}

fn edge(graph: &FlowGraph, source: u32, target: u32) -> Option<Sharding> {
    graph.find_edge(source.into(), target.into()).map(|e| graph[e])
}

fn set(nodes: &[u32]) -> HashSet<u32> {
    nodes.iter().cloned().collect()
}

fn map(shardings: &[(u32, Column)]) -> HashMap<u32, Column> {
    shardings.iter().cloned().collect()
}

#[test]
fn sharding_defaults_to_none() {
    assert_eq!(Sharding::default(), Sharding::Unsharded);
    assert_eq!(Sharding::from((3, 4)), Sharding::By(3, 4));
}

#[test]
fn placeholder_operator_knows_nothing() {
    let mut operator = Tmp::default();
    assert!(operator.lookup_in().is_empty());
    assert!(operator.source_of(0).is_empty());
    assert!(!operator.is_base());
    operator.rewire(1, 2);
    assert!(operator.mirror().lookup_in().is_empty());
}

#[test]
fn mirror_has_the_same_output() {
    let operator = operator(&[(1, 2)], &[&[(0, Some(3)), (1, None)], &[]], true);
    let mirror = operator.mirror();
    assert_eq!(mirror.lookup_in(), vec![(1, 2)]);
    assert_eq!(mirror.source_of(0), vec![(0, Some(3)), (1, None)]);
    assert_eq!(mirror.source_of(1), vec![]);
    assert_eq!(mirror.source_of(2), vec![]);
    assert!(mirror.is_base());
}

#[test]
fn least_column_is_the_first_of_the_smallest_operator() {
    assert_eq!(least_column(&vec![(4, 0), (2, 9), (2, 1), (3, 0)]), Some((2, 9)));
    assert_eq!(least_column(&vec![]), None);
}

#[test]
fn columns_resolve_by_way_of_the_smallest_ancestor() {
    let mut graph = FlowGraph::default();
    graph.add_node(operator(&[], &[], true));
    graph.add_node(operator(&[], &[], true));
    let union: [&[Source]; 2] = [&[(1, Some(3)), (0, Some(2))], &[(0, None), (1, Some(4))]];
    graph.add_node(operator(&[], &union, false));
    graph.add_node(operator(&[], &[&[(2, Some(1))], &[(2, Some(0))]], false));
    assert_eq!(resolve_column(&graph, 3, 0), Some((1, 4)));
    assert_eq!(resolve_column(&graph, 3, 1), Some((0, 2)));
    assert_eq!(resolve_column(&graph, 0, 7), Some((0, 7)));
    assert_eq!(resolve_column(&graph, 3, 2), None);
    assert_eq!(resolve_column(&graph, 2, 9), None);
}

// two base tables, a join on column 0 of both, and an operator that looks into the join by its key
fn join() -> FlowGraph {
    let mut graph = FlowGraph::default();
    graph.add_node(operator(&[], &[], true));
    graph.add_node(operator(&[], &[], true));
    graph.add_node(operator(
        &[(1, 0), (0, 0)],
        &[&[(0, Some(0)), (1, Some(0))], &[(1, Some(1))]],
        false,
    ));
    graph.add_node(operator(&[(2, 0)], &[&[(2, Some(0))]], false));
    link(&mut graph, 0, 2, Sharding::Unsharded);
    link(&mut graph, 1, 2, Sharding::Unsharded);
    link(&mut graph, 2, 3, Sharding::Unsharded);
    graph
}

#[test]
fn lookup_by_the_join_key_shards_like_the_join() {
    let graph = join();
    let (sharded, requirements) =
        required_shardings(&graph, &set(&[2, 3]), map(&[(0, (0, 9))])).unwrap();
    assert_eq!(sharded, map(&[(0, (0, 9)), (2, (0, 0)), (3, (0, 0))]));
    assert_eq!(requirements, vec![Requirement { target: 2, child: 3, column: (0, 0) }]);
}

#[test]
fn lookups_into_itself_and_into_existing_operators_require_nothing() {
    let mut graph = FlowGraph::default();
    graph.add_node(operator(&[], &[], true));
    graph.add_node(operator(&[(1, 0), (0, 3)], &[&[(0, Some(1))]], false));
    let (sharded, requirements) = required_shardings(&graph, &set(&[1]), map(&[])).unwrap();
    assert_eq!(sharded, map(&[(1, (0, 3))]));
    assert_eq!(requirements, vec![]);
}

#[test]
fn lookup_by_a_missing_column_is_an_error() {
    let mut graph = FlowGraph::default();
    graph.add_node(Tmp::default());
    graph.add_node(operator(&[(0, 5)], &[], false));
    assert_eq!(
        required_shardings(&graph, &set(&[1]), map(&[])),
        Err(CommitError::UnknownColumn)
    );
    assert_eq!(required_shardings(&graph, &set(&[0]), map(&[])), Ok((map(&[]), vec![])));
}

#[test]
fn requirements_are_kept_along_edges() {
    let graph = join();
    let requirements = vec![
        Requirement { target: 2, child: 3, column: (0, 0) },
        Requirement { target: 0, child: 3, column: (0, 4) },
        Requirement { target: 2, child: 3, column: (1, 1) },
    ];
    let recorded = record_requirements(graph, &requirements).unwrap();
    assert_eq!(recorded.edge_count(), 4);
    assert_eq!(recorded.node_count(), 4);
    assert_eq!(edge(&recorded, 2, 3), Some(Sharding::By(1, 1)));
    assert_eq!(edge(&recorded, 0, 3), Some(Sharding::By(0, 4)));
    assert_eq!(edge(&recorded, 0, 2), Some(Sharding::Unsharded));
    assert_eq!(edge(&recorded, 3, 2), None);
}

#[test]
fn uncontested_sharding_needs_no_shuffle() {
    let graph = join();
    let requirements = vec![Requirement { target: 2, child: 3, column: (0, 0) }];
    let recorded = record_requirements(graph, &requirements).unwrap();
    let (sharded, shuffles) = settle_shardings(&recorded, &requirements, map(&[]));
    assert_eq!(sharded, map(&[(2, (0, 0))]));
    assert_eq!(shuffles, vec![]);
}

fn contested() -> (FlowGraph, Vec<Requirement>) {
    let mut graph = FlowGraph::default();
    for _ in 0..4 {
        graph.add_node(Tmp::default());
    }
    link(&mut graph, 0, 3, Sharding::Unsharded);
    let requirements = vec![
        Requirement { target: 0, child: 1, column: (5, 2) },
        Requirement { target: 0, child: 2, column: (5, 1) },
    ];
    (record_requirements(graph, &requirements).unwrap(), requirements)
}

#[test]
fn contested_sharding_is_the_least_and_the_others_are_shuffled() {
    let (graph, requirements) = contested();
    let (sharded, shuffles) = settle_shardings(&graph, &requirements, map(&[]));
    assert_eq!(sharded, map(&[(0, (5, 1))]));
    assert_eq!(shuffles, vec![(0, 1), (0, 3)]);
}

#[test]
fn assigned_sharding_wins_and_the_others_are_shuffled() {
    let (graph, requirements) = contested();
    let (sharded, shuffles) = settle_shardings(&graph, &requirements, map(&[(0, (5, 2))]));
    assert_eq!(sharded, map(&[(0, (5, 2))]));
    assert_eq!(shuffles, vec![(0, 2), (0, 3)]);
    let (sharded, shuffles) = settle_shardings(&graph, &requirements, map(&[(0, (9, 9))]));
    assert_eq!(sharded, map(&[(0, (9, 9))]));
    assert_eq!(shuffles, vec![(0, 2), (0, 1), (0, 3)]);
}

#[test]
fn sharding_comes_from_the_newest_parent_that_has_one() {
    let mut graph = FlowGraph::default();
    for _ in 0..4 {
        graph.add_node(Tmp::default());
    }
    link(&mut graph, 0, 3, Sharding::Unsharded);
    link(&mut graph, 1, 3, Sharding::Unsharded);
    link(&mut graph, 2, 3, Sharding::Unsharded);
    let shardings =
        inherit_shardings(&graph, map(&[(0, (7, 0)), (1, (7, 1))]), vec![3]).unwrap();
    assert_eq!(shardings, map(&[(0, (7, 0)), (1, (7, 1)), (3, (7, 1))]));
}

#[test]
fn sharding_is_handed_down_in_rounds() {
    let mut graph = FlowGraph::default();
    for _ in 0..4 {
        graph.add_node(Tmp::default());
    }
    link(&mut graph, 0, 1, Sharding::Unsharded);
    link(&mut graph, 1, 2, Sharding::Unsharded);
    link(&mut graph, 2, 3, Sharding::Unsharded);
    let shardings = inherit_shardings(&graph, map(&[(0, (0, 4))]), vec![3, 2, 1]).unwrap();
    assert_eq!(shardings, map(&[(0, (0, 4)), (1, (0, 4)), (2, (0, 4)), (3, (0, 4))]));
}

#[test]
fn round_without_progress_is_an_error() {
    let mut graph = FlowGraph::default();
    graph.add_node(Tmp::default());
    graph.add_node(Tmp::default());
    link(&mut graph, 0, 1, Sharding::Unsharded);
    assert_eq!(inherit_shardings(&graph, map(&[]), vec![0, 1]), Err(CommitError::NoProgress));
    assert_eq!(
        inherit_shardings(&graph, map(&[(1, (0, 0))]), vec![0]),
        Err(CommitError::NoProgress)
    );
    assert_eq!(inherit_shardings(&graph, map(&[]), vec![]), Ok(map(&[])));
}

#[test]
fn sharding_gets_into_a_cycle_only_from_outside() {
    let mut graph = FlowGraph::default();
    for _ in 0..4 {
        graph.add_node(Tmp::default());
    }
    link(&mut graph, 1, 2, Sharding::Unsharded);
    link(&mut graph, 2, 3, Sharding::Unsharded);
    link(&mut graph, 3, 1, Sharding::Unsharded);
    link(&mut graph, 3, 3, Sharding::Unsharded);
    let assigned = map(&[(0, (0, 4))]);
    assert_eq!(
        inherit_shardings(&graph, assigned.clone(), vec![1, 2, 3]),
        Err(CommitError::NoProgress)
    );
    link(&mut graph, 0, 3, Sharding::Unsharded);
    let shardings = inherit_shardings(&graph, assigned, vec![1, 2, 3]).unwrap();
    assert_eq!(shardings, map(&[(0, (0, 4)), (1, (0, 4)), (2, (0, 4)), (3, (0, 4))]));
}

#[test]
fn only_new_nodes_without_a_sharding_wait() {
    let mut graph = FlowGraph::default();
    for _ in 0..6 {
        graph.add_node(Tmp::default());
    }
    let assigned = map(&[(0, (0, 0)), (4, (0, 0)), (2, (0, 0))]);
    assert_eq!(find_unsharded_new(&graph, &set(&[5, 4, 3, 2]), &assigned), vec![3, 5]);
}
