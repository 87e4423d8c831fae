use std::collections::{HashMap, HashSet};

use dataflow_migration::error::CommitError;
use dataflow_migration::materialization::{Materialization, MaterializationPlan};
use dataflow_migration::migration::{Migration, MigrationPlan, State};
use dataflow_migration::operator::{Source, Tmp};
use dataflow_migration::sharding::{Column, Sharding};

fn operator(lookups: &[Column], sources: &[&[Source]], base: bool) -> Tmp {
    Tmp {
        lookups: lookups.to_vec(),
        sources: sources.iter().map(|column| column.to_vec()).collect(),
        base,
    }
}

fn add(migration: &mut Migration<'_>, operator: Tmp, parents: &[u32]) -> u32 {
    let node = migration.graph.add_node(operator);
    for &parent in parents {
        migration.graph.add_edge(parent.into(), node, Sharding::Unsharded);
    }
    migration.added.insert(node.index() as u32);
    node.index() as u32
}

fn state_with_base(sharding: Option<Column>) -> State {
    let mut state = State::default();
    state.graph.add_node(operator(&[], &[], true));
    if let Some(column) = sharding {
        state.assigned_sharding.insert(0, column);
    }
    state
}

fn edges(plan: &MigrationPlan) -> Vec<(usize, usize, Sharding)> {
    let mut edges: Vec<(usize, usize, Sharding)> = plan
        .graph
        .raw_edges()
        .iter()
        .map(|edge| (edge.source().index(), edge.target().index(), edge.weight))
        .collect();
    edges.sort_by_key(|edge| (edge.0, edge.1));
    edges
}

fn full(keys: &[usize]) -> Materialization {
    Materialization { keys: keys.iter().cloned().collect(), plan: Some(MaterializationPlan::Full) }
}

fn partial(keys: &[usize], paths: &[&[Column]]) -> Materialization {
    let paths = paths.iter().map(|path| path.to_vec()).collect();
    Materialization {
        keys: keys.iter().cloned().collect(),
        plan: Some(MaterializationPlan::Partial { paths }),
    }
}

#[test]
fn empty_migration_commits() {
    let mut state = State::default();
    assert_eq!(state.graph.node_count(), 0);
    let plan = state.migrate().commit();
    assert_eq!(plan.graph.node_count(), 0);
    assert!(plan.added.is_empty());
    assert!(plan.shardings.is_empty());
    assert!(plan.shuffles.is_empty());
    assert!(plan.materializations.is_empty());
    state.migrate().commit();
    assert_eq!(state.graph.node_count(), 0);
    assert!(state.in_domain.is_empty());
    assert!(state.sharding.is_empty());
}

#[test]
fn migration_starts_from_a_copy() {
    let mut state = state_with_base(Some((0, 3)));
    state.graph.add_node(Tmp::default());
    state.graph.add_edge(0.into(), 1.into(), Sharding::By(0, 3));
    state.assigned_domain.insert(0, 5);
    let migration = state.migrate();
    assert_eq!(migration.graph.node_count(), 2);
    assert_eq!(migration.graph.edge_count(), 1);
    assert_eq!(migration.graph.find_edge(0.into(), 1.into()), Some(0.into()));
    assert!(migration.graph[petgraph::graph::NodeIndex::new(0)].is_base());
    assert!(migration.added.is_empty());
    assert_eq!(migration.assigned_domain.get(&0), Some(&5));
    assert_eq!(migration.assigned_sharding.get(&0), Some(&(0, 3)));
    assert_eq!(migration.state.graph.node_count(), 2);
}

#[test]
fn adding_nothing_changes_nothing() {
    let mut state = state_with_base(Some((0, 3)));
    state.graph.add_node(operator(&[(0, 9)], &[], false));
    state.graph.add_edge(0.into(), 1.into(), Sharding::By(0, 3));
    let plan = state.migrate().commit();
    assert_eq!(plan.graph.node_count(), 2);
    assert_eq!(edges(&plan), vec![(0, 1, Sharding::By(0, 3))]);
    let shardings: HashMap<u32, Column> = [(0, (0, 3))].into_iter().collect();
    assert_eq!(plan.shardings, shardings);
    assert!(plan.materializations.is_empty());
}

#[test]
fn commit_leaves_the_data_flow() {
    let mut state = state_with_base(Some((0, 0)));
    let mut migration = state.migrate();
    add(&mut migration, Tmp::default(), &[0]);
    let plan = migration.try_commit().unwrap();
    assert_eq!(plan.graph.node_count(), 2);
    assert_eq!(plan.shardings.get(&1), Some(&(0, 0)));
    assert_eq!(state.graph.node_count(), 1);
    assert_eq!(state.graph.edge_count(), 0);
    assert_eq!(state.assigned_sharding.len(), 1);
}

#[test]
fn lookup_columns_resolve() {
    let mut state = state_with_base(None);
    let mut migration = state.migrate();
    let node = add(&mut migration, operator(&[], &[&[(0, Some(6))]], false), &[0]);
    assert_eq!(migration.resolve_for_lookup(node, 0), (0, 6));
    assert_eq!(migration.resolve_for_lookup(0, 2), (0, 2));
}

#[test]
fn partial_state_below_full_state() {
    let mut state = state_with_base(Some((0, 0)));
    let mut migration = state.migrate();
    add(&mut migration, operator(&[], &[&[(0, Some(0))]], false), &[0]);
    add(&mut migration, operator(&[], &[&[(1, Some(0))]], false), &[1]);
    add(&mut migration, operator(&[], &[&[(1, None)]], true), &[1]);
    add(&mut migration, operator(&[(1, 0)], &[], false), &[]);
    add(&mut migration, operator(&[(2, 0)], &[], false), &[]);
    add(&mut migration, operator(&[(3, 0)], &[], false), &[]);
    let plan = migration.try_commit().unwrap();
    assert_eq!(plan.graph.node_count(), 7);
    assert_eq!(
        edges(&plan),
        vec![
            (0, 1, Sharding::Unsharded),
            (1, 2, Sharding::Unsharded),
            (1, 3, Sharding::Unsharded),
            (1, 4, Sharding::By(0, 0)),
            (2, 5, Sharding::By(0, 0)),
            (3, 6, Sharding::By(3, 0)),
        ]
    );
    let materializations: HashMap<u32, Materialization> = [
        (1, full(&[0])),
        (2, partial(&[0], &[&[(2, 0), (1, 0)]])),
        (3, full(&[0])),
    ]
    .into_iter()
    .collect();
    assert_eq!(plan.materializations, materializations);
    let shardings: HashMap<u32, Column> = [
        (0, (0, 0)),
        (1, (0, 0)),
        (2, (0, 0)),
        (3, (3, 0)),
        (4, (0, 0)),
        (5, (0, 0)),
        (6, (3, 0)),
    ]
    .into_iter()
    .collect();
    assert_eq!(plan.shardings, shardings);
    assert!(plan.shuffles.is_empty());
    let added: HashSet<u32> = (1..7).collect();
    assert_eq!(plan.added, added);
}

#[test]
fn key_of_another_sharding_gets_a_mirror() {
    let mut state = state_with_base(Some((0, 0)));
    let mut migration = state.migrate();
    add(&mut migration, operator(&[], &[&[(0, None)], &[(0, None)]], true), &[0]);
    add(&mut migration, operator(&[(1, 0)], &[], false), &[]);
    add(&mut migration, operator(&[(1, 1)], &[], false), &[]);
    let plan = migration.try_commit().unwrap();
    assert_eq!(plan.graph.node_count(), 5);
    assert_eq!(
        edges(&plan),
        vec![
            (0, 1, Sharding::Unsharded),
            (1, 2, Sharding::By(1, 0)),
            (1, 4, Sharding::By(1, 1)),
            (4, 3, Sharding::By(1, 1)),
        ]
    );
    assert_eq!(plan.shuffles, vec![(1, 3), (1, 4)]);
    let materializations: HashMap<u32, Materialization> =
        [(1, full(&[0])), (4, full(&[1]))].into_iter().collect();
    assert_eq!(plan.materializations, materializations);
    let shardings: HashMap<u32, Column> =
        [(0, (0, 0)), (1, (1, 0)), (2, (1, 0)), (3, (1, 1)), (4, (1, 1))].into_iter().collect();
    assert_eq!(plan.shardings, shardings);
    let added: HashSet<u32> = (1..5).collect();
    assert_eq!(plan.added, added);
}

#[test]
fn existing_state_that_is_looked_into_is_keyed() {
    let mut state = state_with_base(Some((0, 4)));
    let mut migration = state.migrate();
    add(&mut migration, operator(&[(0, 4)], &[], false), &[0]);
    let plan = migration.try_commit().unwrap();
    let materializations: HashMap<u32, Materialization> =
        [(0, Materialization { keys: [4].into_iter().collect(), plan: None })].into_iter().collect();
    assert_eq!(plan.materializations, materializations);
    assert_eq!(plan.shardings.get(&1), Some(&(0, 4)));
}

fn failing(state: &mut State, operators: Vec<(Tmp, Vec<u32>)>) -> Option<CommitError> {
    let mut migration = state.migrate();
    for (operator, parents) in operators {
        add(&mut migration, operator, &parents);
    }
    migration.try_commit().err()
}

#[test]
fn lookup_by_an_unknown_column_fails() {
    let mut state = State::default();
    let error = failing(
        &mut state,
        vec![(Tmp::default(), vec![]), (operator(&[(0, 0)], &[], false), vec![0])],
    );
    assert_eq!(error, Some(CommitError::UnknownColumn));
}

#[test]
fn key_by_an_unknown_column_fails() {
    let mut state = state_with_base(None);
    state.graph.add_node(Tmp::default());
    state.assigned_sharding.insert(1, (0, 0));
    let error = failing(&mut state, vec![(operator(&[(0, 0), (1, 7)], &[], false), vec![0])]);
    assert_eq!(error, Some(CommitError::UnknownColumn));
}

#[test]
fn two_keys_of_one_sharding_stay_together() {
    let mut state = state_with_base(Some((0, 0)));
    let mut migration = state.migrate();
    add(&mut migration, operator(&[], &[&[(0, Some(0))], &[(0, Some(0))]], false), &[0]);
    add(&mut migration, operator(&[(1, 0)], &[], false), &[]);
    add(&mut migration, operator(&[(1, 1)], &[], false), &[]);
    let plan = migration.try_commit().unwrap();
    let materializations: HashMap<u32, Materialization> =
        [(1, full(&[0, 1]))].into_iter().collect();
    assert_eq!(plan.materializations, materializations);
    let shardings: HashMap<u32, Column> = (0..4).map(|node| (node, (0, 0))).collect();
    assert_eq!(plan.shardings, shardings);
    assert!(plan.shuffles.is_empty());
}

#[test]
fn two_keys_of_another_sharding_share_a_mirror() {
    let mut state = state_with_base(Some((0, 0)));
    let mut migration = state.migrate();
    let columns: [&[Source]; 3] = [&[(0, Some(0))], &[(0, Some(1))], &[(0, Some(1))]];
    add(&mut migration, operator(&[], &columns, false), &[0]);
    add(&mut migration, operator(&[(1, 0)], &[], false), &[]);
    add(&mut migration, operator(&[(1, 1)], &[], false), &[]);
    add(&mut migration, operator(&[(1, 2)], &[], false), &[]);
    let plan = migration.try_commit().unwrap();
    assert_eq!(
        edges(&plan),
        vec![
            (0, 1, Sharding::Unsharded),
            (1, 2, Sharding::By(0, 0)),
            (1, 5, Sharding::By(0, 1)),
            (5, 3, Sharding::By(0, 1)),
            (5, 4, Sharding::By(0, 1)),
        ]
    );
    let materializations: HashMap<u32, Materialization> =
        [(1, full(&[0])), (5, full(&[1, 2]))].into_iter().collect();
    assert_eq!(plan.materializations, materializations);
    assert_eq!(plan.shuffles, vec![(1, 4), (1, 3), (1, 5)]);
    let shardings: HashMap<u32, Column> = [
        (0, (0, 0)),
        (1, (0, 0)),
        (2, (0, 0)),
        (3, (0, 1)),
        (4, (0, 1)),
        (5, (0, 1)),
    ]
    .into_iter()
    .collect();
    assert_eq!(plan.shardings, shardings);
}

#[test]
fn new_base_table_that_is_looked_into_is_full() {
    let mut state = State::default();
    let mut migration = state.migrate();
    add(&mut migration, operator(&[], &[], true), &[]);
    add(&mut migration, operator(&[(0, 3)], &[], false), &[0]);
    let plan = migration.commit();
    let materializations: HashMap<u32, Materialization> =
        [(0, full(&[3]))].into_iter().collect();
    assert_eq!(plan.materializations, materializations);
    let shardings: HashMap<u32, Column> = [(0, (0, 3)), (1, (0, 3))].into_iter().collect();
    assert_eq!(plan.shardings, shardings);
}

#[test]
fn filters_and_projections_take_the_sharding_of_a_parent() {
    let mut state = state_with_base(Some((0, 2)));
    let mut migration = state.migrate();
    add(&mut migration, operator(&[], &[&[(0, Some(1))]], false), &[0]);
    add(&mut migration, operator(&[], &[&[(1, Some(0))]], false), &[1]);
    let plan = migration.try_commit().unwrap();
    let shardings: HashMap<u32, Column> = (0..3).map(|node| (node, (0, 2))).collect();
    assert_eq!(plan.shardings, shardings);
}

#[test]
fn node_with_a_sharding_needs_no_parent() {
    let mut state = State::default();
    let mut migration = state.migrate();
    add(&mut migration, Tmp::default(), &[]);
    migration.assigned_sharding.insert(0, (0, 0));
    let plan = migration.commit();
    let shardings: HashMap<u32, Column> = [(0, (0, 0))].into_iter().collect();
    assert_eq!(plan.shardings, shardings);
}

#[test]
fn graphs_with_cycles_are_planned() {
    let mut state = state_with_base(Some((0, 0)));
    let mut migration = state.migrate();
    add(&mut migration, Tmp::default(), &[]);
    add(&mut migration, Tmp::default(), &[1]);
    migration.graph.add_edge(2.into(), 1.into(), Sharding::Unsharded);
    migration.graph.add_edge(1.into(), 1.into(), Sharding::Unsharded);
    migration.graph.add_edge(1.into(), 2.into(), Sharding::Unsharded);
    migration.graph.add_edge(0.into(), 2.into(), Sharding::Unsharded);
    let plan = migration.try_commit().unwrap();
    let shardings: HashMap<u32, Column> = (0..3).map(|node| (node, (0, 0))).collect();
    assert_eq!(plan.shardings, shardings);
}

#[test]
fn existing_state_cannot_become_full() {
    let mut state = state_with_base(Some((0, 0)));
    let error = failing(
        &mut state,
        vec![
            (operator(&[(0, 0)], &[], false), vec![0]),
            (operator(&[], &[&[(0, None)]], true), vec![0]),
            (operator(&[(2, 0)], &[], false), vec![]),
        ],
    );
    assert_eq!(error, Some(CommitError::ExistingNotFull));
}

#[test]
fn unsharded_node_without_a_sharded_parent_fails() {
    let mut state = state_with_base(None);
    assert_eq!(
        failing(&mut state, vec![(Tmp::default(), vec![])]),
        Some(CommitError::NoProgress)
    );
    assert_eq!(
        failing(&mut state, vec![(Tmp::default(), vec![0])]),
        Some(CommitError::NoProgress)
    );
    assert_eq!(failing(&mut state, vec![(operator(&[(0, 0)], &[], false), vec![])]), None);
}
