use std::collections::{BinaryHeap, HashSet};

use dataflow_migration::dataflow::FlowGraph;
use dataflow_migration::operator::Tmp;
use dataflow_migration::reshard::visits_of_new;
use dataflow_migration::visit::{VisitHeap, VisitNode};

fn between() -> Vec<VisitNode> {
    let a = VisitNode { logical: (1, 0), index: 1 };
    let b = VisitNode { logical: (2, 0), index: 2 };
    let x = VisitNode { logical: (1, usize::MAX / 2), index: 3 };
    let y = VisitNode { logical: (1, usize::MAX / 2 / 2), index: 4 };
    let z = VisitNode { logical: (1, 3 * (usize::MAX / 2 / 2)), index: 5 };
    vec![a, b, x, y, z]
}

#[test]
fn visitnode_order() {
    let nodes = between();
    let (a, b, x, y, z) = (nodes[0], nodes[1], nodes[2], nodes[3], nodes[4]);
    let mut heap = BinaryHeap::new();
    let mut visits = VisitHeap::new();
    for node in nodes {
        heap.push(node);
        visits.push(node);
    }
    let mut got = Vec::new();
    while let Some(o) = heap.pop() {
        got.push(o);
    }
    let topo = vec![b, z, x, y, a];
    assert_eq!(got, topo);
    let mut popped = Vec::new();
    while let Some(o) = visits.pop() {
        popped.push(o);
    }
    assert_eq!(popped, topo);
}

#[test]
fn heap_drains_in_order() {
    let nodes = between();
    let mut visits = VisitHeap::new();
    for node in between() {
        visits.push(node);
    }
    let order = visits.into_order();
    assert_eq!(order, vec![nodes[1], nodes[4], nodes[2], nodes[3], nodes[0]]);
}

#[test]
fn empty_heap_has_nothing_to_pop() {
    let mut visits = VisitHeap::new();
    assert_eq!(visits.pop(), None);
    assert!(visits.into_order().is_empty());
}

#[test]
fn equal_weights_go_by_index() {
    let low = VisitNode { logical: (1, 7), index: 2 };
    let high = VisitNode { logical: (1, 7), index: 9 };
    let mut visits = VisitHeap::new();
    visits.push(low);
    visits.push(high);
    visits.push(low);
    assert_eq!(visits.pop(), Some(high));
    assert_eq!(visits.pop(), Some(low));
    assert_eq!(visits.pop(), Some(low));
    assert_eq!(visits.pop(), None);
}

#[test]
fn new_nodes_are_visited_by_index() {
    let mut graph = FlowGraph::default();
    for _ in 0..5 {
        graph.add_node(Tmp::default());
    }
    let added: HashSet<u32> = [1, 4, 2].into_iter().collect();
    let order = visits_of_new(&graph, &added).into_order();
    let indices: Vec<u32> = order.iter().map(|visit| visit.index).collect();
    assert_eq!(indices, vec![4, 2, 1]);
    assert_eq!(order[0].logical, (4, 0));
}
