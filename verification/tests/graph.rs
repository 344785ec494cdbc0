use std::collections::HashMap;

use neat::genome::topological_sort;

fn position(order: &[u32], n: u32) -> usize {
    order.iter().position(|&x| x == n).unwrap()
}

#[test]
fn topological_sort_orders_a_dag() {
    let mut edges: HashMap<u32, Vec<u32>> = HashMap::new();
    edges.insert(0, vec![2, 3]);
    edges.insert(1, vec![3]);
    edges.insert(2, vec![4]);
    edges.insert(3, vec![4]);
    edges.insert(4, vec![]);
    let order = topological_sort(&edges);
    assert_eq!(order.len(), 5);
    for (&a, children) in &edges {
        for &b in children {
            assert!(position(&order, a) < position(&order, b));
        }
    }
}

#[test]
fn topological_sort_lists_children_that_are_not_keys() {
    let mut edges: HashMap<u32, Vec<u32>> = HashMap::new();
    edges.insert(0, vec![9]);
    let order = topological_sort(&edges);
    assert_eq!(order, vec![0, 9]);
}

#[test]
fn topological_sort_of_empty_graph() {
    let edges: HashMap<u32, Vec<u32>> = HashMap::new();
    assert!(topological_sort(&edges).is_empty());
}

#[test]
fn topological_sort_terminates_on_a_cycle() {
    let mut edges: HashMap<u32, Vec<u32>> = HashMap::new();
    edges.insert(0, vec![1]);
    edges.insert(1, vec![2]);
    edges.insert(2, vec![0]);
    let mut order = topological_sort(&edges);
    order.sort();
    assert_eq!(order, vec![0, 1, 2]);
}
