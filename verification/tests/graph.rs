use longest_path::{Digraph, Edge};

#[test]
fn new_graph_is_empty() {
    let graph = Digraph::new();
    assert_eq!(graph.node_count(), 0);
    assert_eq!(graph.edge_count(), 0);
}

#[test]
fn nodes_are_numbered_from_zero() {
    let mut graph = Digraph::new();
    assert_eq!(graph.add_node(), 0);
    assert_eq!(graph.add_node(), 1);
    assert_eq!(graph.add_node(), 2);
    assert_eq!(graph.node_count(), 3);
    assert_eq!(graph.edge_count(), 0);
}

#[test]
fn edges_are_numbered_in_the_order_added() {
    let mut graph = Digraph::new();
    let a = graph.add_node();
    let b = graph.add_node();
    assert_eq!(graph.add_edge(a, b, 7), Some(0));
    assert_eq!(graph.add_edge(b, a, -3), Some(1));
    assert_eq!(graph.add_edge(a, b, 9), Some(2));
    assert_eq!(graph.edge_count(), 3);
    assert_eq!(graph.edge(0), Edge { source: 0, target: 1, weight: 7 });
    assert_eq!(graph.edge(1), Edge { source: 1, target: 0, weight: -3 });
    assert_eq!(graph.edge(2), Edge { source: 0, target: 1, weight: 9 });
}

#[test]
fn edge_to_a_missing_node_is_refused() {
    let mut graph = Digraph::new();
    let a = graph.add_node();
    assert_eq!(graph.add_edge(a, 1, 5), None);
    assert_eq!(graph.add_edge(1, a, 5), None);
    assert_eq!(graph.add_edge(3, 4, 5), None);
    assert_eq!(graph.edge_count(), 0);
    assert_eq!(graph.node_count(), 1);
    assert_eq!(graph.add_edge(a, a, 5), Some(0));
}

#[test]
fn incoming_lists_hold_the_edges_by_target() {
    let mut graph = Digraph::new();
    let a = graph.add_node();
    let b = graph.add_node();
    let c = graph.add_node();
    graph.add_edge(a, c, 1);
    graph.add_edge(a, b, 1);
    graph.add_edge(b, c, 1);
    graph.add_edge(a, c, 1);
    let none: Vec<usize> = Vec::new();
    assert_eq!(graph.incoming(a), &none);
    assert_eq!(graph.incoming(b), &vec![1]);
    assert_eq!(graph.incoming(c), &vec![0, 2, 3]);
}
