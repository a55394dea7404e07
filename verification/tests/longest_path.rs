use longest_path::{longest_path, Digraph, Edge};

fn weight_of(edge: Edge) -> Result<i64, &'static str> {
    Ok(edge.weight)
}

fn node(graph: &mut Digraph) -> usize {
    graph.add_node()
}

fn edge(graph: &mut Digraph, source: usize, target: usize, weight: i64) {
    assert!(graph.add_edge(source, target, weight).is_some());
}

#[test]
fn test_empty_graph() {
    let graph = Digraph::new();
    let weight_fn = |_: Edge| Ok::<i64, &str>(0);
    let result = longest_path(&graph, weight_fn);
    assert_eq!(result, Ok(Some((vec![], 0))));
}

#[test]
fn test_single_node_graph() {
    let mut graph = Digraph::new();
    node(&mut graph);

    let weight_fn = |_: Edge| Ok::<i64, &str>(0);
    let result = longest_path(&graph, weight_fn);
    assert_eq!(result, Ok(Some((vec![0], 0))));
}

#[test]
fn test_dag_with_multiple_paths() {
    let mut graph = Digraph::new();
    let n0 = node(&mut graph);
    let n1 = node(&mut graph);
    let n2 = node(&mut graph);
    edge(&mut graph, n0, n1, 1);
    edge(&mut graph, n0, n2, 2);
    edge(&mut graph, n1, n2, 1);

    let result = longest_path(&graph, weight_of);
    assert_eq!(result, Ok(Some((vec![0, 2], 2))));
}

#[test]
fn test_graph_with_cycle() {
    let mut graph = Digraph::new();
    let n0 = node(&mut graph);
    let n1 = node(&mut graph);
    edge(&mut graph, n0, n1, 1);
    edge(&mut graph, n1, n0, 1);

    let result = longest_path(&graph, weight_of);
    assert_eq!(result, Ok(None));
}

#[test]
fn test_negative_weights() {
    let mut graph = Digraph::new();
    let n0 = node(&mut graph);
    let n1 = node(&mut graph);
    let n2 = node(&mut graph);
    edge(&mut graph, n0, n1, -1);
    edge(&mut graph, n0, n2, 2);
    edge(&mut graph, n1, n2, -1);

    let result = longest_path(&graph, weight_of);
    assert_eq!(result, Ok(Some((vec![0, 2], 2))));
}

#[test]
fn test_longest_path_in_stable_digraph() {
    let mut graph = Digraph::new();
    let n0 = node(&mut graph);
    let n1 = node(&mut graph);
    let n2 = node(&mut graph);
    edge(&mut graph, n0, n1, 1);
    edge(&mut graph, n0, n2, 2);
    edge(&mut graph, n1, n2, 1);

    let result = longest_path(&graph, weight_of);
    assert_eq!(result, Ok(Some((vec![0, 2], 2))));
}

#[test]
fn test_error_handling() {
    let mut graph = Digraph::new();
    let n0 = node(&mut graph);
    let n1 = node(&mut graph);
    let n2 = node(&mut graph);
    edge(&mut graph, n0, n1, 1);
    edge(&mut graph, n0, n2, 2);
    edge(&mut graph, n1, n2, 1);

    let weight_fn = |edge: Edge| {
        if edge.weight == 2 {
            Err("Error: edge weight is 2")
        } else {
            Ok::<i64, &str>(edge.weight)
        }
    };
    let result = longest_path(&graph, weight_fn);
    assert_eq!(result, Err("Error: edge weight is 2"));
}
