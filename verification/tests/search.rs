use longest_path::{
    evaluate_weights, longest_path, longest_path_in_order, topological_order, Digraph, Edge,
};
use std::cell::Cell;

fn stored(edge: Edge) -> Result<i64, String> {
    Ok(edge.weight)
}

fn graph_of(nodes: usize, edges: &[(usize, usize, i64)]) -> Digraph {
    let mut graph = Digraph::new();
    for _ in 0..nodes {
        graph.add_node();
    }
    for &(source, target, weight) in edges {
        assert!(graph.add_edge(source, target, weight).is_some());
    }
    graph
}

/// The weight of the heaviest walk along `path`, if its nodes are joined by edges.
fn weight_along(edges: &[(usize, usize, i64)], path: &[usize]) -> Option<i128> {
    let mut total: i128 = 0;
    for pair in path.windows(2) {
        let best = edges
            .iter()
            .filter(|&&(source, target, _)| source == pair[0] && target == pair[1])
            .map(|&(_, _, weight)| weight)
            .max();
        match best {
            Some(weight) => total += weight as i128,
            None => return None,
        }
    }
    Some(total)
}

/// The weight of the heaviest walk of an acyclic graph that leaves `from`.
fn heaviest_from(edges: &[(usize, usize, i64)], from: usize) -> i128 {
    let mut best: i128 = 0;
    for &(source, target, weight) in edges {
        if source == from {
            let total: i128 = weight as i128 + heaviest_from(edges, target);
            if total > best {
                best = total;
            }
        }
    }
    best
}

#[test]
fn weight_is_the_sum_along_the_path() {
    let edges = [(0, 1, 4), (1, 2, 6), (0, 2, 3), (2, 3, 5), (1, 3, 20), (4, 3, 1)];
    let graph = graph_of(5, &edges);
    let (path, total) = longest_path(&graph, stored).unwrap().unwrap();
    assert_eq!(total, 24);
    assert_eq!(path, vec![0, 1, 3]);
    assert_eq!(weight_along(&edges, &path), Some(total));
}

#[test]
fn no_walk_weighs_more() {
    let edges = [
        (0, 1, 2),
        (0, 2, 7),
        (1, 3, 9),
        (2, 3, 1),
        (3, 4, 0),
        (2, 5, 3),
        (5, 4, 4),
        (6, 5, 8),
        (1, 5, 2),
    ];
    let graph = graph_of(7, &edges);
    let (path, total) = longest_path(&graph, stored).unwrap().unwrap();
    let mut heaviest: i128 = 0;
    for start in 0..7 {
        heaviest = heaviest.max(heaviest_from(&edges, start));
    }
    assert_eq!(heaviest, 14);
    assert_eq!(total, heaviest);
    assert_eq!(weight_along(&edges, &path), Some(total));
}

#[test]
fn path_begins_at_a_node_without_incoming_edges() {
    // The walk 1 -> 2 weighs 3, but node 1 has an incoming edge, and every
    // walk from node 0 that goes further than node 0 weighs less than nothing.
    let graph = graph_of(3, &[(0, 1, -5), (1, 2, 3)]);
    assert_eq!(longest_path(&graph, stored), Ok(Some((vec![0], 0))));
}

#[test]
fn negative_edge_is_taken_where_it_pays() {
    let graph = graph_of(3, &[(0, 1, -5), (1, 2, 30)]);
    assert_eq!(longest_path(&graph, stored), Ok(Some((vec![0, 1, 2], 25))));
}

#[test]
fn all_paths_negative() {
    let graph = graph_of(2, &[(0, 1, -4)]);
    assert_eq!(longest_path(&graph, stored), Ok(Some((vec![0], 0))));
}

#[test]
fn self_loop_is_a_cycle() {
    let graph = graph_of(2, &[(0, 1, 1), (1, 1, 1)]);
    assert_eq!(longest_path(&graph, stored), Ok(None));
}

#[test]
fn cycle_is_found_whatever_the_weights() {
    let graph = graph_of(4, &[(0, 1, -7), (1, 2, 0), (2, 3, 100), (3, 1, i64::MIN)]);
    assert_eq!(longest_path(&graph, stored), Ok(None));
}

#[test]
fn evaluator_is_not_asked_about_a_cyclic_graph() {
    let graph = graph_of(2, &[(0, 1, 1), (1, 0, 1)]);
    let asked = Cell::new(0);
    let result = longest_path(&graph, |_: Edge| {
        asked.set(asked.get() + 1);
        Err::<i64, &str>("asked")
    });
    assert_eq!(result, Ok(None));
    assert_eq!(asked.get(), 0);
}

#[test]
fn nodes_without_edges() {
    let graph = graph_of(3, &[]);
    let (path, total) = longest_path(&graph, stored).unwrap().unwrap();
    assert_eq!(total, 0);
    assert_eq!(path.len(), 1);
    assert!(path[0] < 3);
}

#[test]
fn order_of_the_nodes_need_not_be_topological() {
    let graph = graph_of(4, &[(3, 2, 1), (2, 1, 1), (1, 0, 1)]);
    assert_eq!(longest_path(&graph, stored), Ok(Some((vec![3, 2, 1, 0], 3))));
}

#[test]
fn heavier_of_two_parallel_edges_counts() {
    let graph = graph_of(2, &[(0, 1, 1), (0, 1, 5), (0, 1, 3)]);
    assert_eq!(longest_path(&graph, stored), Ok(Some((vec![0, 1], 5))));
}

#[test]
fn totals_do_not_overflow() {
    let graph = graph_of(3, &[(0, 1, i64::MAX), (1, 2, i64::MAX)]);
    let expected: i128 = 18446744073709551614;
    assert_eq!(longest_path(&graph, stored), Ok(Some((vec![0, 1, 2], expected))));
    let graph = graph_of(3, &[(0, 1, i64::MIN), (1, 2, i64::MIN), (0, 2, i64::MIN)]);
    assert_eq!(longest_path(&graph, stored), Ok(Some((vec![0], 0))));
}

#[test]
fn evaluator_decides_the_weight() {
    let graph = graph_of(3, &[(0, 1, 1), (0, 2, 2), (1, 2, 1)]);
    let result = longest_path(&graph, |edge: Edge| Ok::<i64, ()>(10 - 4 * edge.weight));
    assert_eq!(result, Ok(Some((vec![0, 1, 2], 12))));
}

#[test]
fn failure_is_handed_on() {
    let graph = graph_of(4, &[(0, 1, 1), (1, 2, 2), (2, 3, 3)]);
    let result = longest_path(&graph, |edge: Edge| {
        if edge.weight == 3 {
            Err(format!("edge {} -> {}", edge.source, edge.target))
        } else {
            Ok(edge.weight)
        }
    });
    assert_eq!(result, Err("edge 2 -> 3".to_string()));
}

#[test]
fn first_failure_is_the_one_returned() {
    // Edges into node 1 are asked about before those into node 2.
    let graph = graph_of(3, &[(1, 2, 20), (0, 1, 10)]);
    let result = longest_path(&graph, |edge: Edge| Err::<i64, i64>(edge.weight));
    assert_eq!(result, Err(10));
}

#[test]
fn newest_incoming_edge_is_asked_first() {
    let graph = graph_of(3, &[(0, 2, 1), (1, 2, 2)]);
    let result = longest_path(&graph, |edge: Edge| Err::<i64, i64>(edge.weight));
    assert_eq!(result, Err(2));
}

#[test]
fn each_edge_is_asked_once() {
    let graph = graph_of(4, &[(0, 1, 1), (0, 2, 1), (1, 3, 1), (2, 3, 1), (0, 3, 1)]);
    let asked = Cell::new(0);
    let result = longest_path(&graph, |edge: Edge| {
        asked.set(asked.get() + 1);
        Ok::<i64, ()>(edge.weight)
    });
    assert_eq!(asked.get(), 5);
    assert_eq!(result.unwrap().unwrap().1, 2);
}

#[test]
fn nothing_is_asked_after_a_failure() {
    let graph = graph_of(4, &[(0, 1, 1), (1, 2, 2), (2, 3, 3)]);
    let asked = Cell::new(0);
    let result = longest_path(&graph, |edge: Edge| {
        asked.set(asked.get() + 1);
        if edge.weight == 2 {
            Err("two")
        } else {
            Ok(edge.weight)
        }
    });
    assert_eq!(result, Err("two"));
    assert_eq!(asked.get(), 2);
}

#[test]
fn second_search_gives_the_same() {
    let graph = graph_of(5, &[(0, 1, 3), (1, 2, 3), (0, 2, 6), (3, 4, 6), (2, 4, 0)]);
    let first = longest_path(&graph, stored);
    let second = longest_path(&graph, stored);
    assert_eq!(first.clone().unwrap().unwrap().1, 6);
    assert_eq!(first, second);
    let failing = |edge: Edge| if edge.source == 3 { Err(edge.target) } else { Ok(edge.weight) };
    assert_eq!(longest_path(&graph, failing), Err(4));
    assert_eq!(longest_path(&graph, failing), Err(4));
}

#[test]
fn topological_order_of_a_dag() {
    let edges = [(2, 0, 1), (0, 1, 1), (3, 1, 1), (2, 3, 1)];
    let graph = graph_of(4, &edges);
    let order = topological_order(&graph).unwrap();
    let mut sorted = order.clone();
    sorted.sort();
    assert_eq!(sorted, vec![0, 1, 2, 3]);
    for &(source, target, _) in &edges {
        let from = order.iter().position(|&v| v == source).unwrap();
        let to = order.iter().position(|&v| v == target).unwrap();
        assert!(from < to);
    }
}

#[test]
fn topological_order_of_a_cycle() {
    let graph = graph_of(3, &[(0, 1, 1), (1, 2, 1), (2, 0, 1)]);
    assert_eq!(topological_order(&graph), None);
    assert_eq!(topological_order(&Digraph::new()), Some(vec![]));
}

#[test]
fn weights_are_stored_by_edge() {
    let graph = graph_of(3, &[(1, 2, 5), (0, 1, 7), (0, 2, 9)]);
    let order = vec![0, 1, 2];
    let doubled = |edge: Edge| Ok::<i64, ()>(2 * edge.weight);
    assert_eq!(evaluate_weights(&graph, &order, &doubled), Ok(vec![10, 14, 18]));
    let failing = |edge: Edge| if edge.weight > 6 { Err(edge.weight) } else { Ok(edge.weight) };
    assert_eq!(evaluate_weights(&graph, &order, &failing), Err(7));
    let order = vec![0, 1, 2];
    let late = |edge: Edge| if edge.target == 2 { Err(edge.weight) } else { Ok(edge.weight) };
    assert_eq!(evaluate_weights(&graph, &order, &late), Err(9));
}

#[test]
fn search_in_a_given_order() {
    let graph = graph_of(4, &[(0, 1, 1), (2, 1, 1), (1, 3, 1)]);
    let ones = vec![1, 1, 1];
    let (path, total) = longest_path_in_order(&graph, &vec![0, 2, 1, 3], &ones);
    assert_eq!(total, 2);
    assert_eq!(path, vec![0, 1, 3]);
    let (path, total) = longest_path_in_order(&graph, &vec![2, 0, 1, 3], &vec![1, 4, -2]);
    assert_eq!(total, 4);
    assert_eq!(path, vec![2, 1]);
    let empty: Vec<usize> = Vec::new();
    assert_eq!(longest_path_in_order(&Digraph::new(), &empty, &Vec::new()), (vec![], 0));
}
