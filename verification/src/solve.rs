//! The longest path of a directed acyclic graph.

use crate::backtrack::{backtrack, best_end, reversed};
use crate::dist::{table_record, table_records};
use crate::forward::{forward_pass, record_is_best, zero};
use crate::graph::{walk_weight, Digraph, Edge, GraphView};
use crate::order::{
    is_topological_order, lemma_order_covers, petgraph_toposort, position, topological_order,
};
use vstd::prelude::*;

verus! {

/// `path` and `total` are a longest path of `g` under `weights`, among the
/// walks that leave a node without incoming edges: `path` lists the nodes of
/// such a walk, `total` is the sum of the weights of its edges, and no such
/// walk weighs more. A graph without nodes has the empty path, with weight
/// zero.
pub open spec fn is_longest_rooted_path(
    g: GraphView,
    weights: Seq<i64>,
    path: Seq<usize>,
    total: int,
) -> bool {
    if g.node_count == 0 {
        path.len() == 0 && total == 0
    } else {
        &&& exists|start: int, es: Seq<int>|
            #[trigger] g.is_rooted_walk(start, es) && g.walk_nodes(start, es) == path && walk_weight(
                weights,
                es,
            ) == total
        &&& forall|start: int, es: Seq<int>|
            #[trigger] g.is_rooted_walk(start, es) ==> walk_weight(weights, es) <= total
    }
}

/// The evaluator is asked for the weight of `a` before that of `b`: the
/// node at which `a` ends stands earlier in `order`, or both end at the same
/// node and `a` is the newer edge.
pub open spec fn asked_before(g: GraphView, order: Seq<usize>, a: int, b: int) -> bool {
    let i = position(order, g.edges[a].target as int);
    let j = position(order, g.edges[b].target as int);
    i < j || (i == j && a > b)
}

/// `weights` holds, for each edge, a weight that the evaluator gives it.
pub open spec fn are_weights_of<F: Fn(Edge) -> Result<i64, E>, E>(
    g: GraphView,
    weight_fn: F,
    weights: Seq<i64>,
) -> bool {
    &&& weights.len() == g.edges.len()
    &&& forall|e: int|
        0 <= e < g.edges.len() ==> call_ensures(weight_fn, (g.edges[e],), Ok(#[trigger] weights[e]))
}

/// The evaluator fails on the edge `e` with `err`, having given a weight to
/// each edge that it is asked about before `e`.
pub open spec fn is_first_failure<F: Fn(Edge) -> Result<i64, E>, E>(
    g: GraphView,
    order: Seq<usize>,
    weight_fn: F,
    e: int,
    err: E,
) -> bool {
    &&& 0 <= e < g.edges.len()
    &&& call_ensures(weight_fn, (g.edges[e],), Err(err))
    &&& forall|a: int|
        0 <= a < g.edges.len() && #[trigger] asked_before(g, order, a, e) ==> exists|w: i64|
            call_ensures(weight_fn, (g.edges[a],), Ok(w))
}

/// Asks the evaluator for the weight of every edge: node by node in the
/// given order, and at each node its incoming edges, the newest first. Stops
/// at the first failure and hands it on.
pub fn evaluate_weights<F: Fn(Edge) -> Result<i64, E>, E>(
    graph: &Digraph,
    order: &Vec<usize>,
    weight_fn: &F,
) -> (r: Result<Vec<i64>, E>)
    requires
        graph.wf(),
        is_topological_order(graph@, order@),
        forall|e: int| 0 <= e < graph@.edges.len() ==> call_requires(*weight_fn, (graph@.edges[e],)),
    ensures
        match r {
            Ok(weights) => are_weights_of(graph@, *weight_fn, weights@),
            Err(err) => exists|e: int| #[trigger] is_first_failure(graph@, order@, *weight_fn, e, err),
        },
{
    let ghost g = graph@;
    let edge_count: usize = graph.edge_count();
    let mut weights: Vec<i64> = Vec::new();
    while weights.len() < edge_count
        invariant
            weights.len() <= edge_count,
        decreases edge_count - weights.len(),
    {
        weights.push(0);
    }
    proof {
        graph.lemma_wf_closed();
        lemma_order_covers(g, order@);
    }
    let mut k: usize = 0;
    while k < order.len()
        invariant
            graph.wf(),
            g == graph@,
            g.closed_under_edges(),
            is_topological_order(g, order@),
            forall|v: int|
                0 <= v < g.node_count ==> 0 <= #[trigger] position(order@, v) < order.len()
                    && order@[position(order@, v)] == v,
            forall|e: int| 0 <= e < g.edges.len() ==> call_requires(*weight_fn, (g.edges[e],)),
            weights.len() == g.edges.len(),
            k <= order.len(),
            forall|e: int|
                0 <= e < g.edges.len() && position(order@, g.edges[e].target as int) < k
                    ==> call_ensures(*weight_fn, (g.edges[e],), Ok(#[trigger] weights[e])),
        decreases order.len() - k,
    {
        let v: usize = order[k];
        let incoming = graph.incoming(v);
        let mut j: usize = incoming.len();
        assert(position(order@, v as int) == k);
        while j > 0
            invariant
                graph.wf(),
                g == graph@,
                g.closed_under_edges(),
                is_topological_order(g, order@),
                forall|v: int|
                    0 <= v < g.node_count ==> 0 <= #[trigger] position(order@, v) < order.len()
                        && order@[position(order@, v)] == v,
                forall|e: int| 0 <= e < g.edges.len() ==> call_requires(*weight_fn, (g.edges[e],)),
                weights.len() == g.edges.len(),
                k < order.len(),
                v == order[k as int],
                position(order@, v as int) == k,
                g.is_incoming_list(v as int, incoming@),
                j <= incoming.len(),
                forall|e: int|
                    0 <= e < g.edges.len() && position(order@, g.edges[e].target as int) < k
                        ==> call_ensures(*weight_fn, (g.edges[e],), Ok(#[trigger] weights[e])),
                forall|t: int|
                    j <= t < incoming.len() ==> call_ensures(
                        *weight_fn,
                        (g.edges[incoming@[t] as int],),
                        Ok(weights[#[trigger] incoming@[t] as int]),
                    ),
            decreases j,
        {
            j = j - 1;
            let e: usize = incoming[j];
            let ghost before = weights@;
            match weight_fn(graph.edge(e)) {
                Ok(w) => {
                    weights.set(e, w);
                    proof {
                        assert forall|t: int| j <= t < incoming.len() implies call_ensures(
                            *weight_fn,
                            (g.edges[incoming@[t] as int],),
                            Ok(weights[#[trigger] incoming@[t] as int]),
                        ) by {
                            if t > j {
                                assert(incoming@[j as int] < incoming@[t]);
                                assert(weights[incoming@[t] as int] == before[incoming@[t] as int]);
                            }
                        }
                    }
                },
                Err(err) => {
                    proof {
                        assert forall|a: int|
                            0 <= a < g.edges.len() && #[trigger] asked_before(
                                g,
                                order@,
                                a,
                                e as int,
                            ) implies exists|w: i64| call_ensures(*weight_fn, (g.edges[a],), Ok(w)) by {
                            let i = position(order@, g.edges[a].target as int);
                            if i < k {
                                assert(call_ensures(*weight_fn, (g.edges[a],), Ok(weights[a])));
                            } else {
                                assert(g.edges[a].target == v);
                                let t = choose|t: int| 0 <= t < incoming@.len() && incoming@[t] == a;
                                if t < j {
                                    assert(incoming@[t] < incoming@[j as int]);
                                }
                                assert(call_ensures(
                                    *weight_fn,
                                    (g.edges[incoming@[t] as int],),
                                    Ok(weights[incoming@[t] as int]),
                                ));
                            }
                        }
                        assert(is_first_failure(g, order@, *weight_fn, e as int, err));
                    }
                    let failed: Result<Vec<i64>, E> = Err(err);
                    assert(failed matches Err(x) && x == err);
                    return failed;
                },
            }
        }
        proof {
            assert forall|e: int|
                0 <= e < g.edges.len() && position(order@, g.edges[e].target as int) < k
                    + 1 implies call_ensures(*weight_fn, (g.edges[e],), Ok(#[trigger] weights[e])) by {
                if position(order@, g.edges[e].target as int) == k {
                    assert(g.edges[e].target == v);
                    let t = choose|t: int| 0 <= t < incoming@.len() && incoming@[t] == e;
                    assert(call_ensures(
                        *weight_fn,
                        (g.edges[incoming@[t] as int],),
                        Ok(weights[incoming@[t] as int]),
                    ));
                }
            }
        }
        k = k + 1;
    }
    Ok(weights)
}

/// The longest path of a graph whose nodes are given in topological order,
/// with the weight of each edge at the edge's index in `weights`.
pub fn longest_path_in_order(graph: &Digraph, order: &Vec<usize>, weights: &Vec<i64>) -> (r: (
    Vec<usize>,
    i128,
))
    requires
        graph.wf(),
        is_topological_order(graph@, order@),
        weights.len() == graph@.edges.len(),
    ensures
        is_longest_rooted_path(graph@, weights@, r.0@, r.1 as int),
{
    if order.len() == 0 {
        return (Vec::new(), zero());
    }
    let ghost g = graph@;
    let pass = forward_pass(graph, order, weights);
    let table = pass.0;
    let ghost walks = pass.1@;
    let ghost records = table_records(table);
    proof {
        assert(record_is_best(g, weights@, order@, records, walks, 0));
    }
    let end = best_end(&table);
    let back = backtrack(&table, end, Ghost(g), Ghost(weights@), Ghost(order@), Ghost(walks));
    let path = reversed(&back);
    let total = table_record(&table, end).weight;
    proof {
        let at = position(order@, end as int);
        let walk = walks[at];
        assert(record_is_best(g, weights@, order@, records, walks, at));
        assert(path@ =~= g.walk_nodes(walk.start, walk.edges));
        assert(g.is_rooted_walk(walk.start, walk.edges));
        graph.lemma_wf_closed();
        lemma_order_covers(g, order@);
        assert forall|start: int, es: Seq<int>| #[trigger] g.is_rooted_walk(start, es) implies walk_weight(
            weights@,
            es,
        ) <= total by {
            let u = g.walk_end(start, es);
            if es.len() > 0 {
                assert(0 <= es[es.len() - 1] < g.edges.len());
            }
            let i = position(order@, u);
            assert(record_is_best(g, weights@, order@, records, walks, i));
            assert(records.dom().contains(u as usize));
        }
    }
    (path, total)
}

/// `sorted` says of `g` what a topological sort says: an order of its
/// nodes, or that it has a cycle.
pub open spec fn is_sort_of(g: GraphView, sorted: Option<Seq<usize>>) -> bool {
    match sorted {
        Some(order) => is_topological_order(g, order),
        None => g.has_cycle(),
    }
}

/// `r` is what the search returns for a graph that was sorted as `sorted`:
/// no path for a cycle; else the first failure of the evaluator, or, with
/// the weights that the evaluator gave, a longest path and its weight.
pub open spec fn is_outcome<F: Fn(Edge) -> Result<i64, E>, E>(
    g: GraphView,
    sorted: Option<Seq<usize>>,
    weight_fn: F,
    r: Result<Option<(Vec<usize>, i128)>, E>,
) -> bool {
    match sorted {
        None => r matches Ok(None),
        Some(order) => match r {
            Ok(None) => false,
            Ok(Some(found)) => exists|weights: Seq<i64>|
                #[trigger] are_weights_of(g, weight_fn, weights) && is_longest_rooted_path(
                    g,
                    weights,
                    found.0@,
                    found.1 as int,
                ),
            Err(err) => exists|e: int| #[trigger] is_first_failure(g, order, weight_fn, e, err),
        },
    }
}

/// The longest path of a directed acyclic graph, as the nodes it passes and
/// the sum of the weights of its edges; `None` for a graph with a cycle; the
/// evaluator's error where it fails on an edge.
///
/// The nodes are sorted topologically by petgraph. The evaluator is then
/// asked once for the weight of each edge, in the order that
/// [`asked_before`] describes, until it fails. The path is the best among
/// those that begin at a node without incoming edges.
///
/// Weights are `i64` and totals `i128`: a path has fewer edges than `usize`
/// has values, so that no total overflows.
pub fn longest_path<F: Fn(Edge) -> Result<i64, E>, E>(graph: &Digraph, weight_fn: F) -> (r: Result<
    Option<(Vec<usize>, i128)>,
    E,
>)
    requires
        graph.wf(),
        forall|e: int| 0 <= e < graph@.edges.len() ==> call_requires(weight_fn, (graph@.edges[e],)),
    ensures
        is_sort_of(graph@, petgraph_toposort(graph@)),
        is_outcome(graph@, petgraph_toposort(graph@), weight_fn, r),
        graph@.has_cycle() <==> r matches Ok(None),
        graph@.node_count == 0 ==> (r matches Ok(Some(found)) && found.0@.len() == 0 && found.1
            == 0),
        graph@.node_count == 1 && graph@.edges.len() == 0 ==> (r matches Ok(Some(found))
            && found.0@ == seq![0usize] && found.1 == 0),
{
    let order = match topological_order(graph) {
        Some(order) => order,
        None => {
            return Ok(None);
        },
    };
    proof {
        graph.lemma_wf_closed();
    }
    match evaluate_weights(graph, &order, &weight_fn) {
        Err(err) => {
            let failed: Result<Option<(Vec<usize>, i128)>, E> = Err(err);
            assert(failed matches Err(x) && x == err);
            failed
        },
        Ok(weights) => {
            let found = longest_path_in_order(graph, &order, &weights);
            proof {
                assert(are_weights_of(graph@, weight_fn, weights@));
                if graph@.node_count == 1 && graph@.edges.len() == 0 {
                    let (start, es) = choose|start: int, es: Seq<int>|
                        #[trigger] graph@.is_rooted_walk(start, es) && graph@.walk_nodes(start, es)
                            == found.0@ && walk_weight(weights@, es) == found.1;
                    if es.len() > 0 {
                        assert(0 <= es[0] < graph@.edges.len());
                    }
                    assert(graph@.walk_nodes(start, es) =~= seq![0usize]);
                }
            }
            Ok(Some(found))
        },
    }
}

} // verus!
