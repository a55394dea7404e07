//! What holds of every outcome of the search.

use crate::graph::{lemma_walk_extend, lemma_walk_prefix, walk_weight, Edge, GraphView};
use crate::order::{is_topological_order, lemma_order_covers, position};
use crate::solve::{are_weights_of, asked_before, is_first_failure, is_longest_rooted_path, is_outcome, is_sort_of};
use vstd::prelude::*;

verus! {

/// The evaluator gives each edge one result only.
pub open spec fn is_deterministic<F: Fn(Edge) -> Result<i64, E>, E>(g: GraphView, weight_fn: F) -> bool {
    forall|e: int, a: Result<i64, E>, b: Result<i64, E>|
        0 <= e < g.edges.len() && #[trigger] call_ensures(weight_fn, (g.edges[e],), a)
            && #[trigger] call_ensures(weight_fn, (g.edges[e],), b) ==> a == b
}

/// In a graph with a topological order, some walk from a node without
/// incoming edges arrives at the node at place `i`.
pub proof fn lemma_reached_from_root(g: GraphView, order: Seq<usize>, i: int) -> (walk: (
    int,
    Seq<int>,
))
    requires
        g.closed_under_edges(),
        is_topological_order(g, order),
        0 <= i < order.len(),
    ensures
        g.is_rooted_walk(walk.0, walk.1),
        g.walk_end(walk.0, walk.1) == order[i],
    decreases i,
{
    let v = order[i] as int;
    if g.is_root(v) {
        (v, Seq::empty())
    } else {
        let e = choose|e: int| 0 <= e < g.edges.len() && (#[trigger] g.edges[e]).target == v;
        lemma_order_covers(g, order);
        let p = g.edges[e].source as int;
        let j = position(order, p);
        assert(order[j] == g.edges[e].source && order[i] == g.edges[e].target);
        let before = lemma_reached_from_root(g, order, j);
        lemma_walk_extend(g, Seq::empty(), before.0, before.1, e);
        (before.0, before.1.push(e))
    }
}

/// Every walk is matched by a walk that leaves a node without incoming
/// edges and weighs no less.
pub open spec fn every_walk_is_matched(g: GraphView, weights: Seq<i64>) -> bool {
    forall|start: int, es: Seq<int>| #[trigger]
        g.is_walk(start, es) ==> exists|root: int, rooted: Seq<int>| #[trigger]
            g.is_rooted_walk(root, rooted) && walk_weight(weights, rooted) >= walk_weight(
                weights,
                es,
            )
}

/// Maximality among all walks: the longest path that the search returns is
/// outweighed by no walk whatever, if and only if every walk is matched by
/// one that leaves a node without incoming edges.
pub proof fn lemma_longest_among_all_walks(
    g: GraphView,
    weights: Seq<i64>,
    path: Seq<usize>,
    total: int,
)
    requires
        g.node_count > 0,
        is_longest_rooted_path(g, weights, path, total),
    ensures
        every_walk_is_matched(g, weights) <==> forall|start: int, es: Seq<int>| #[trigger]
            g.is_walk(start, es) ==> walk_weight(weights, es) <= total,
{
    let (first, best) = choose|start: int, es: Seq<int>| #[trigger]
        g.is_rooted_walk(start, es) && g.walk_nodes(start, es) == path && walk_weight(weights, es)
            == total;
    if every_walk_is_matched(g, weights) {
        assert forall|start: int, es: Seq<int>| #[trigger] g.is_walk(start, es) implies walk_weight(
            weights,
            es,
        ) <= total by {
            let (root, rooted) = choose|root: int, rooted: Seq<int>| #[trigger]
                g.is_rooted_walk(root, rooted) && walk_weight(weights, rooted) >= walk_weight(
                    weights,
                    es,
                );
        }
    }
    if forall|start: int, es: Seq<int>| #[trigger]
        g.is_walk(start, es) ==> walk_weight(weights, es) <= total {
        assert forall|start: int, es: Seq<int>| #[trigger] g.is_walk(start, es) implies exists|
            root: int,
            rooted: Seq<int>,
        | #[trigger]
            g.is_rooted_walk(root, rooted) && walk_weight(weights, rooted) >= walk_weight(
                weights,
                es,
            ) by {
            assert(g.is_rooted_walk(first, best));
        }
    }
}

/// A walk in an acyclic graph is matched by a walk to the same node that
/// leaves a node without incoming edges, where no such walk weighs less than
/// nothing.
pub proof fn lemma_matched_from_root(
    g: GraphView,
    order: Seq<usize>,
    weights: Seq<i64>,
    start: int,
    es: Seq<int>,
) -> (walk: (int, Seq<int>))
    requires
        g.closed_under_edges(),
        is_topological_order(g, order),
        forall|s: int, rooted: Seq<int>| #[trigger]
            g.is_rooted_walk(s, rooted) ==> walk_weight(weights, rooted) >= 0,
        g.is_walk(start, es),
    ensures
        g.is_rooted_walk(walk.0, walk.1),
        g.walk_end(walk.0, walk.1) == g.walk_end(start, es),
        walk_weight(weights, walk.1) >= walk_weight(weights, es),
    decreases es.len(),
{
    if es.len() == 0 {
        lemma_order_covers(g, order);
        lemma_reached_from_root(g, order, position(order, start))
    } else {
        lemma_walk_prefix(g, weights, start, es);
        let before = lemma_matched_from_root(g, order, weights, start, es.drop_last());
        let e = es.last();
        assert(0 <= e < g.edges.len());
        lemma_walk_extend(g, weights, before.0, before.1, e);
        (before.0, before.1.push(e))
    }
}

/// Where no edge weighs less than nothing, neither does a walk.
pub proof fn lemma_walk_weight_nonnegative(weights: Seq<i64>, es: Seq<int>)
    requires
        forall|e: int| 0 <= e < weights.len() ==> #[trigger] weights[e] >= 0,
        forall|i: int| 0 <= i < es.len() ==> 0 <= #[trigger] es[i] < weights.len(),
    ensures
        walk_weight(weights, es) >= 0,
    decreases es.len(),
{
    if es.len() > 0 {
        let shorter = es.drop_last();
        assert forall|i: int| 0 <= i < shorter.len() implies 0 <= #[trigger] shorter[i]
            < weights.len() by {
            assert(shorter[i] == es[i]);
        }
        lemma_walk_weight_nonnegative(weights, shorter);
        assert(0 <= es[es.len() - 1] < weights.len());
    }
}

/// In an acyclic graph whose edges all weigh nothing or more, every walk is
/// matched by one that leaves a node without incoming edges: there the
/// longest path that the search returns is a longest walk outright.
pub proof fn lemma_matched_with_nonnegative_weights(
    g: GraphView,
    order: Seq<usize>,
    weights: Seq<i64>,
)
    requires
        g.closed_under_edges(),
        is_topological_order(g, order),
        weights.len() == g.edges.len(),
        forall|e: int| 0 <= e < weights.len() ==> #[trigger] weights[e] >= 0,
    ensures
        every_walk_is_matched(g, weights),
{
    assert forall|s: int, rooted: Seq<int>| #[trigger] g.is_rooted_walk(s, rooted) implies walk_weight(
        weights,
        rooted,
    ) >= 0 by {
        lemma_walk_weight_nonnegative(weights, rooted);
    }
    assert forall|start: int, es: Seq<int>| #[trigger] g.is_walk(start, es) implies exists|
        root: int,
        rooted: Seq<int>,
    | #[trigger]
        g.is_rooted_walk(root, rooted) && walk_weight(weights, rooted) >= walk_weight(weights, es) by {
        let walk = lemma_matched_from_root(g, order, weights, start, es);
        assert(g.is_rooted_walk(walk.0, walk.1));
    }
}

/// A failure is handed on: where the evaluator gives some edge of an acyclic
/// graph no weight, the search returns no path but an error, and the error is
/// the evaluator's first failure.
pub proof fn lemma_failure_is_handed_on<F: Fn(Edge) -> Result<i64, E>, E>(
    g: GraphView,
    order: Seq<usize>,
    weight_fn: F,
    r: Result<Option<(Vec<usize>, i128)>, E>,
    e: int,
)
    requires
        is_outcome(g, Some(order), weight_fn, r),
        0 <= e < g.edges.len(),
        forall|w: i64| !call_ensures(weight_fn, (g.edges[e],), Ok(w)),
    ensures
        r is Err,
        exists|a: int| #[trigger] is_first_failure(g, order, weight_fn, a, r->Err_0),
{
    if r is Ok {
        let found = r->Ok_0->Some_0;
        let weights = choose|weights: Seq<i64>|
            #[trigger] are_weights_of(g, weight_fn, weights) && is_longest_rooted_path(
                g,
                weights,
                found.0@,
                found.1 as int,
            );
        assert(call_ensures(weight_fn, (g.edges[e],), Ok(weights[e])));
    }
}

/// Success is owed: where the evaluator fails on no edge, the search returns
/// no error.
pub proof fn lemma_success_is_owed<F: Fn(Edge) -> Result<i64, E>, E>(
    g: GraphView,
    sorted: Option<Seq<usize>>,
    weight_fn: F,
    r: Result<Option<(Vec<usize>, i128)>, E>,
)
    requires
        is_outcome(g, sorted, weight_fn, r),
        forall|e: int, err: E| 0 <= e < g.edges.len() ==> !call_ensures(weight_fn, (g.edges[e],), Err(err)),
    ensures
        r is Ok,
        sorted is Some ==> r->Ok_0 is Some,
{
}

/// Two searches of one graph with one deterministic evaluator end alike:
/// both find a cycle, or both fail with the same error, or both return a path
/// of the same weight.
pub proof fn lemma_outcomes_agree<F: Fn(Edge) -> Result<i64, E>, E>(
    g: GraphView,
    sorted: Option<Seq<usize>>,
    weight_fn: F,
    first: Result<Option<(Vec<usize>, i128)>, E>,
    second: Result<Option<(Vec<usize>, i128)>, E>,
)
    requires
        g.closed_under_edges(),
        is_sort_of(g, sorted),
        is_deterministic(g, weight_fn),
        is_outcome(g, sorted, weight_fn, first),
        is_outcome(g, sorted, weight_fn, second),
    ensures
        match (first, second) {
            (Ok(None), Ok(None)) => true,
            (Ok(Some(a)), Ok(Some(b))) => a.1 == b.1,
            (Err(a), Err(b)) => a == b,
            _ => false,
        },
{
    if sorted is Some {
        let order = sorted->Some_0;
        match (first, second) {
            (Ok(Some(a)), Ok(Some(b))) => {
                let wa = choose|weights: Seq<i64>|
                    #[trigger] are_weights_of(g, weight_fn, weights) && is_longest_rooted_path(
                        g,
                        weights,
                        a.0@,
                        a.1 as int,
                    );
                let wb = choose|weights: Seq<i64>|
                    #[trigger] are_weights_of(g, weight_fn, weights) && is_longest_rooted_path(
                        g,
                        weights,
                        b.0@,
                        b.1 as int,
                    );
                assert forall|e: int| 0 <= e < g.edges.len() implies wa[e] == wb[e] by {
                    lemma_same_result(g, weight_fn, e, Ok(wa[e]), Ok(wb[e]));
                }
                assert(wa =~= wb);
            },
            (Ok(Some(a)), Err(err)) => {
                let weights = choose|weights: Seq<i64>|
                    #[trigger] are_weights_of(g, weight_fn, weights) && is_longest_rooted_path(
                        g,
                        weights,
                        a.0@,
                        a.1 as int,
                    );
                let e = choose|e: int| #[trigger] is_first_failure(g, order, weight_fn, e, err);
                lemma_weighed_edges_do_not_fail(g, weight_fn, weights, e, err);
            },
            (Err(err), Ok(Some(b))) => {
                let weights = choose|weights: Seq<i64>|
                    #[trigger] are_weights_of(g, weight_fn, weights) && is_longest_rooted_path(
                        g,
                        weights,
                        b.0@,
                        b.1 as int,
                    );
                let e = choose|e: int| #[trigger] is_first_failure(g, order, weight_fn, e, err);
                lemma_weighed_edges_do_not_fail(g, weight_fn, weights, e, err);
            },
            (Err(a), Err(b)) => {
                let ea = choose|e: int| #[trigger] is_first_failure(g, order, weight_fn, e, a);
                let eb = choose|e: int| #[trigger] is_first_failure(g, order, weight_fn, e, b);
                if ea == eb {
                    lemma_same_result(g, weight_fn, ea, Err(a), Err(b));
                } else if asked_before(g, order, ea, eb) {
                    let w = choose|w: i64| call_ensures(weight_fn, (g.edges[ea],), Ok(w));
                    lemma_same_result(g, weight_fn, ea, Err(a), Ok(w));
                } else {
                    assert(asked_before(g, order, eb, ea));
                    let w = choose|w: i64| call_ensures(weight_fn, (g.edges[eb],), Ok(w));
                    lemma_same_result(g, weight_fn, eb, Err(b), Ok(w));
                }
            },
            _ => {},
        }
    }
}

/// Two results that a deterministic evaluator gives one edge are one.
proof fn lemma_same_result<F: Fn(Edge) -> Result<i64, E>, E>(
    g: GraphView,
    weight_fn: F,
    e: int,
    a: Result<i64, E>,
    b: Result<i64, E>,
)
    requires
        is_deterministic(g, weight_fn),
        0 <= e < g.edges.len(),
        call_ensures(weight_fn, (g.edges[e],), a),
        call_ensures(weight_fn, (g.edges[e],), b),
    ensures
        a == b,
{
}

/// A deterministic evaluator that gives every edge a weight fails on none.
proof fn lemma_weighed_edges_do_not_fail<F: Fn(Edge) -> Result<i64, E>, E>(
    g: GraphView,
    weight_fn: F,
    weights: Seq<i64>,
    e: int,
    err: E,
)
    requires
        is_deterministic(g, weight_fn),
        are_weights_of(g, weight_fn, weights),
        0 <= e < g.edges.len(),
    ensures
        !call_ensures(weight_fn, (g.edges[e],), Err(err)),
{
    if call_ensures(weight_fn, (g.edges[e],), Err(err)) {
        lemma_same_result(g, weight_fn, e, Ok(weights[e]), Err(err));
    }
}

} // verus!
