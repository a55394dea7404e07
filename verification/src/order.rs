//! Topological order, computed by petgraph.

use crate::graph::{lemma_walk_prefix, Digraph, Edge, GraphView};
use vstd::set_lib::{lemma_int_range, lemma_set_subset_finite, lemma_subset_equality, set_int_range};
use vstd::prelude::*;

verus! {

/// `order` lists every node once, and every edge leads from a node to one
/// that stands later in it.
pub open spec fn is_topological_order(g: GraphView, order: Seq<usize>) -> bool {
    &&& order.len() == g.node_count
    &&& forall|i: int| 0 <= i < order.len() ==> (#[trigger] order[i]) < g.node_count
    &&& forall|i: int, j: int| 0 <= i < j < order.len() ==> order[i] != order[j]
    &&& forall|e: int, i: int, j: int|
        0 <= e < g.edges.len() && 0 <= i < order.len() && 0 <= j < order.len() && #[trigger] order[i]
            == (#[trigger] g.edges[e]).source && #[trigger] order[j] == g.edges[e].target ==> i
            < j
}

/// A place at which `v` stands in `order`, where it stands in it at all.
pub open spec fn position(order: Seq<usize>, v: int) -> int {
    choose|i: int| 0 <= i < order.len() && order[i] == v
}

/// Every node stands somewhere in a topological order.
pub proof fn lemma_order_covers(g: GraphView, order: Seq<usize>)
    requires
        is_topological_order(g, order),
    ensures
        forall|v: int|
            0 <= v < g.node_count ==> 0 <= #[trigger] position(order, v) < order.len()
                && order[position(order, v)] == v,
{
    let ints = Seq::new(order.len(), |i: int| order[i] as int);
    let all = set_int_range(0, g.node_count as int);
    assert(ints.no_duplicates());
    ints.unique_seq_to_set();
    lemma_int_range(0, g.node_count as int);
    assert(ints.to_set().subset_of(all)) by {
        assert forall|v: int| ints.to_set().contains(v) implies all.contains(v) by {
            let i = choose|i: int| 0 <= i < ints.len() && ints[i] == v;
            assert(order[i] < g.node_count);
        }
    }
    lemma_set_subset_finite(all, ints.to_set());
    lemma_subset_equality(ints.to_set(), all);
    assert forall|v: int| 0 <= v < g.node_count implies 0 <= #[trigger] position(order, v)
        < order.len() && order[position(order, v)] == v by {
        assert(all.contains(v));
        assert(ints.to_set().contains(v));
        let i = choose|i: int| 0 <= i < ints.len() && ints[i] == v;
        assert(order[i] == v);
    }
}

/// Along a walk with at least one edge the position in a topological order
/// grows.
pub proof fn lemma_walk_advances(
    g: GraphView,
    order: Seq<usize>,
    start: int,
    es: Seq<int>,
    i: int,
    j: int,
)
    requires
        g.closed_under_edges(),
        is_topological_order(g, order),
        g.is_walk(start, es),
        es.len() > 0,
        0 <= i < order.len(),
        0 <= j < order.len(),
        order[i] == start,
        order[j] == g.walk_end(start, es),
    ensures
        i < j,
    decreases es.len(),
{
    let e = es.last();
    assert(0 <= e < g.edges.len());
    if es.len() == 1 {
        assert(es[0] == e);
        assert(g.edges[e].source == order[i] && g.edges[e].target == order[j]);
    } else {
        lemma_walk_prefix(g, Seq::empty(), start, es);
        lemma_order_covers(g, order);
        let p = g.edges[e].source as int;
        assert(0 <= p < g.node_count);
        let m = position(order, p);
        lemma_walk_advances(g, order, start, es.drop_last(), i, m);
        assert(g.edges[e].source == order[m] && g.edges[e].target == order[j]);
    }
}

/// A graph that has a topological order has no cycle.
pub proof fn lemma_ordered_is_acyclic(g: GraphView, order: Seq<usize>)
    requires
        g.closed_under_edges(),
        is_topological_order(g, order),
    ensures
        !g.has_cycle(),
{
    if g.has_cycle() {
        let (start, es) = choose|start: int, es: Seq<int>|
            #[trigger] g.is_walk(start, es) && es.len() > 0 && g.walk_end(start, es) == start;
        lemma_order_covers(g, order);
        let i = position(order, start);
        lemma_walk_advances(g, order, start, es, i, i);
    }
}

/// What `petgraph::algo::toposort` returns for a graph with these nodes and
/// these edges, added in this order: the order it found, or `None` for a cycle.
pub uninterp spec fn petgraph_toposort(g: GraphView) -> Option<Seq<usize>>;

/// The graph with the nodes `0 .. node_count` and the given edges.
pub open spec fn graph_of(node_count: usize, edges: Seq<Edge>) -> GraphView {
    GraphView { node_count: node_count as nat, edges }
}

/// Calls `petgraph::algo::toposort` on a petgraph graph with the same nodes
/// and edges. As petgraph documents it: for an acyclic graph the result is a
/// vector of all nodes in which each node stands before its successors;
/// otherwise (a self loop counts) there is no result. Adding an edge panics
/// where one of its ends is not a node, hence the precondition; the petgraph
/// graph is indexed by `usize`, for which petgraph sets no limit of its own
/// on the number of nodes or edges.
#[verifier::external_body]
fn toposort(node_count: usize, edges: &Vec<Edge>) -> (r: Option<Vec<usize>>)
    requires
        graph_of(node_count, edges@).closed_under_edges(),
    ensures
        match r {
            Some(order) => petgraph_toposort(graph_of(node_count, edges@)) == Some(order@)
                && is_topological_order(graph_of(node_count, edges@), order@),
            None => petgraph_toposort(graph_of(node_count, edges@)).is_none() && graph_of(
                node_count,
                edges@,
            ).has_cycle(),
        },
{
    let mut g = petgraph::graph::Graph::<(), (), petgraph::Directed, usize>::default();
    for _ in 0..node_count {
        g.add_node(());
    }
    for e in edges.iter() {
        g.add_edge(e.source.into(), e.target.into(), ());
    }
    match petgraph::algo::toposort(&g, None) {
        Ok(order) => Some(order.into_iter().map(|v| v.index()).collect()),
        Err(_) => None,
    }
}

/// The nodes in the topological order that petgraph finds, or `None` for a
/// graph with a cycle.
pub fn topological_order(graph: &Digraph) -> (r: Option<Vec<usize>>)
    requires
        graph.wf(),
    ensures
        r matches Some(order) ==> is_topological_order(graph@, order@),
        r is None <==> graph@.has_cycle(),
        (match r {
            Some(order) => Some(order@),
            None => None,
        }) == petgraph_toposort(graph@),
{
    let node_count: usize = graph.node_count();
    let edges = graph.edges();
    proof {
        graph.lemma_wf_closed();
        assert(graph_of(node_count, edges@) == graph@);
    }
    let r = toposort(node_count, edges);
    proof {
        if r is Some {
            lemma_ordered_is_acyclic(graph@, r->Some_0@);
        }
    }
    r
}

} // verus!
