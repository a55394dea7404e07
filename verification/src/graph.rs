//! A directed multigraph with dense node indices, and what a walk in it is.

use vstd::prelude::*;

verus! {

/// A directed edge together with the payload that a weight evaluator reads.
#[derive(Clone, Copy, Debug, PartialEq, Eq, Structural)]
pub struct Edge {
    pub source: usize,
    pub target: usize,
    pub weight: i64,
}

/// The mathematical content of a [`Digraph`]: nodes are `0 .. node_count`,
/// edges are numbered by their position in `edges`.
pub struct GraphView {
    pub node_count: nat,
    pub edges: Seq<Edge>,
}

impl GraphView {
    /// Both ends of every edge are nodes.
    pub open spec fn closed_under_edges(self) -> bool {
        forall|e: int|
            0 <= e < self.edges.len() ==> (#[trigger] self.edges[e]).source < self.node_count
                && self.edges[e].target < self.node_count
    }

    /// No edge ends at `v`.
    pub open spec fn is_root(self, v: int) -> bool {
        forall|e: int| 0 <= e < self.edges.len() ==> (#[trigger] self.edges[e]).target != v
    }

    /// `es` is a chain of edges that leaves `start`: each edge begins where
    /// the one before it ends. The chain may be empty.
    pub open spec fn is_walk(self, start: int, es: Seq<int>) -> bool {
        &&& 0 <= start < self.node_count
        &&& forall|i: int| 0 <= i < es.len() ==> 0 <= #[trigger] es[i] < self.edges.len()
        &&& es.len() > 0 ==> self.edges[es[0]].source == start
        &&& forall|i: int|
            0 <= i < es.len() - 1 ==> self.edges[#[trigger] es[i]].target == self.edges[es[i
                + 1]].source
    }

    /// A walk that leaves a node without incoming edges.
    pub open spec fn is_rooted_walk(self, start: int, es: Seq<int>) -> bool {
        self.is_walk(start, es) && self.is_root(start)
    }

    /// The node at which the walk arrives.
    pub open spec fn walk_end(self, start: int, es: Seq<int>) -> int {
        if es.len() == 0 {
            start
        } else {
            self.edges[es.last()].target as int
        }
    }

    /// The nodes that the walk passes, from `start` to its end.
    pub open spec fn walk_nodes(self, start: int, es: Seq<int>) -> Seq<usize> {
        seq![start as usize] + Seq::new(es.len(), |i: int| self.edges[es[i]].target)
    }

    /// Some walk with at least one edge returns to where it left.
    pub open spec fn has_cycle(self) -> bool {
        exists|start: int, es: Seq<int>|
            #[trigger] self.is_walk(start, es) && es.len() > 0 && self.walk_end(start, es)
                == start
    }

    /// `list` holds, in increasing order, exactly the edges that end at `v`.
    pub open spec fn is_incoming_list(self, v: int, list: Seq<usize>) -> bool {
        &&& forall|i: int|
            0 <= i < list.len() ==> (#[trigger] list[i]) < self.edges.len()
                && self.edges[list[i] as int].target == v
        &&& forall|i: int, j: int| 0 <= i < j < list.len() ==> list[i] < list[j]
        &&& forall|e: int|
            0 <= e < self.edges.len() && (#[trigger] self.edges[e]).target == v ==> exists|i: int|
                0 <= i < list.len() && list[i] == e
    }
}

/// The sum of the weights of the edges of a walk.
pub open spec fn walk_weight(weights: Seq<i64>, es: Seq<int>) -> int
    decreases es.len(),
{
    if es.len() == 0 {
        0
    } else {
        walk_weight(weights, es.drop_last()) + weights[es.last()]
    }
}

/// A walk with its last edge taken off is a walk to where that edge begins,
/// and the edge's weight is what the walk loses.
pub proof fn lemma_walk_prefix(g: GraphView, weights: Seq<i64>, start: int, es: Seq<int>)
    requires
        g.is_walk(start, es),
        es.len() > 0,
    ensures
        g.is_walk(start, es.drop_last()),
        g.walk_end(start, es.drop_last()) == g.edges[es.last()].source,
        walk_weight(weights, es) == walk_weight(weights, es.drop_last()) + weights[es.last()],
{
    let prefix = es.drop_last();
    assert forall|i: int| 0 <= i < prefix.len() implies 0 <= #[trigger] prefix[i]
        < g.edges.len() by {
        assert(prefix[i] == es[i]);
    }
    assert forall|i: int| 0 <= i < prefix.len() - 1 implies g.edges[#[trigger] prefix[i]].target
        == g.edges[prefix[i + 1]].source by {
        assert(prefix[i] == es[i]);
        assert(prefix[i + 1] == es[i + 1]);
    }
    if prefix.len() > 0 {
        assert(prefix[0] == es[0]);
        let i = es.len() - 2;
        assert(prefix.last() == es[i]);
        assert(g.edges[es[i]].target == g.edges[es[i + 1]].source);
    }
}

/// A walk that arrives where the edge `e` begins can go on along `e`.
pub proof fn lemma_walk_extend(g: GraphView, weights: Seq<i64>, start: int, es: Seq<int>, e: int)
    requires
        g.is_walk(start, es),
        0 <= e < g.edges.len(),
        g.edges[e].source == g.walk_end(start, es),
    ensures
        g.is_walk(start, es.push(e)),
        g.walk_end(start, es.push(e)) == g.edges[e].target,
        walk_weight(weights, es.push(e)) == walk_weight(weights, es) + weights[e],
        g.walk_nodes(start, es.push(e)) == g.walk_nodes(start, es).push(g.edges[e].target),
{
    let longer = es.push(e);
    assert(longer.drop_last() == es);
    assert(longer.last() == e);
    assert forall|i: int| 0 <= i < longer.len() implies 0 <= #[trigger] longer[i]
        < g.edges.len() by {
        if i < es.len() {
            assert(longer[i] == es[i]);
        }
    }
    assert forall|i: int| 0 <= i < longer.len() - 1 implies g.edges[#[trigger] longer[i]].target
        == g.edges[longer[i + 1]].source by {
        assert(longer[i] == es[i]);
        if i + 1 < es.len() {
            assert(longer[i + 1] == es[i + 1]);
        } else {
            assert(es.last() == es[i]);
        }
    }
    if es.len() > 0 {
        assert(longer[0] == es[0]);
    }
    assert(g.walk_nodes(start, longer) =~= g.walk_nodes(start, es).push(g.edges[e].target));
}

/// A directed graph that keeps, for every node, the list of its incoming edges.
pub struct Digraph {
    edges: Vec<Edge>,
    incoming: Vec<Vec<usize>>,
}

impl View for Digraph {
    type V = GraphView;

    closed spec fn view(&self) -> GraphView {
        GraphView { node_count: self.incoming.len() as nat, edges: self.edges@ }
    }
}

impl Digraph {
    /// The incoming lists agree with the edge list.
    pub closed spec fn wf(&self) -> bool {
        &&& self@.closed_under_edges()
        &&& forall|v: int|
            0 <= v < self.incoming.len() ==> self@.is_incoming_list(v, #[trigger] self.incoming[v]@)
    }

    /// A graph without nodes.
    pub fn new() -> (g: Digraph)
        ensures
            g.wf(),
            g@.node_count == 0,
            g@.edges == Seq::<Edge>::empty(),
    {
        Digraph { edges: Vec::new(), incoming: Vec::new() }
    }

    /// The number of nodes; the nodes are `0 .. node_count()`.
    pub fn node_count(&self) -> (n: usize)
        ensures
            n == self@.node_count,
    {
        self.incoming.len()
    }

    /// The number of edges; the edges are numbered `0 .. edge_count()`.
    pub fn edge_count(&self) -> (n: usize)
        ensures
            n == self@.edges.len(),
    {
        self.edges.len()
    }

    /// All edges, each at its index.
    pub fn edges(&self) -> (list: &Vec<Edge>)
        ensures
            list@ == self@.edges,
    {
        &self.edges
    }

    /// The edge with index `e`.
    pub fn edge(&self, e: usize) -> (r: Edge)
        requires
            e < self@.edges.len(),
        ensures
            r == self@.edges[e as int],
    {
        self.edges[e]
    }

    /// The edges that end at `v`, oldest first.
    pub fn incoming(&self, v: usize) -> (list: &Vec<usize>)
        requires
            self.wf(),
            v < self@.node_count,
        ensures
            self@.is_incoming_list(v as int, list@),
    {
        &self.incoming[v]
    }

    /// Every graph made by this module's functions is closed under its edges.
    pub proof fn lemma_wf_closed(&self)
        requires
            self.wf(),
        ensures
            self@.closed_under_edges(),
    {
    }

    /// Adds a node without edges and returns its index.
    pub fn add_node(&mut self) -> (v: usize)
        requires
            old(self).wf(),
        ensures
            final(self).wf(),
            v == old(self)@.node_count,
            final(self)@.node_count == old(self)@.node_count + 1,
            final(self)@.edges == old(self)@.edges,
    {
        let v: usize = self.incoming.len();
        self.incoming.push(Vec::new());
        proof {
            assert(self@.edges == old(self)@.edges);
            assert(old(self)@.closed_under_edges());
            assert forall|x: int| 0 <= x < self@.edges.len() implies (#[trigger] self@.edges[x]).source
                < self@.node_count && self@.edges[x].target < self@.node_count by {
                assert(old(self)@.edges[x].target < old(self)@.node_count);
            }
            assert forall|u: int| 0 <= u < self.incoming.len() implies self@.is_incoming_list(
                u,
                #[trigger] self.incoming[u]@,
            ) by {
                if u < v {
                    assert(self.incoming[u]@ == old(self).incoming[u]@);
                    assert(old(self)@.is_incoming_list(u, old(self).incoming[u]@));
                } else {
                    assert(self.incoming[u]@.len() == 0);
                    assert forall|x: int| 0 <= x < self@.edges.len() implies (
                    #[trigger] self@.edges[x]).target != u by {
                        assert(old(self)@.edges[x].target < old(self)@.node_count);
                    }
                }
            }
        }
        v
    }

    /// Adds an edge from `source` to `target` and returns its index, or
    /// changes nothing and returns `None` where one of the two is not a node.
    pub fn add_edge(&mut self, source: usize, target: usize, weight: i64) -> (r: Option<usize>)
        requires
            old(self).wf(),
        ensures
            final(self).wf(),
            final(self)@.node_count == old(self)@.node_count,
            source < old(self)@.node_count && target < old(self)@.node_count ==> r == Some(
                old(self)@.edges.len() as usize,
            ) && final(self)@.edges == old(self)@.edges.push(Edge { source, target, weight }),
            !(source < old(self)@.node_count && target < old(self)@.node_count) ==> r.is_none()
                && final(self)@.edges == old(self)@.edges,
    {
        if source >= self.incoming.len() || target >= self.incoming.len() {
            return None;
        }
        let e: usize = self.edges.len();
        self.edges.push(Edge { source, target, weight });
        self.incoming[target].push(e);
        proof {
            assert(self@.edges == old(self)@.edges.push(Edge { source, target, weight }));
            assert forall|x: int| 0 <= x < self@.edges.len() implies (#[trigger] self@.edges[x]).source
                < self@.node_count && self@.edges[x].target < self@.node_count by {
                if x < e {
                    assert(self@.edges[x] == old(self)@.edges[x]);
                }
            }
            assert forall|u: int| 0 <= u < self.incoming.len() implies self@.is_incoming_list(
                u,
                #[trigger] self.incoming[u]@,
            ) by {
                let before = old(self).incoming[u]@;
                assert(old(self)@.is_incoming_list(u, before));
                if u == target {
                    assert(self.incoming[u]@ == before.push(e));
                    assert forall|x: int|
                        0 <= x < self@.edges.len() && (#[trigger] self@.edges[x]).target
                            == u implies exists|i: int|
                        0 <= i < self.incoming[u]@.len() && self.incoming[u]@[i] == x by {
                        if x < e {
                            assert(old(self)@.edges[x].target == u);
                            let i = choose|i: int| 0 <= i < before.len() && before[i] == x;
                            assert(self.incoming[u]@[i] == x);
                        } else {
                            assert(self.incoming[u]@[before.len() as int] == x);
                        }
                    }
                } else {
                    assert(self.incoming[u]@ == before);
                    assert forall|x: int|
                        0 <= x < self@.edges.len() && (#[trigger] self@.edges[x]).target
                            == u implies exists|i: int|
                        0 <= i < self.incoming[u]@.len() && self.incoming[u]@[i] == x by {
                        assert(old(self)@.edges[x].target == u);
                    }
                }
            }
        }
        Some(e)
    }
}

} // verus!
