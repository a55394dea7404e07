//! The forward pass: one distance record per node, in topological order.

use crate::dist::{table_insert, table_new, table_record, DistanceRecord, DistanceTable, table_records};
use crate::graph::{lemma_walk_extend, lemma_walk_prefix, walk_weight, Digraph, GraphView};
use crate::order::{is_topological_order, lemma_order_covers, position};
use vstd::prelude::*;

verus! {

/// A walk, as the node it leaves and the edges it takes.
pub struct Walk {
    pub start: int,
    pub edges: Seq<int>,
}

/// The record of the node at place `i` of `order` is right: `walks[i]` is a
/// walk from a root to that node with the recorded weight, no such walk
/// weighs more, and the recorded predecessor is the node before the last on
/// `walks[i]`, whose own walk is the rest of it.
pub open spec fn record_is_best(
    g: GraphView,
    weights: Seq<i64>,
    order: Seq<usize>,
    records: Map<usize, DistanceRecord>,
    walks: Seq<Walk>,
    i: int,
) -> bool {
    let v = order[i];
    let record = records[v];
    let walk = walks[i];
    &&& records.dom().contains(v)
    &&& g.is_rooted_walk(walk.start, walk.edges)
    &&& g.walk_end(walk.start, walk.edges) == v
    &&& walk_weight(weights, walk.edges) == record.weight
    &&& -(i * 0x8000_0000_0000_0000) <= record.weight <= i * 0x8000_0000_0000_0000
    &&& forall|start: int, es: Seq<int>|
        #[trigger] g.is_rooted_walk(start, es) && g.walk_end(start, es) == v ==> walk_weight(
            weights,
            es,
        ) <= record.weight
    &&& if walk.edges.len() == 0 {
        record.predecessor == v
    } else {
        let j = position(order, record.predecessor as int);
        &&& 0 <= j < i
        &&& order[j] == record.predecessor
        &&& walks[j] == (Walk { start: walk.start, edges: walk.edges.drop_last() })
    }
}

/// The table holds a right record for each of the first `k` nodes of
/// `order`, and for no other node.
pub open spec fn records_are_best(
    g: GraphView,
    weights: Seq<i64>,
    order: Seq<usize>,
    records: Map<usize, DistanceRecord>,
    walks: Seq<Walk>,
    k: int,
) -> bool {
    &&& walks.len() == k
    &&& forall|v: usize|
        records.dom().contains(v) ==> 0 <= #[trigger] position(order, v as int) < k && order[position(
            order,
            v as int,
        )] == v
    &&& forall|i: int| 0 <= i < k ==> #[trigger] record_is_best(g, weights, order, records, walks, i)
}

/// `record` and `walk` are what the edge `e`, which ends at the node at
/// place `k`, offers that node: the best walk to where `e` begins, and then
/// `e`.
pub open spec fn is_candidate(
    g: GraphView,
    weights: Seq<i64>,
    order: Seq<usize>,
    records: Map<usize, DistanceRecord>,
    walks: Seq<Walk>,
    k: int,
    e: int,
    record: DistanceRecord,
    walk: Walk,
) -> bool {
    let p = g.edges[e].source;
    let j = position(order, p as int);
    &&& 0 <= j < k
    &&& order[j] == p
    &&& record.predecessor == p
    &&& record.weight == records[p].weight + weights[e]
    &&& walk == (Walk { start: walks[j].start, edges: walks[j].edges.push(e) })
    &&& g.is_rooted_walk(walk.start, walk.edges)
    &&& g.walk_end(walk.start, walk.edges) == order[k]
    &&& walk_weight(weights, walk.edges) == record.weight
    &&& -(k * 0x8000_0000_0000_0000) <= record.weight <= k * 0x8000_0000_0000_0000
    &&& forall|start: int, es: Seq<int>|
        #[trigger] g.is_rooted_walk(start, es) && g.walk_end(start, es) == order[k] && es.len() > 0
            && es.last() == e ==> walk_weight(weights, es) <= record.weight
}

/// `num_traits::Zero::zero` at `i128`: the additive identity, which is 0.
#[verifier::external_body]
pub(crate) fn zero() -> (z: i128)
    ensures
        z == 0,
{
    num_traits::Zero::zero()
}

/// What the edge `e` offers the node at place `k`.
fn candidate(
    graph: &Digraph,
    order: &Vec<usize>,
    weights: &Vec<i64>,
    table: &DistanceTable,
    Ghost(walks): Ghost<Seq<Walk>>,
    k: usize,
    e: usize,
) -> (r: (DistanceRecord, Ghost<Walk>))
    requires
        graph.wf(),
        is_topological_order(graph@, order@),
        weights.len() == graph@.edges.len(),
        k < order.len(),
        records_are_best(graph@, weights@, order@, table_records(*table), walks, k as int),
        e < graph@.edges.len(),
        graph@.edges[e as int].target == order[k as int],
    ensures
        is_candidate(
            graph@,
            weights@,
            order@,
            table_records(*table),
            walks,
            k as int,
            e as int,
            r.0,
            r.1@,
        ),
{
    let p: usize = graph.edge(e).source;
    let ghost g = graph@;
    let ghost j = position(order@, p as int);
    proof {
        graph.lemma_wf_closed();
        lemma_order_covers(g, order@);
        assert(g.edges[e as int].source < g.node_count);
        assert(order@[j] == g.edges[e as int].source && order@[k as int] == g.edges[e as int].target);
        assert(j < k);
        assert(record_is_best(g, weights@, order@, table_records(*table), walks, j));
    }
    let before = table_record(table, p);
    let ghost walk = Walk { start: walks[j].start, edges: walks[j].edges.push(e as int) };
    proof {
        lemma_walk_extend(g, weights@, walks[j].start, walks[j].edges, e as int);
        assert(k <= usize::MAX);
        assert forall|start: int, es: Seq<int>|
            #[trigger] g.is_rooted_walk(start, es) && g.walk_end(start, es) == order@[k as int]
                && es.len() > 0 && es.last() == e implies walk_weight(weights@, es) <= before.weight
            + weights@[e as int] by {
            lemma_walk_prefix(g, weights@, start, es);
            assert(g.is_rooted_walk(start, es.drop_last()));
        }
    }
    let weight: i128 = before.weight + (weights[e] as i128);
    (DistanceRecord { weight, predecessor: p }, Ghost(walk))
}

/// The record of the node at place `k`, from the records of the nodes
/// before it: the best of what its incoming edges offer, the newest edge
/// asked first and a later offer preferred among equals; for a node without
/// incoming edges, weight zero and the node itself.
fn visit(
    graph: &Digraph,
    order: &Vec<usize>,
    weights: &Vec<i64>,
    table: &DistanceTable,
    Ghost(walks): Ghost<Seq<Walk>>,
    k: usize,
) -> (r: (DistanceRecord, Ghost<Walk>))
    requires
        graph.wf(),
        is_topological_order(graph@, order@),
        weights.len() == graph@.edges.len(),
        k < order.len(),
        records_are_best(graph@, weights@, order@, table_records(*table), walks, k as int),
    ensures
        record_is_best(
            graph@,
            weights@,
            order@,
            table_records(*table).insert(order[k as int], r.0),
            walks.push(r.1@),
            k as int,
        ),
{
    let v: usize = order[k];
    let ghost g = graph@;
    let ghost records = table_records(*table);
    proof {
        graph.lemma_wf_closed();
    }
    let incoming = graph.incoming(v);
    if incoming.len() == 0 {
        let record = DistanceRecord { weight: zero(), predecessor: v };
        let ghost walk = Walk { start: v as int, edges: Seq::empty() };
        proof {
            assert forall|e: int| 0 <= e < g.edges.len() implies (#[trigger] g.edges[e]).target != v by {
                if g.edges[e].target == v {
                    let i = choose|i: int| 0 <= i < incoming@.len() && incoming@[i] == e;
                }
            }
            assert(g.is_root(v as int));
            assert(g.is_rooted_walk(walk.start, walk.edges));
            assert forall|start: int, es: Seq<int>|
                #[trigger] g.is_rooted_walk(start, es) && g.walk_end(start, es) == v implies walk_weight(
                weights@,
                es,
            ) <= 0 by {
                if es.len() > 0 {
                    assert(0 <= es[es.len() - 1] < g.edges.len());
                    assert(g.edges[es.last()].target != v);
                }
            }
        }
        return (record, Ghost(walk));
    }
    let mut j: usize = incoming.len() - 1;
    let first = candidate(graph, order, weights, table, Ghost(walks), k, incoming[j]);
    let mut best: DistanceRecord = first.0;
    let ghost mut best_walk = first.1@;
    let ghost mut best_edge = incoming@[j as int] as int;
    proof {
        assert forall|start: int, es: Seq<int>|
            #[trigger] g.is_rooted_walk(start, es) && g.walk_end(start, es) == v && es.len() > 0
                && es.last() >= incoming@[j as int] implies walk_weight(weights@, es)
            <= best.weight by {
            lemma_last_edge_listed(g, v as int, incoming@, start, es);
        }
    }
    while j > 0
        invariant
            graph.wf(),
            g == graph@,
            records == table_records(*table),
            is_topological_order(g, order@),
            weights.len() == g.edges.len(),
            k < order.len(),
            v == order[k as int],
            records_are_best(g, weights@, order@, records, walks, k as int),
            g.is_incoming_list(v as int, incoming@),
            j < incoming.len(),
            0 <= best_edge < g.edges.len(),
            is_candidate(g, weights@, order@, records, walks, k as int, best_edge, best, best_walk),
            forall|start: int, es: Seq<int>|
                #[trigger] g.is_rooted_walk(start, es) && g.walk_end(start, es) == v && es.len() > 0
                    && es.last() >= incoming@[j as int] ==> walk_weight(weights@, es)
                    <= best.weight,
        decreases j,
    {
        let ghost above = incoming@[j as int];
        let ghost best_before = best;
        j = j - 1;
        let next = candidate(graph, order, weights, table, Ghost(walks), k, incoming[j]);
        if next.0.weight >= best.weight {
            best = next.0;
            proof {
                best_walk = next.1@;
                best_edge = incoming@[j as int] as int;
            }
        }
        proof {
            assert forall|start: int, es: Seq<int>|
                #[trigger] g.is_rooted_walk(start, es) && g.walk_end(start, es) == v && es.len() > 0
                    && es.last() >= incoming@[j as int] implies walk_weight(weights@, es)
                <= best.weight by {
                if es.last() >= above {
                    assert(walk_weight(weights@, es) <= best_before.weight);
                } else {
                    lemma_last_edge_listed(g, v as int, incoming@, start, es);
                    let i = choose|i: int| 0 <= i < incoming@.len() && incoming@[i] == es.last();
                    assert(i == j) by {
                        if i < j {
                            assert(incoming@[i] < incoming@[j as int]);
                        }
                        if i > j + 1 {
                            assert(incoming@[j + 1] < incoming@[i]);
                        }
                    }
                }
            }
        }
    }
    proof {
        let longer = walks.push(best_walk);
        let p = g.edges[best_edge].source;
        let at = position(order@, p as int);
        assert(best_walk.edges.drop_last() == walks[at].edges);
        assert(longer[at] == walks[at]);
        assert forall|start: int, es: Seq<int>|
            #[trigger] g.is_rooted_walk(start, es) && g.walk_end(start, es) == v implies walk_weight(
            weights@,
            es,
        ) <= best.weight by {
            assert(0 <= incoming@[0] < g.edges.len() && g.edges[incoming@[0] as int].target == v);
            if es.len() > 0 {
                lemma_last_edge_listed(g, v as int, incoming@, start, es);
                let i = choose|i: int| 0 <= i < incoming@.len() && incoming@[i] == es.last();
                if i > 0 {
                    assert(incoming@[0] < incoming@[i]);
                }
            }
        }
    }
    (best, Ghost(best_walk))
}

/// The last edge of a walk that arrives at `v` stands in the list of the
/// edges that end at `v`.
proof fn lemma_last_edge_listed(g: GraphView, v: int, list: Seq<usize>, start: int, es: Seq<int>)
    requires
        g.is_incoming_list(v, list),
        g.is_walk(start, es),
        es.len() > 0,
        g.walk_end(start, es) == v,
    ensures
        exists|i: int| 0 <= i < list.len() && list[i] == es.last(),
{
    let e = es[es.len() - 1];
    assert(0 <= e < g.edges.len());
    assert(g.edges[e].target == v);
}

/// Visits every node in the given order and writes its record.
pub(crate) fn forward_pass(graph: &Digraph, order: &Vec<usize>, weights: &Vec<i64>) -> (r: (
    DistanceTable,
    Ghost<Seq<Walk>>,
))
    requires
        graph.wf(),
        is_topological_order(graph@, order@),
        weights.len() == graph@.edges.len(),
    ensures
        records_are_best(graph@, weights@, order@, table_records(r.0), r.1@, order.len() as int),
{
    let mut table = table_new();
    let ghost mut walks: Seq<Walk> = Seq::empty();
    let mut k: usize = 0;
    while k < order.len()
        invariant
            graph.wf(),
            is_topological_order(graph@, order@),
            weights.len() == graph@.edges.len(),
            k <= order.len(),
            records_are_best(graph@, weights@, order@, table_records(table), walks, k as int),
        decreases order.len() - k,
    {
        let ghost before = table_records(table);
        let ghost shorter = walks;
        let found = visit(graph, order, weights, &table, Ghost(walks), k);
        table_insert(&mut table, order[k], found.0);
        proof {
            walks = walks.push(found.1@);
            let after = table_records(table);
            lemma_order_covers(graph@, order@);
            assert(position(order@, order@[k as int] as int) == k);
            assert forall|i: int| 0 <= i < k implies #[trigger] record_is_best(
                graph@,
                weights@,
                order@,
                after,
                walks,
                i,
            ) by {
                assert(record_is_best(graph@, weights@, order@, before, shorter, i));
                assert(order@[i] != order@[k as int]);
                assert(after[order@[i]] == before[order@[i]]);
                assert(walks[i] == shorter[i]);
            }
        }
        k = k + 1;
    }
    (table, Ghost(walks))
}

} // verus!
