//! Choosing where the best walk ends, and following the predecessors back.

use crate::dist::{table_nodes, table_record, table_records, DistanceRecord, DistanceTable};
use crate::forward::{record_is_best, records_are_best, Walk};
use crate::graph::GraphView;
use crate::order::{is_topological_order, position};
use vstd::prelude::*;

verus! {

/// `a` stands before `b` when records are ordered by weight, and by
/// predecessor among equal weights.
pub open spec fn precedes(a: DistanceRecord, b: DistanceRecord) -> bool {
    a.weight < b.weight || (a.weight == b.weight && a.predecessor < b.predecessor)
}

fn stands_before(a: DistanceRecord, b: DistanceRecord) -> (r: bool)
    ensures
        r == precedes(a, b),
{
    a.weight < b.weight || (a.weight == b.weight && a.predecessor < b.predecessor)
}

/// A node whose record no other record stands after. Among several such
/// nodes it is the one that the table hands out last.
pub(crate) fn best_end(table: &DistanceTable) -> (end: usize)
    requires
        exists|v: usize| table_records(*table).dom().contains(v),
    ensures
        table_records(*table).dom().contains(end),
        forall|v: usize|
            table_records(*table).dom().contains(v) ==> !precedes(
                table_records(*table)[end],
                #[trigger] table_records(*table)[v],
            ),
{
    let ghost records = table_records(*table);
    let nodes = table_nodes(table);
    proof {
        let v = choose|v: usize| records.dom().contains(v);
        assert(nodes@.contains(v));
    }
    assert(nodes@.contains(nodes@[0]));
    let mut end: usize = nodes[0];
    let mut best = table_record(table, end);
    let mut i: usize = 1;
    while i < nodes.len()
        invariant
            records == table_records(*table),
            forall|v: usize| nodes@.contains(v) <==> records.dom().contains(v),
            1 <= i <= nodes.len(),
            records.dom().contains(end),
            best == records[end],
            forall|t: int| 0 <= t < i ==> !precedes(best, records[#[trigger] nodes@[t]]),
        decreases nodes.len() - i,
    {
        assert(nodes@.contains(nodes@[i as int]));
        let record = table_record(table, nodes[i]);
        if !stands_before(record, best) {
            end = nodes[i];
            best = record;
        }
        i = i + 1;
    }
    proof {
        assert forall|v: usize| records.dom().contains(v) implies !precedes(
            records[end],
            #[trigger] records[v],
        ) by {
            assert(nodes@.contains(v));
            let t = choose|t: int| 0 <= t < nodes@.len() && nodes@[t] == v;
            assert(!precedes(best, records[nodes@[t]]));
        }
    }
    end
}

/// The nodes of the best walk to `end`, last node first: from `end` along
/// the recorded predecessors to the node that is its own predecessor.
pub(crate) fn backtrack(
    table: &DistanceTable,
    end: usize,
    Ghost(g): Ghost<GraphView>,
    Ghost(weights): Ghost<Seq<i64>>,
    Ghost(order): Ghost<Seq<usize>>,
    Ghost(walks): Ghost<Seq<Walk>>,
) -> (back: Vec<usize>)
    requires
        is_topological_order(g, order),
        records_are_best(g, weights, order, table_records(*table), walks, order.len() as int),
        table_records(*table).dom().contains(end),
    ensures
        ({
            let walk = walks[position(order, end as int)];
            let nodes = g.walk_nodes(walk.start, walk.edges);
            &&& back.len() == nodes.len()
            &&& forall|t: int| 0 <= t < back.len() ==> back[t] == nodes[nodes.len() - 1 - t]
        }),
{
    let ghost records = table_records(*table);
    let ghost last = position(order, end as int);
    let ghost nodes = g.walk_nodes(walks[last].start, walks[last].edges);
    let mut back: Vec<usize> = Vec::new();
    let mut v: usize = end;
    let ghost mut at: int = last;
    proof {
        assert(record_is_best(g, weights, order, records, walks, at));
    }
    loop
        invariant
            records == table_records(*table),
            is_topological_order(g, order),
            records_are_best(g, weights, order, records, walks, order.len() as int),
            last == position(order, end as int),
            0 <= last < order.len(),
            nodes == g.walk_nodes(walks[last].start, walks[last].edges),
            0 <= at < order.len(),
            order[at] == v,
            back.len() + walks[at].edges.len() + 1 == nodes.len(),
            forall|t: int|
                0 <= t <= walks[at].edges.len() ==> g.walk_nodes(walks[at].start, walks[at].edges)[t]
                    == nodes[t],
            forall|t: int| 0 <= t < back.len() ==> back[t] == nodes[nodes.len() - 1 - t],
        decreases at,
    {
        let ghost walk = walks[at];
        let ghost here = g.walk_nodes(walk.start, walk.edges);
        proof {
            assert(record_is_best(g, weights, order, records, walks, at));
            assert(here[walk.edges.len() as int] == v);
        }
        back.push(v);
        let record = table_record(table, v);
        if record.predecessor == v {
            proof {
                if walk.edges.len() > 0 {
                    let j = position(order, record.predecessor as int);
                    assert(order[j] != order[at]);
                }
            }
            return back;
        }
        proof {
            let j = position(order, record.predecessor as int);
            let shorter = g.walk_nodes(walks[j].start, walks[j].edges);
            assert forall|t: int| 0 <= t <= walks[j].edges.len() implies shorter[t] == nodes[t] by {
                assert(shorter[t] == here[t]);
            }
            at = j;
        }
        v = record.predecessor;
    }
}

/// The same items, last first.
pub(crate) fn reversed(items: &Vec<usize>) -> (r: Vec<usize>)
    ensures
        r.len() == items.len(),
        forall|t: int| 0 <= t < r.len() ==> r[t] == items[items.len() - 1 - t],
{
    let mut r: Vec<usize> = Vec::new();
    let mut left: usize = items.len();
    while left > 0
        invariant
            left <= items.len(),
            r.len() == items.len() - left,
            forall|t: int| 0 <= t < r.len() ==> r[t] == items[items.len() - 1 - t],
        decreases left,
    {
        left = left - 1;
        r.push(items[left]);
    }
    r
}

} // verus!
