//! The table of distance records, kept in a hash map.

use vstd::prelude::*;

verus! {

/// What the forward pass knows of a node once it has visited it: the best
/// total weight with which a walk arrives there, and the node before it on
/// such a walk (the node itself where the walk begins there).
#[derive(Clone, Copy, Debug, PartialEq, Eq, Structural)]
pub struct DistanceRecord {
    pub weight: i128,
    pub predecessor: usize,
}

/// A `hashbrown::HashMap` from node to record. Verus does not look inside;
/// all that is known of a table is what the four functions below state about
/// [`table_records`].
#[verifier::external_body]
pub struct DistanceTable {
    map: hashbrown::HashMap<usize, DistanceRecord>,
}

/// The records that a table holds, by node.
pub uninterp spec fn table_records(table: DistanceTable) -> Map<usize, DistanceRecord>;

/// The records of a table that has seen no node.
pub open spec fn no_records() -> Map<usize, DistanceRecord> {
    Map::empty()
}

/// `hashbrown::HashMap::new`: a map without entries.
#[verifier::external_body]
pub(crate) fn table_new() -> (table: DistanceTable)
    ensures
        table_records(table) == no_records(),
{
    DistanceTable { map: hashbrown::HashMap::new() }
}

/// `hashbrown::HashMap::insert`: afterwards `node` has `record`, replacing
/// what it had, and every other node has what it had before.
#[verifier::external_body]
pub(crate) fn table_insert(table: &mut DistanceTable, node: usize, record: DistanceRecord)
    ensures
        table_records(*final(table)) == table_records(*old(table)).insert(node, record),
{
    table.map.insert(node, record);
}

/// Indexing a `hashbrown::HashMap` by a key: the value stored under it. The
/// index operator panics on a key that the map does not hold, hence the
/// precondition.
#[verifier::external_body]
pub(crate) fn table_record(table: &DistanceTable, node: usize) -> (record: DistanceRecord)
    requires
        table_records(*table).dom().contains(node),
    ensures
        record == table_records(*table)[node],
{
    table.map[&node]
}

/// `hashbrown::HashMap::keys`: every key of the map once, in an order that
/// the map chooses.
#[verifier::external_body]
pub(crate) fn table_nodes(table: &DistanceTable) -> (nodes: Vec<usize>)
    ensures
        nodes@.no_duplicates(),
        forall|v: usize| nodes@.contains(v) <==> table_records(*table).dom().contains(v),
{
    table.map.keys().copied().collect()
}

} // verus!
