//! [`Node`]: a vertex of the graph, with a generic data field and the list of
//! [`EdgeID`]s touching it.
//!
//! A [`NodeID`] is a generation-checked key into the graph's node arena.

use crate::edge::EdgeID;
use crate::slot_arena::SlotKey;
use vstd::prelude::*;

verus! {

/// A key to a node in the graph's node arena.
#[derive(Clone, Copy, PartialEq, Eq, Hash, PartialOrd, Ord, Debug, Structural)]
pub struct NodeID(pub SlotKey);

/// The number a [`SlotKey`] packs into: version in the upper half, slot
/// position in the lower half.
pub open spec fn key_as_u64(k: SlotKey) -> u64 {
    ((k.version as u64) << 32u64) | (k.idx as u64)
}

/// The [`SlotKey`] a packed number unpacks into.
pub open spec fn key_from_u64(v: u64) -> SlotKey {
    SlotKey { idx: (v & 0xFFFF_FFFFu64) as u32, version: (v >> 32u64) as u32 }
}

/// Packing a key and unpacking the number gives the key back.
pub proof fn lemma_key_u64_round_trip(k: SlotKey)
    ensures
        key_from_u64(key_as_u64(k)) == k,
{
    let x = k.idx;
    let y = k.version;
    let packed: u64 = key_as_u64(k);
    assert((packed & 0xFFFF_FFFFu64) as u32 == x && (packed >> 32u64) as u32 == y)
        by (bit_vector)
        requires
            packed == ((y as u64) << 32u64) | (x as u64),
    ;
}

impl NodeID {
    /// This identifier as a single number, for compact storage or interop.
    pub fn to_u64(&self) -> (r: u64)
        ensures
            r == key_as_u64(self.0),
            key_from_u64(r) == self.0,
    {
        proof {
            lemma_key_u64_round_trip(self.0);
        }
        ((self.0.version as u64) << 32u64) | (self.0.idx as u64)
    }

    /// Rebuild an identifier from its packed form.
    pub fn from_u64(id: u64) -> (r: Self)
        ensures
            r.0 == key_from_u64(id),
    {
        NodeID(SlotKey { idx: (id & 0xFFFF_FFFFu64) as u32, version: (id >> 32u64) as u32 })
    }
}

/// A vertex of the graph: its own id, a generic data field, and the adjacency
/// list of every edge touching it, in either direction, in insertion order.
///
/// `connections` is kept by the graph's mutation operations alone; appending
/// to it by hand breaks the graph's edge-consistency invariant.
#[derive(Clone, Debug)]
pub struct Node<T> {
    pub id: NodeID,
    pub data: T,
    pub connections: Vec<EdgeID>,
}

/// Nodes compare by identity: two nodes are equal exactly when their ids are.
impl<T> PartialEq for Node<T> {
    fn eq(&self, other: &Self) -> (r: bool) {
        self.id == other.id
    }
}

impl<T> vstd::std_specs::cmp::PartialEqSpecImpl for Node<T> {
    open spec fn obeys_eq_spec() -> bool {
        true
    }

    open spec fn eq_spec(&self, other: &Self) -> bool {
        self.id == other.id
    }
}

impl<T> Node<T> {
    pub fn new(id: NodeID, data: T) -> (n: Node<T>)
        ensures
            n.id == id,
            n.data == data,
            n.connections@ == Seq::<EdgeID>::empty(),
    {
        Node { id, data, connections: Vec::new() }
    }

    /// Record that `edge` touches this node. Called by the graph when an edge
    /// to or from this node is created.
    pub fn add_connection(&mut self, edge: EdgeID)
        ensures
            final(self).id == old(self).id,
            final(self).data == old(self).data,
            final(self).connections@ == old(self).connections@.push(edge),
    {
        self.connections.push(edge);
    }
}

} // verus!
