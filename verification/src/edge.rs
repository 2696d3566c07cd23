//! [`Edge`]: a directed connection between two nodes, with a generic data
//! field.
//!
//! An [`EdgeID`] is a generation-checked key into the graph's edge arena.

use crate::node::{key_as_u64, key_from_u64, lemma_key_u64_round_trip, NodeID};
use crate::slot_arena::SlotKey;
use vstd::prelude::*;

verus! {

/// A key to an edge in the graph's edge arena.
#[derive(Clone, Copy, PartialEq, Eq, Hash, PartialOrd, Ord, Debug, Structural)]
pub struct EdgeID(pub SlotKey);

impl EdgeID {
    /// This identifier as a single number, for compact storage or interop.
    pub fn to_u64(&self) -> (r: u64)
        ensures
            r == key_as_u64(self.0),
            key_from_u64(r) == self.0,
    {
        proof {
            lemma_key_u64_round_trip(self.0);
        }
        ((self.0.version as u64) << 32u64) | (self.0.idx as u64)
    }

    /// Rebuild an identifier from its packed form.
    pub fn from_u64(id: u64) -> (r: Self)
        ensures
            r.0 == key_from_u64(id),
    {
        EdgeID(SlotKey { idx: (id & 0xFFFF_FFFFu64) as u32, version: (id >> 32u64) as u32 })
    }
}

/// A directed edge `from -> to`. Both endpoint nodes record the edge in their
/// `connections`, but the logical direction is `from` to `to`. Endpoints are
/// fixed at creation; to repoint an edge, remove it and add a new one.
#[derive(Clone, Debug)]
pub struct Edge<T> {
    pub id: EdgeID,
    pub from: NodeID,
    pub to: NodeID,
    pub data: T,
}

/// Edges compare by identity: two edges are equal exactly when their ids are.
impl<T> PartialEq for Edge<T> {
    fn eq(&self, other: &Self) -> (r: bool) {
        self.id == other.id
    }
}

impl<T> vstd::std_specs::cmp::PartialEqSpecImpl for Edge<T> {
    open spec fn obeys_eq_spec() -> bool {
        true
    }

    open spec fn eq_spec(&self, other: &Self) -> bool {
        self.id == other.id
    }
}

impl<T> Edge<T> {
    pub fn new(id: EdgeID, from: NodeID, to: NodeID, data: T) -> (e: Edge<T>)
        ensures
            e.id == id,
            e.from == from,
            e.to == to,
            e.data == data,
    {
        Edge { id, from, to, data }
    }
}

} // verus!
