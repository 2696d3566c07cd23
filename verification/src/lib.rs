//! A fast, lightweight graph data structure built on generation-checked slot
//! arenas.
//!
//! Nodes and edges live in two [`SlotArena`]s; identifiers carry the
//! generation at which their slot was occupied, so a stale identifier reliably
//! fails lookup instead of resolving to an unrelated value (the ABA problem).
//! Traversals (depth-first, connected components) walk the adjacency lists
//! that the graph maintains for every node.

use vstd::prelude::*;

pub mod algorithms;
pub mod categories;
pub mod edge;
pub mod interface;
pub mod linked_list;
pub mod node;
pub mod slot_arena;
mod spec_facts;

pub use categories::{Categorized, CategorizedGraph, CategorizedGraphError};
pub use edge::{Edge, EdgeID};
pub use interface::{adjacency_ok, consistent_on, GraphInterface};
pub use linked_list::{LinkedList, LinkedListIndex, LinkedListItem};
pub use node::{Node, NodeID};
pub use slot_arena::{SlotArena, SlotKey};

use interface::conns_filtered;
use spec_facts::{
    lemma_filter_agree, lemma_filter_all, lemma_filter_elems, lemma_filter_filter,
    lemma_filter_push, lemma_injective_map_len,
};

verus! {

/// The errors a graph operation can report: a lookup or removal was given a
/// `NodeID` or `EdgeID` that is absent or stale.
#[derive(Clone, Copy, Debug, PartialEq, Eq, Structural)]
pub enum GraphError {
    EdgeNotFound,
    NodeNotFound,
}

/// The default graph: two slot arenas, one for nodes and one for edges, and
/// nothing else. Implements [`GraphInterface`].
#[derive(Debug)]
pub struct Graph<N, E> {
    nodes: SlotArena<Node<N>>,
    edges: SlotArena<Edge<E>>,
}

/// Retract every occurrence of `e` from a connection list.
fn retract_connection(v: &mut Vec<EdgeID>, e: EdgeID)
    ensures
        final(v)@ == old(v)@.filter(|x: EdgeID| x != e),
{
    let mut out: Vec<EdgeID> = Vec::new();
    let mut i: usize = 0;
    while i < v.len()
        invariant
            i <= v@.len(),
            out@ == v@.take(i as int).filter(|x: EdgeID| x != e),
        decreases v@.len() - i,
    {
        let x = v[i];
        proof {
            lemma_filter_push(v@.take(i as int), |x: EdgeID| x != e, v@[i as int]);
            assert(v@.take(i + 1 as int) =~= v@.take(i as int).push(v@[i as int]));
        }
        if x != e {
            out.push(x);
        }
        i = i + 1;
    }
    proof {
        assert(v@.take(v@.len() as int) =~= v@);
    }
    *v = out;
}

impl<N, E> Graph<N, E> {
    /// A fresh, empty graph.
    pub fn new() -> (g: Graph<N, E>)
        ensures
            g.inv(),
            g.nodes_map() =~= Map::<NodeID, Node<N>>::empty(),
            g.edges_map() =~= Map::<EdgeID, Edge<E>>::empty(),
            g.node_slots() == 0,
            g.edge_slots() == 0,
            forall|id: NodeID| !g.node_settled(id),
            forall|id: EdgeID| !g.edge_settled(id),
            g.consistent(),
    {
        let g = Graph { nodes: SlotArena::new(), edges: SlotArena::new() };
        proof {
            assert(g.nodes_map() =~= Map::<NodeID, Node<N>>::empty());
            assert(g.edges_map() =~= Map::<EdgeID, Edge<E>>::empty());
        }
        g
    }

    /// How many edges the graph holds.
    pub fn edge_count(&self) -> (n: usize)
        requires
            self.inv(),
        ensures
            n == self.edges_map().dom().len(),
    {
        proof {
            self.lemma_doms();
        }
        self.edges.len()
    }

    /// Every live edge identifier, each exactly once.
    pub fn edges(&self) -> (r: Vec<EdgeID>)
        requires
            self.inv(),
        ensures
            r@.no_duplicates(),
            forall|j: int| 0 <= j < r@.len() ==> self.edges_map().dom().contains(#[trigger] r@[j]),
            forall|id: EdgeID| #[trigger] self.edges_map().dom().contains(id) ==> r@.contains(id),
            r@.len() == self.edges_map().dom().len(),
    {
        let ks = self.edges.keys();
        let mut r: Vec<EdgeID> = Vec::new();
        let mut i: usize = 0;
        while i < ks.len()
            invariant
                i <= ks@.len(),
                r@.len() == i,
                forall|j: int| 0 <= j < i ==> r@[j] == EdgeID(ks@[j]),
            decreases ks@.len() - i,
        {
            r.push(EdgeID(ks[i]));
            i = i + 1;
        }
        proof {
            self.lemma_doms();
            assert forall|j1: int, j2: int| 0 <= j1 < j2 < r@.len() implies r@[j1] != r@[j2] by {
                assert(ks@[j1] != ks@[j2]);
            };
            assert forall|id: EdgeID| self.edges_map().dom().contains(id) implies r@.contains(
                id,
            ) by {
                assert(ks@.contains(id.0));
                let j = choose|j: int| 0 <= j < ks@.len() && ks@[j] == id.0;
                assert(r@[j] == id);
            };
        }
        r
    }

    proof fn lemma_doms(&self)
        requires
            self.nodes.wf(),
            self.edges.wf(),
        ensures
            self.nodes_map().dom().finite(),
            self.nodes_map().dom().len() == self.nodes.contents().dom().len(),
            self.edges_map().dom().finite(),
            self.edges_map().dom().len() == self.edges.contents().dom().len(),
    {
        self.nodes.lemma_card();
        self.edges.lemma_card();
        let nd = self.nodes.contents().dom();
        let fnid = |k: SlotKey| NodeID(k);
        lemma_injective_map_len(nd, fnid);
        assert forall|id: NodeID| nd.map(fnid).contains(id) implies self.nodes_map().dom().contains(
            id,
        ) by {
            let k = choose|k: SlotKey| nd.contains(k) && fnid(k) == id;
        };
        assert forall|id: NodeID| self.nodes_map().dom().contains(id) implies nd.map(
            fnid,
        ).contains(id) by {
            assert(nd.contains(id.0) && fnid(id.0) == id);
        };
        assert(self.nodes_map().dom() =~= nd.map(fnid));
        let ed = self.edges.contents().dom();
        let feid = |k: SlotKey| EdgeID(k);
        lemma_injective_map_len(ed, feid);
        assert forall|id: EdgeID| ed.map(feid).contains(id) implies self.edges_map().dom().contains(
            id,
        ) by {
            let k = choose|k: SlotKey| ed.contains(k) && feid(k) == id;
        };
        assert forall|id: EdgeID| self.edges_map().dom().contains(id) implies ed.map(
            feid,
        ).contains(id) by {
            assert(ed.contains(id.0) && feid(id.0) == id);
        };
        assert(self.edges_map().dom() =~= ed.map(feid));
    }

    /// Append `eid` to `m`'s adjacency list if `m` is live; do nothing
    /// otherwise.
    fn append_conn(&mut self, m: NodeID, eid: EdgeID)
        requires
            old(self).nodes.wf(),
        ensures
            final(self).nodes.wf(),
            final(self).edges == old(self).edges,
            final(self).nodes.num_slots() == old(self).nodes.num_slots(),
            final(self).nodes.next_key() == old(self).nodes.next_key(),
            forall|k: SlotKey| final(self).nodes.live(k) <==> old(self).nodes.live(k),
            forall|k: SlotKey| final(self).nodes.dead(k) <==> old(self).nodes.dead(k),
            !old(self).nodes.live(m.0) ==> *final(self) == *old(self),
            old(self).nodes.live(m.0) ==> {
                &&& forall|k: SlotKey|
                    old(self).nodes.live(k) && k != m.0 ==> final(self).nodes.contents()[k] == old(self).nodes.contents()[k]
                &&& final(self).nodes.contents()[m.0].id == old(self).nodes.contents()[m.0].id
                &&& final(self).nodes.contents()[m.0].data == old(self).nodes.contents()[m.0].data
                &&& final(self).nodes.contents()[m.0].connections@ == old(self).nodes.contents()[m.0].connections@.push(eid)
            },
    {
        match self.nodes.get_mut(m.0) {
            Some(n) => {
                n.add_connection(eid);
            },
            None => {},
        }
    }

    /// Retract every occurrence of `eid` from `m`'s adjacency list if `m` is
    /// live; do nothing otherwise.
    fn retract_at(&mut self, m: NodeID, eid: EdgeID)
        requires
            old(self).nodes.wf(),
        ensures
            final(self).nodes.wf(),
            final(self).edges == old(self).edges,
            final(self).nodes.num_slots() == old(self).nodes.num_slots(),
            final(self).nodes.next_key() == old(self).nodes.next_key(),
            forall|k: SlotKey| final(self).nodes.live(k) <==> old(self).nodes.live(k),
            forall|k: SlotKey| final(self).nodes.dead(k) <==> old(self).nodes.dead(k),
            !old(self).nodes.live(m.0) ==> *final(self) == *old(self),
            old(self).nodes.live(m.0) ==> {
                &&& forall|k: SlotKey|
                    old(self).nodes.live(k) && k != m.0 ==> final(self).nodes.contents()[k] == old(self).nodes.contents()[k]
                &&& final(self).nodes.contents()[m.0].id == old(self).nodes.contents()[m.0].id
                &&& final(self).nodes.contents()[m.0].data == old(self).nodes.contents()[m.0].data
                &&& final(self).nodes.contents()[m.0].connections@ == old(self).nodes.contents()[m.0].connections@.filter(|x: EdgeID| x != eid)
            },
    {
        match self.nodes.get_mut(m.0) {
            Some(n) => {
                retract_connection(&mut n.connections, eid);
            },
            None => {},
        }
    }
}

impl<N, E> GraphInterface for Graph<N, E> {
    type NodeData = N;

    type EdgeData = E;

    closed spec fn inv(&self) -> bool {
        &&& self.nodes.wf()
        &&& self.edges.wf()
        &&& adjacency_ok(self.nodes_map(), self.edges_map())
    }

    closed spec fn nodes_map(&self) -> Map<NodeID, Node<N>> {
        Map::new(
            |id: NodeID| self.nodes.contents().dom().contains(id.0),
            |id: NodeID| self.nodes.contents()[id.0],
        )
    }

    closed spec fn edges_map(&self) -> Map<EdgeID, Edge<E>> {
        Map::new(
            |id: EdgeID| self.edges.contents().dom().contains(id.0),
            |id: EdgeID| self.edges.contents()[id.0],
        )
    }

    closed spec fn node_settled(&self, id: NodeID) -> bool {
        self.nodes.settled(id.0)
    }

    closed spec fn edge_settled(&self, id: EdgeID) -> bool {
        self.edges.settled(id.0)
    }

    closed spec fn node_slots(&self) -> int {
        self.nodes.num_slots()
    }

    closed spec fn edge_slots(&self) -> int {
        self.edges.num_slots()
    }

    open spec fn settled_set(&self) -> Set<NodeID> {
        Set::new(|id: NodeID| self.node_settled(id))
    }

    open spec fn consistent(&self) -> bool {
        consistent_on(self.nodes_map(), self.edges_map(), self.settled_set())
    }

    proof fn lemma_inv(&self) {
        self.lemma_doms();
        self.nodes.lemma_card();
        self.edges.lemma_card();
        assert(self.settled_set() =~= Set::new(|id: NodeID| self.node_settled(id)));
    }

    fn node_count(&self) -> (n: usize) {
        proof {
            self.lemma_doms();
        }
        self.nodes.len()
    }

    fn nodes(&self) -> (r: Vec<NodeID>) {
        let ks = self.nodes.keys();
        let mut r: Vec<NodeID> = Vec::new();
        let mut i: usize = 0;
        while i < ks.len()
            invariant
                i <= ks@.len(),
                r@.len() == i,
                forall|j: int| 0 <= j < i ==> r@[j] == NodeID(ks@[j]),
            decreases ks@.len() - i,
        {
            r.push(NodeID(ks[i]));
            i = i + 1;
        }
        proof {
            self.lemma_doms();
            assert forall|j1: int, j2: int| 0 <= j1 < j2 < r@.len() implies r@[j1] != r@[j2] by {
                assert(ks@[j1] != ks@[j2]);
            };
            assert forall|id: NodeID| self.nodes_map().dom().contains(id) implies r@.contains(
                id,
            ) by {
                assert(ks@.contains(id.0));
                let j = choose|j: int| 0 <= j < ks@.len() && ks@[j] == id.0;
                assert(r@[j] == id);
            };
        }
        r
    }

    fn node<'a>(&'a self, id: NodeID) -> (r: Result<&'a Node<N>, GraphError>) {
        match self.nodes.get(id.0) {
            Some(n) => Ok(n),
            None => Err(GraphError::NodeNotFound),
        }
    }

    fn node_mut<'a>(&'a mut self, id: NodeID) -> (r: Result<&'a mut Node<N>, GraphError>) {
        proof {
            let nm = self.nodes_map();
            let em = self.edges_map();
            let stl = self.settled_set();
            if nm.dom().contains(id) && self.inv() {
                assert forall|nv: Node<N>|
                    (nv.id == id && nv.connections@ == nm[id].connections@) implies (adjacency_ok(
                    #[trigger] nm.insert(id, nv),
                    em,
                ) && (consistent_on(nm, em, stl) ==> consistent_on(nm.insert(id, nv), em, stl))) by {
                    let nm2 = nm.insert(id, nv);
                    assert forall|id2: NodeID, j: int|
                        nm2.dom().contains(id2) && 0 <= j < nm2[id2].connections@.len() implies {
                        let eid = #[trigger] nm2[id2].connections@[j];
                        em.dom().contains(eid) && (em[eid].from == id2 || em[eid].to == id2)
                    } by {
                        assert(nm.dom().contains(id2));
                        assert(nm2[id2].connections@ == nm[id2].connections@);
                        assert(em.dom().contains(nm[id2].connections@[j]) && (em[nm[
                            id2].connections@[j]].from == id2 || em[nm[id2].connections@[j]].to
                            == id2));
                    };
                    if consistent_on(nm, em, stl) {
                        assert forall|eid: EdgeID| #[trigger] em.dom().contains(eid) implies {
                            let e = em[eid];
                            &&& stl.contains(e.from)
                            &&& stl.contains(e.to)
                            &&& (nm2.dom().contains(e.from) ==> nm2[e.from].connections@.contains(
                                eid,
                            ))
                            &&& (nm2.dom().contains(e.to) ==> nm2[e.to].connections@.contains(eid))
                        } by {
                            let e = em[eid];
                            assert(nm2.dom().contains(e.from) ==> nm2[e.from].connections@
                                == nm[e.from].connections@);
                            assert(nm2.dom().contains(e.to) ==> nm2[e.to].connections@
                                == nm[e.to].connections@);
                        };
                    }
                };
            }
        }
        match self.nodes.get_mut(id.0) {
            Some(n) => Ok(n),
            None => Err(GraphError::NodeNotFound),
        }
    }

    fn edge<'a>(&'a self, id: EdgeID) -> (r: Result<&'a Edge<E>, GraphError>) {
        match self.edges.get(id.0) {
            Some(e) => Ok(e),
            None => Err(GraphError::EdgeNotFound),
        }
    }

    fn edge_mut<'a>(&'a mut self, id: EdgeID) -> (r: Result<&'a mut Edge<E>, GraphError>) {
        proof {
            let nm = self.nodes_map();
            let em = self.edges_map();
            let stl = self.settled_set();
            if em.dom().contains(id) && self.inv() {
                assert forall|ev: Edge<E>|
                    (ev.id == id && ev.from == em[id].from && ev.to == em[id].to) implies (
                adjacency_ok(nm, #[trigger] em.insert(id, ev)) && (consistent_on(nm, em, stl)
                    ==> consistent_on(nm, em.insert(id, ev), stl))) by {
                    let em2 = em.insert(id, ev);
                    assert forall|id2: NodeID, j: int|
                        nm.dom().contains(id2) && 0 <= j < nm[id2].connections@.len() implies {
                        let eid = #[trigger] nm[id2].connections@[j];
                        em2.dom().contains(eid) && (em2[eid].from == id2 || em2[eid].to == id2)
                    } by {
                        let eid = nm[id2].connections@[j];
                        assert(em.dom().contains(eid) && (em[eid].from == id2 || em[eid].to
                            == id2));
                    };
                };
            }
        }
        match self.edges.get_mut(id.0) {
            Some(e) => Ok(e),
            None => Err(GraphError::EdgeNotFound),
        }
    }

    fn add_node(&mut self, data: N) -> (id: NodeID) {
        let k = self.nodes.peek_next_key();
        let id = NodeID(k);
        let node = Node::new(id, data);
        let k2 = self.nodes.insert(node);
        proof {
            let g0 = *old(self);
            assert(self.nodes_map().dom() =~= g0.nodes_map().dom().insert(id));
            assert(self.edges_map() =~= g0.edges_map());
            assert forall|id2: NodeID, j: int|
                self.nodes_map().dom().contains(id2) && 0 <= j
                    < self.nodes_map()[id2].connections@.len() implies {
                let eid = #[trigger] self.nodes_map()[id2].connections@[j];
                self.edges_map().dom().contains(eid) && (self.edges_map()[eid].from == id2
                    || self.edges_map()[eid].to == id2)
            } by {
                if id2 != id {
                    assert(g0.nodes_map().dom().contains(id2));
                    assert(self.nodes_map()[id2] == g0.nodes_map()[id2]);
                    assert(g0.edges_map().dom().contains(g0.nodes_map()[id2].connections@[j]) && (
                    g0.edges_map()[g0.nodes_map()[id2].connections@[j]].from == id2
                        || g0.edges_map()[g0.nodes_map()[id2].connections@[j]].to == id2));
                }
            };
            if g0.consistent() {
                let stl0 = g0.settled_set();
                let stl1 = self.settled_set();
                assert forall|eid: EdgeID| #[trigger]
                    self.edges_map().dom().contains(eid) implies {
                    let e = self.edges_map()[eid];
                    &&& stl1.contains(e.from)
                    &&& stl1.contains(e.to)
                    &&& (self.nodes_map().dom().contains(e.from)
                        ==> self.nodes_map()[e.from].connections@.contains(eid))
                    &&& (self.nodes_map().dom().contains(e.to)
                        ==> self.nodes_map()[e.to].connections@.contains(eid))
                } by {
                    assert(g0.edges_map().dom().contains(eid));
                    let e = g0.edges_map()[eid];
                    assert(stl0.contains(e.from) && stl0.contains(e.to));
                    assert(g0.node_settled(e.from) && g0.node_settled(e.to));
                    assert(e.from != id && e.to != id);
                    assert(self.nodes_map().dom().contains(e.from) ==> self.nodes_map()[e.from]
                        == g0.nodes_map()[e.from]);
                    assert(self.nodes_map().dom().contains(e.to) ==> self.nodes_map()[e.to]
                        == g0.nodes_map()[e.to]);
                };
            }
        }
        id
    }

    fn add_edge(&mut self, from: NodeID, to: NodeID, data: E) -> (id: EdgeID) {
        let ghost g0 = *old(self);
        let k = self.edges.peek_next_key();
        let id = EdgeID(k);
        let edge = Edge::new(id, from, to, data);
        let k2 = self.edges.insert(edge);
        let ghost g1 = *self;
        proof {
            assert(self.edges_map().dom() =~= g0.edges_map().dom().insert(id));
            assert(self.nodes_map() =~= g0.nodes_map());
        }
        self.append_conn(from, id);
        let ghost g2 = *self;
        self.append_conn(to, id);
        proof {
            assert(self.edges_map() =~= g1.edges_map());
            assert(self.nodes_map().dom() =~= g0.nodes_map().dom());
            // pin each node's new value
            assert forall|m: NodeID|
                #[trigger] g0.nodes_map().dom().contains(m) && m != from && m != to implies
                self.nodes_map()[m] == g0.nodes_map()[m] by {};
            // adjacency
            assert forall|id2: NodeID, j: int|
                self.nodes_map().dom().contains(id2) && 0 <= j
                    < self.nodes_map()[id2].connections@.len() implies {
                let eid = #[trigger] self.nodes_map()[id2].connections@[j];
                self.edges_map().dom().contains(eid) && (self.edges_map()[eid].from == id2
                    || self.edges_map()[eid].to == id2)
            } by {
                let cs0 = g0.nodes_map()[id2].connections@;
                let cs2 = self.nodes_map()[id2].connections@;
                if j < cs0.len() {
                    assert(cs2[j] == cs0[j]);
                    let eid = cs0[j];
                    assert(g0.edges_map().dom().contains(eid) && (g0.edges_map()[eid].from == id2
                        || g0.edges_map()[eid].to == id2));
                    assert(self.edges_map()[eid] == g0.edges_map()[eid]);
                } else {
                    assert(cs2[j] == id);
                    assert(id2 == from || id2 == to);
                }
            };
            if g0.consistent() && g0.node_settled(from) && g0.node_settled(to) {
                let stl1 = self.settled_set();
                assert forall|eid: EdgeID| #[trigger]
                    self.edges_map().dom().contains(eid) implies {
                    let e = self.edges_map()[eid];
                    &&& stl1.contains(e.from)
                    &&& stl1.contains(e.to)
                    &&& (self.nodes_map().dom().contains(e.from)
                        ==> self.nodes_map()[e.from].connections@.contains(eid))
                    &&& (self.nodes_map().dom().contains(e.to)
                        ==> self.nodes_map()[e.to].connections@.contains(eid))
                } by {
                    let e = self.edges_map()[eid];
                    if eid == id {
                        assert(self.node_settled(from) && self.node_settled(to));
                        if self.nodes_map().dom().contains(from) {
                            let c = self.nodes_map()[from].connections@;
                            assert(c.contains(id)) by {
                                if from == to {
                                    assert(c[c.len() - 1] == id);
                                } else {
                                    assert(c[c.len() - 1] == id);
                                }
                            };
                        }
                        if self.nodes_map().dom().contains(to) {
                            let c = self.nodes_map()[to].connections@;
                            assert(c[c.len() - 1] == id);
                            assert(c.contains(id));
                        }
                    } else {
                        assert(g0.edges_map().dom().contains(eid));
                        assert(e == g0.edges_map()[eid]);
                        assert(g0.node_settled(e.from) && g0.node_settled(e.to));
                        if self.nodes_map().dom().contains(e.from) {
                            assert(g0.nodes_map()[e.from].connections@.contains(eid));
                            let j = choose|j: int|
                                0 <= j < g0.nodes_map()[e.from].connections@.len()
                                    && g0.nodes_map()[e.from].connections@[j] == eid;
                            assert(self.nodes_map()[e.from].connections@[j] == eid);
                            assert(self.nodes_map()[e.from].connections@.contains(eid));
                        }
                        if self.nodes_map().dom().contains(e.to) {
                            assert(g0.nodes_map()[e.to].connections@.contains(eid));
                            let j = choose|j: int|
                                0 <= j < g0.nodes_map()[e.to].connections@.len()
                                    && g0.nodes_map()[e.to].connections@[j] == eid;
                            assert(self.nodes_map()[e.to].connections@[j] == eid);
                            assert(self.nodes_map()[e.to].connections@.contains(eid));
                        }
                    }
                };
            }
        }
        id
    }

    fn remove_node(&mut self, id: NodeID) -> (r: Result<(), GraphError>) {
        let ghost g0 = *old(self);
        let node = match self.nodes.remove(id.0) {
            Some(n) => n,
            None => {
                return Err(GraphError::NodeNotFound);
            },
        };
        let ghost conns = node.connections@;
        proof {
            assert(node == g0.nodes_map()[id]);
            assert(self.nodes_map().dom() =~= g0.nodes_map().dom().remove(id));
            let s0 = conns.take(0).to_set();
            assert(s0 =~= Set::<EdgeID>::empty());
            assert forall|m: NodeID|
                #[trigger] self.nodes_map().dom().contains(m) implies conns_filtered(
                g0.nodes_map()[m],
                self.nodes_map()[m],
                s0,
            ) by {
                lemma_filter_all(g0.nodes_map()[m].connections@, |e: EdgeID| !s0.contains(e));
                assert(self.nodes_map()[m] == g0.nodes_map()[m]);
            };
            assert forall|eid: EdgeID| #[trigger]
                self.edges_map().dom().contains(eid) <==> (g0.edges_map().dom().contains(eid)
                    && !conns.take(0).to_set().contains(eid)) by {};
        }
        let mut i: usize = 0;
        while i < node.connections.len()
            invariant
                g0.inv(),
                g0.nodes_map().dom().contains(id),
                node == g0.nodes_map()[id],
                conns == node.connections@,
                i <= conns.len(),
                self.nodes.wf(),
                self.edges.wf(),
                self.nodes.num_slots() == g0.nodes.num_slots(),
                self.edges.num_slots() == g0.edges.num_slots(),
                self.nodes_map().dom() =~= g0.nodes_map().dom().remove(id),
                forall|m: NodeID|
                    #[trigger] self.nodes_map().dom().contains(m) ==> conns_filtered(
                        g0.nodes_map()[m],
                        self.nodes_map()[m],
                        conns.take(i as int).to_set(),
                    ),
                forall|eid: EdgeID| #[trigger]
                    self.edges_map().dom().contains(eid) <==> (g0.edges_map().dom().contains(eid)
                        && !conns.take(i as int).to_set().contains(eid)),
                forall|eid: EdgeID|
                    #[trigger] self.edges_map().dom().contains(eid) ==> self.edges_map()[eid]
                        == g0.edges_map()[eid],
                forall|id2: NodeID| #[trigger] g0.node_settled(id2) ==> self.node_settled(id2),
                forall|eid: EdgeID| #[trigger] g0.edge_settled(eid) ==> self.edge_settled(eid),
                self.node_settled(id),
            decreases conns.len() - i,
        {
            let eid = node.connections[i];
            let ghost s_prev = conns.take(i as int).to_set();
            let ghost s_next = conns.take(i as int + 1).to_set();
            proof {
                assert(conns.take(i as int + 1) =~= conns.take(i as int).push(conns[i as int]));
                assert forall|x: EdgeID| s_next.contains(x) implies s_prev.insert(eid).contains(
                    x,
                ) by {
                    let jx = choose|jx: int|
                        0 <= jx < conns.take(i as int + 1).len() && #[trigger] conns.take(
                            i as int + 1,
                        )[jx] == x;
                    if jx < i {
                        assert(conns.take(i as int)[jx] == x);
                    }
                };
                assert forall|x: EdgeID| s_prev.insert(eid).contains(x) implies s_next.contains(
                    x,
                ) by {
                    if x == eid {
                        assert(conns.take(i as int + 1)[i as int] == x);
                    } else {
                        let jx = choose|jx: int|
                            0 <= jx < conns.take(i as int).len() && #[trigger] conns.take(
                                i as int,
                            )[jx] == x;
                        assert(conns.take(i as int + 1)[jx] == x);
                    }
                };
                assert(s_next =~= s_prev.insert(eid));
                g0.lemma_inv();
                assert(g0.edges_map().dom().contains(eid) && (g0.edges_map()[eid].from == id
                    || g0.edges_map()[eid].to == id));
            }
            let ghost g_a = *self;
            match self.edges.remove(eid.0) {
                Some(edge) => {
                    proof {
                        assert(g_a.edges_map().dom().contains(eid));
                        assert(edge == g_a.edges_map()[eid]);
                        assert(edge == g0.edges_map()[eid]);
                        assert(!s_prev.contains(eid));
                        assert(self.nodes == g_a.nodes);
                        assert(self.nodes_map() == g_a.nodes_map());
                    }
                    let from = edge.from;
                    let to = edge.to;
                    let ghost g_b = *self;
                    self.retract_at(from, eid);
                    let ghost g_c = *self;
                    if to != from {
                        self.retract_at(to, eid);
                    }
                    proof {
                        assert(self.edges_map() == g_b.edges_map());
                        assert(self.nodes_map().dom() =~= g_b.nodes_map().dom());
                        assert forall|m: NodeID|
                            #[trigger] self.nodes_map().dom().contains(m) implies conns_filtered(
                            g0.nodes_map()[m],
                            self.nodes_map()[m],
                            s_next,
                        ) by {
                            let base = g0.nodes_map()[m].connections@;
                            let p_prev = |e: EdgeID| !s_prev.contains(e);
                            let p_next = |e: EdgeID| !s_next.contains(e);
                            let p_ne = |x: EdgeID| x != eid;
                            assert(conns_filtered(g0.nodes_map()[m], g_a.nodes_map()[m], s_prev));
                            assert(self.nodes.live(m.0) && g_c.nodes.live(m.0) && g_b.nodes.live(
                                m.0,
                            ) && g_a.nodes.live(m.0));
                            assert(g_b.nodes == g_a.nodes);
                            if m == from || m == to {
                                if m == from {
                                    assert(g_c.nodes.contents()[m.0].connections@
                                        == g_b.nodes.contents()[m.0].connections@.filter(p_ne));
                                    if to != from {
                                        assert(from.0 != to.0);
                                        assert(self.nodes.contents()[m.0] == g_c.nodes.contents()[
                                        m.0]);
                                    }
                                } else {
                                    assert(to != from);
                                    assert(to.0 != from.0);
                                    assert(g_c.nodes.contents()[m.0] == g_b.nodes.contents()[m.0]);
                                    assert(self.nodes.contents()[m.0].connections@
                                        == g_c.nodes.contents()[m.0].connections@.filter(p_ne));
                                }
                                assert(self.nodes_map()[m].connections@ == g_a.nodes_map()[
                                m].connections@.filter(p_ne));
                                assert(self.nodes_map()[m].id == g_a.nodes_map()[m].id
                                    && self.nodes_map()[m].data == g_a.nodes_map()[m].data);
                                lemma_filter_filter(base, p_prev, p_ne);
                                lemma_filter_agree(base, |e: EdgeID| p_prev(e) && p_ne(e), p_next);
                            } else {
                                assert(self.nodes_map()[m] == g_a.nodes_map()[m]);
                                assert forall|j: int| 0 <= j < base.len() implies p_prev(
                                    #[trigger] base[j],
                                ) == p_next(base[j]) by {
                                    if base[j] == eid {
                                        assert(g0.nodes_map()[m].connections@.contains(eid));
                                        assert(g0.edges_map()[eid].from == m || g0.edges_map()[
                                        eid].to == m);
                                    }
                                };
                                lemma_filter_agree(base, p_prev, p_next);
                            }
                        };
                        assert(self.edges == g_b.edges);
                        assert forall|eid2: EdgeID| #[trigger] self.edges_map().dom().contains(
                            eid2,
                        ) implies (g0.edges_map().dom().contains(eid2) && !s_next.contains(eid2)
                            && self.edges_map()[eid2] == g0.edges_map()[eid2]) by {
                            assert(g_a.edges.contents().dom().contains(eid2.0));
                            assert(g_a.edges_map().dom().contains(eid2));
                            assert(eid2.0 != eid.0);
                            assert(eid2 != eid);
                        };
                        assert forall|eid2: EdgeID|
                            g0.edges_map().dom().contains(eid2) && !s_next.contains(eid2) implies
                            #[trigger] self.edges_map().dom().contains(eid2) by {
                            assert(g_a.edges_map().dom().contains(eid2));
                            if eid2.0 == eid.0 {
                                g_a.edges.lemma_live_same_slot(eid2.0, eid.0);
                                assert(false);
                            }
                        };
                    }
                },
                None => {
                    proof {
                        assert(!g_a.edges_map().dom().contains(eid));
                        assert(s_prev.contains(eid));
                        assert(s_next =~= s_prev);
                        assert forall|m: NodeID|
                            #[trigger] self.nodes_map().dom().contains(m) implies conns_filtered(
                            g0.nodes_map()[m],
                            self.nodes_map()[m],
                            s_next,
                        ) by {
                            assert(conns_filtered(g0.nodes_map()[m], self.nodes_map()[m], s_prev));
                            lemma_filter_agree(
                                g0.nodes_map()[m].connections@,
                                |e: EdgeID| !s_prev.contains(e),
                                |e: EdgeID| !s_next.contains(e),
                            );
                        };
                    }
                },
            }
            i = i + 1;
        }
        proof {
            assert(conns.take(conns.len() as int) =~= conns);
            let gone = conns.to_set();
            assert(node.connections@.to_set() == gone);
            // adjacency of the final state
            assert forall|id2: NodeID, j: int|
                self.nodes_map().dom().contains(id2) && 0 <= j
                    < self.nodes_map()[id2].connections@.len() implies {
                let eid = #[trigger] self.nodes_map()[id2].connections@[j];
                self.edges_map().dom().contains(eid) && (self.edges_map()[eid].from == id2
                    || self.edges_map()[eid].to == id2)
            } by {
                let base = g0.nodes_map()[id2].connections@;
                let p = |e: EdgeID| !gone.contains(e);
                assert(self.nodes_map()[id2].connections@ == base.filter(p));
                lemma_filter_elems(base, p, j);
                let eid = self.nodes_map()[id2].connections@[j];
                g0.lemma_inv();
                let jj = choose|jj: int| 0 <= jj < base.len() && base[jj] == eid;
                assert(g0.edges_map().dom().contains(eid) && (g0.edges_map()[eid].from == id2
                    || g0.edges_map()[eid].to == id2));
            };
            if g0.consistent() {
                let stl1 = self.settled_set();
                assert forall|eid: EdgeID| #[trigger]
                    self.edges_map().dom().contains(eid) implies {
                    let e = self.edges_map()[eid];
                    &&& stl1.contains(e.from)
                    &&& stl1.contains(e.to)
                    &&& (self.nodes_map().dom().contains(e.from)
                        ==> self.nodes_map()[e.from].connections@.contains(eid))
                    &&& (self.nodes_map().dom().contains(e.to)
                        ==> self.nodes_map()[e.to].connections@.contains(eid))
                } by {
                    let e = g0.edges_map()[eid];
                    assert(g0.node_settled(e.from) && g0.node_settled(e.to));
                    if self.nodes_map().dom().contains(e.from) {
                        lemma_kept_conn::<N, E>(g0, *self, e.from, eid, gone);
                    }
                    if self.nodes_map().dom().contains(e.to) {
                        lemma_kept_conn::<N, E>(g0, *self, e.to, eid, gone);
                    }
                };
                assert forall|eid: EdgeID|
                    #[trigger] g0.edges_map().dom().contains(eid) && (g0.edges_map()[eid].from
                        == id || g0.edges_map()[eid].to == id) implies !self.edges_map(
                ).dom().contains(eid) by {
                    assert(g0.nodes_map()[id].connections@.contains(eid));
                };
                assert forall|m: NodeID, eid: EdgeID|
                    #[trigger] self.nodes_map().dom().contains(m) && #[trigger] g0.edges_map(
                    ).dom().contains(eid) && (g0.edges_map()[eid].from == id || g0.edges_map()[
                    eid].to == id) implies !self.nodes_map()[m].connections@.contains(eid) by {
                    assert(g0.nodes_map()[id].connections@.contains(eid));
                    assert(gone.contains(eid));
                    let cs = self.nodes_map()[m].connections@;
                    let base = g0.nodes_map()[m].connections@;
                    let p = |e: EdgeID| !gone.contains(e);
                    if cs.contains(eid) {
                        let j = choose|j: int| 0 <= j < cs.len() && cs[j] == eid;
                        lemma_filter_elems(base, p, j);
                    }
                };
            }
        }
        Ok(())
    }

    fn remove_edge(&mut self, id: EdgeID) -> (r: Result<(), GraphError>) {
        let ghost g0 = *old(self);
        let (from, to) = match self.edges.get(id.0) {
            Some(e) => (e.from, e.to),
            None => {
                return Err(GraphError::EdgeNotFound);
            },
        };
        let ghost g_pre = *self;
        self.retract_at(from, id);
        let ghost g_mid = *self;
        if to != from {
            self.retract_at(to, id);
        }
        let ghost g_mid2 = *self;
        proof {
            assert(g_pre == g0);
        }
        let removed = self.edges.remove(id.0);
        proof {
            let single = Set::<EdgeID>::empty().insert(id);
            assert(removed is Some);
            assert(self.edges_map().dom() =~= g0.edges_map().dom().remove(id));
            assert(self.nodes_map() == g_mid2.nodes_map());
            assert(self.nodes_map().dom() =~= g0.nodes_map().dom());
            g0.lemma_inv();
            assert forall|m: NodeID|
                #[trigger] self.nodes_map().dom().contains(m) implies conns_filtered(
                g0.nodes_map()[m],
                self.nodes_map()[m],
                single,
            ) by {
                let base = g0.nodes_map()[m].connections@;
                let eid = id;
                let p_ne = |x: EdgeID| x != eid;
                let p_single = |e: EdgeID| !single.contains(e);
                if m == from || m == to {
                    assert(self.nodes.live(m.0) && g_mid2.nodes.live(m.0) && g_mid.nodes.live(
                        m.0,
                    ) && g0.nodes.live(m.0));
                    if m == from {
                        assert(g_pre.nodes.live(m.0));
                        assert(g_mid.nodes.contents()[m.0].connections@ == g_pre.nodes.contents()[
                        m.0].connections@.filter(p_ne));
                        assert(g_mid.nodes.contents()[m.0].connections@ == g0.nodes.contents()[
                        m.0].connections@.filter(p_ne));
                        if to != from {
                            assert(from.0 != to.0);
                            assert(g_mid2.nodes.contents()[m.0] == g_mid.nodes.contents()[m.0]);
                        }
                    } else {
                        assert(to != from);
                        assert(to.0 != from.0);
                        assert(g_mid.nodes.contents()[m.0] == g0.nodes.contents()[m.0]);
                        assert(g_mid2.nodes.contents()[m.0].connections@ == g_mid.nodes.contents()[
                        m.0].connections@.filter(p_ne));
                    }
                    assert(self.nodes == g_mid2.nodes);
                    assert(self.nodes_map()[m].connections@ == base.filter(p_ne));
                    assert(self.nodes_map()[m].id == g0.nodes_map()[m].id && self.nodes_map()[
                    m].data == g0.nodes_map()[m].data);
                    lemma_filter_agree(base, p_ne, p_single);
                } else {
                    assert(self.nodes_map()[m] == g0.nodes_map()[m]);
                    assert forall|j: int| 0 <= j < base.len() implies p_single(
                        #[trigger] base[j],
                    ) by {
                        if base[j] == id {
                            assert(g0.nodes_map()[m].connections@.contains(id));
                            assert(g0.edges_map()[id].from == m || g0.edges_map()[id].to == m);
                        }
                    };
                    lemma_filter_all(base, p_single);
                }
            };
            // adjacency of the final state
            assert forall|id2: NodeID, j: int|
                self.nodes_map().dom().contains(id2) && 0 <= j
                    < self.nodes_map()[id2].connections@.len() implies {
                let eid = #[trigger] self.nodes_map()[id2].connections@[j];
                self.edges_map().dom().contains(eid) && (self.edges_map()[eid].from == id2
                    || self.edges_map()[eid].to == id2)
            } by {
                let base = g0.nodes_map()[id2].connections@;
                let p = |e: EdgeID| !single.contains(e);
                assert(self.nodes_map()[id2].connections@ == base.filter(p));
                lemma_filter_elems(base, p, j);
                let eid = self.nodes_map()[id2].connections@[j];
                let jj = choose|jj: int| 0 <= jj < base.len() && base[jj] == eid;
                assert(g0.edges_map().dom().contains(eid) && (g0.edges_map()[eid].from == id2
                    || g0.edges_map()[eid].to == id2));
            };
            if g0.consistent() {
                let stl1 = self.settled_set();
                assert forall|eid: EdgeID| #[trigger]
                    self.edges_map().dom().contains(eid) implies {
                    let e = self.edges_map()[eid];
                    &&& stl1.contains(e.from)
                    &&& stl1.contains(e.to)
                    &&& (self.nodes_map().dom().contains(e.from)
                        ==> self.nodes_map()[e.from].connections@.contains(eid))
                    &&& (self.nodes_map().dom().contains(e.to)
                        ==> self.nodes_map()[e.to].connections@.contains(eid))
                } by {
                    let e = g0.edges_map()[eid];
                    assert(g0.node_settled(e.from) && g0.node_settled(e.to));
                    if self.nodes_map().dom().contains(e.from) {
                        lemma_kept_conn::<N, E>(g0, *self, e.from, eid, single);
                    }
                    if self.nodes_map().dom().contains(e.to) {
                        lemma_kept_conn::<N, E>(g0, *self, e.to, eid, single);
                    }
                };
            }
        }
        Ok(())
    }
}

/// A node that kept an edge under a retraction still lists it: the edge is in
/// the node's old connections and survives the filter.
proof fn lemma_kept_conn<N, E>(
    g0: Graph<N, E>,
    g1: Graph<N, E>,
    m: NodeID,
    eid: EdgeID,
    removed: Set<EdgeID>,
)
    requires
        g1.nodes_map().dom().contains(m),
        conns_filtered(g0.nodes_map()[m], g1.nodes_map()[m], removed),
        g0.nodes_map().dom().contains(m),
        g0.nodes_map()[m].connections@.contains(eid),
        !removed.contains(eid),
    ensures
        g1.nodes_map()[m].connections@.contains(eid),
{
    let base = g0.nodes_map()[m].connections@;
    let p = |e: EdgeID| !removed.contains(e);
    let j = choose|j: int| 0 <= j < base.len() && base[j] == eid;
    base.lemma_filter_contains(p, j);
}

} // verus!
