//! [`GraphInterface`]: the capability contract that every graph-like
//! container implements — the mutation and lookup operations, with their
//! specifications over an abstract view of the graph.
//!
//! The view is a pair of maps: live node identifiers to [`Node`] values and
//! live edge identifiers to [`Edge`] values. Contracts also speak of which
//! identifiers are *settled* — issued at some point, live or dead — which is
//! what makes freshness of new identifiers a statable guarantee.

use crate::edge::{Edge, EdgeID};
use crate::node::{Node, NodeID};
use crate::GraphError;
use vstd::prelude::*;

verus! {

/// Structural soundness of a graph view: every node and edge records its own
/// identifier, and every adjacency entry resolves to a live edge touching the
/// node that lists it.
pub open spec fn adjacency_ok<N, E>(
    nodes: Map<NodeID, Node<N>>,
    edges: Map<EdgeID, Edge<E>>,
) -> bool {
    &&& forall|id: NodeID| #[trigger] nodes.dom().contains(id) ==> nodes[id].id == id
    &&& forall|eid: EdgeID| #[trigger] edges.dom().contains(eid) ==> edges[eid].id == eid
    &&& forall|id: NodeID, j: int|
        nodes.dom().contains(id) && 0 <= j < nodes[id].connections@.len() ==> {
            let eid = #[trigger] nodes[id].connections@[j];
            edges.dom().contains(eid) && (edges[eid].from == id || edges[eid].to == id)
        }
}

/// Full bookkeeping over a graph view: every live edge is recorded in the
/// adjacency list of each of its live endpoints, and endpoint identifiers are
/// in `settled`.
pub open spec fn consistent_on<N, E>(
    nodes: Map<NodeID, Node<N>>,
    edges: Map<EdgeID, Edge<E>>,
    settled: Set<NodeID>,
) -> bool {
    forall|eid: EdgeID| #[trigger] edges.dom().contains(eid) ==> {
        let e = edges[eid];
        &&& settled.contains(e.from)
        &&& settled.contains(e.to)
        &&& (nodes.dom().contains(e.from) ==> nodes[e.from].connections@.contains(eid))
        &&& (nodes.dom().contains(e.to) ==> nodes[e.to].connections@.contains(eid))
    }
}

/// The node `n_new` is `n_old` with every connection in `removed` retracted.
pub open spec fn conns_filtered<N>(n_old: Node<N>, n_new: Node<N>, removed: Set<EdgeID>) -> bool {
    &&& n_new.id == n_old.id
    &&& n_new.data == n_old.data
    &&& n_new.connections@ == n_old.connections@.filter(|e: EdgeID| !removed.contains(e))
}


/// How many edges a batched node-and-edge description will create.
pub open spec fn total_conns<N, E>(s: Seq<(N, Vec<(NodeID, E)>)>) -> nat
    decreases s.len(),
{
    if s.len() == 0 {
        0
    } else {
        s.first().1@.len() + total_conns(s.drop_first())
    }
}

/// How many edges a batched plain description will create.
pub open spec fn total_targets<N>(s: Seq<(N, Vec<NodeID>)>) -> nat
    decreases s.len(),
{
    if s.len() == 0 {
        0
    } else {
        s.first().1@.len() + total_targets(s.drop_first())
    }
}

/// Edge totals add over concatenation.
proof fn lemma_total_conns_additive<N, E>(a: Seq<(N, Vec<(NodeID, E)>)>, b: Seq<(N, Vec<(NodeID, E)>)>)
    ensures
        total_conns(a + b) == total_conns(a) + total_conns(b),
    decreases a.len(),
{
    if a.len() == 0 {
        assert(a + b =~= b);
    } else {
        assert((a + b).drop_first() =~= a.drop_first() + b);
        assert((a + b).first() == a.first());
        lemma_total_conns_additive(a.drop_first(), b);
    }
}

/// One more described node adds exactly its target count.
proof fn lemma_total_conns_take_succ<N, E>(s: Seq<(N, Vec<(NodeID, E)>)>, i: int)
    requires
        0 <= i < s.len(),
    ensures
        total_conns(s.take(i + 1)) == total_conns(s.take(i)) + s[i].1@.len(),
{
    assert(s.take(i + 1) =~= s.take(i) + seq![s[i]]);
    lemma_total_conns_additive(s.take(i), seq![s[i]]);
    assert(seq![s[i]].drop_first() =~= Seq::<(N, Vec<(NodeID, E)>)>::empty());
    assert(total_conns(Seq::<(N, Vec<(NodeID, E)>)>::empty()) == 0);
    assert(total_conns(seq![s[i]]) == s[i].1@.len());
}

/// Target totals add over concatenation.
proof fn lemma_total_targets_additive<N>(a: Seq<(N, Vec<NodeID>)>, b: Seq<(N, Vec<NodeID>)>)
    ensures
        total_targets(a + b) == total_targets(a) + total_targets(b),
    decreases a.len(),
{
    if a.len() == 0 {
        assert(a + b =~= b);
    } else {
        assert((a + b).drop_first() =~= a.drop_first() + b);
        assert((a + b).first() == a.first());
        lemma_total_targets_additive(a.drop_first(), b);
    }
}

/// One more described node adds exactly its target count.
proof fn lemma_total_targets_take_succ<N>(s: Seq<(N, Vec<NodeID>)>, i: int)
    requires
        0 <= i < s.len(),
    ensures
        total_targets(s.take(i + 1)) == total_targets(s.take(i)) + s[i].1@.len(),
{
    assert(s.take(i + 1) =~= s.take(i) + seq![s[i]]);
    lemma_total_targets_additive(s.take(i), seq![s[i]]);
    assert(seq![s[i]].drop_first() =~= Seq::<(N, Vec<NodeID>)>::empty());
    assert(total_targets(Seq::<(N, Vec<NodeID>)>::empty()) == 0);
    assert(total_targets(seq![s[i]]) == s[i].1@.len());
}

/// Edge number `total_conns(desc.take(i)) + k` of a batched addition runs
/// from the `i`-th created node to the `k`-th listed target, with a clone of
/// the listed payload.
pub open spec fn batch_wired<N2, E2: Clone>(
    desc: Seq<(N2, Vec<(NodeID, E2)>)>,
    edges: Map<EdgeID, Edge<E2>>,
    nids: Seq<NodeID>,
    eids: Seq<EdgeID>,
    i: int,
    k: int,
) -> bool {
    let j = total_conns(desc.take(i)) + k;
    &&& 0 <= j < eids.len()
    &&& edges[eids[j]].from == nids[i]
    &&& edges[eids[j]].to == desc[i].1@[k].0
    &&& vstd::pervasive::cloned::<E2>(desc[i].1@[k].1, edges[eids[j]].data)
}

/// Edge number `total_targets(desc.take(i)) + k` of a plain batched addition
/// runs from the `i`-th created node to the `k`-th listed target.
pub open spec fn batch_targets_wired<N2, E2>(
    desc: Seq<(N2, Vec<NodeID>)>,
    edges: Map<EdgeID, Edge<E2>>,
    nids: Seq<NodeID>,
    eids: Seq<EdgeID>,
    i: int,
    k: int,
) -> bool {
    let j = total_targets(desc.take(i)) + k;
    &&& 0 <= j < eids.len()
    &&& edges[eids[j]].from == nids[i]
    &&& edges[eids[j]].to == desc[i].1@[k]
}

/// `c` is a clone of a clone of `a`.
pub open spec fn cloned_twice<T: Clone>(a: T, c: T) -> bool {
    exists|b: T| vstd::pervasive::cloned(a, b) && #[trigger] vstd::pervasive::cloned(b, c)
}

/// The adjacency list of `m` after adding the edges `ids` for the endpoint
/// pairs `pairs`, in order, on top of `base`: each edge is appended once per
/// end it has at `m` — twice for a self-loop.
pub open spec fn conns_after_adds(
    m: NodeID,
    base: Seq<EdgeID>,
    pairs: Seq<(NodeID, NodeID)>,
    ids: Seq<EdgeID>,
) -> Seq<EdgeID>
    recommends
        pairs.len() == ids.len(),
    decreases pairs.len(),
{
    if pairs.len() == 0 {
        base
    } else {
        conns_after_adds(m, base, pairs.drop_last(), ids.drop_last()) + (if pairs.last().0 == m {
            seq![ids.last()]
        } else {
            Seq::<EdgeID>::empty()
        }) + (if pairs.last().1 == m {
            seq![ids.last()]
        } else {
            Seq::<EdgeID>::empty()
        })
    }
}

/// When every pair leaves `m` and none returns to it, the additions are
/// exactly the new edge identifiers, in order.
pub proof fn lemma_conns_after_adds_all_from(
    m: NodeID,
    base: Seq<EdgeID>,
    pairs: Seq<(NodeID, NodeID)>,
    ids: Seq<EdgeID>,
)
    requires
        pairs.len() == ids.len(),
        forall|j: int| 0 <= j < pairs.len() ==> (#[trigger] pairs[j]).0 == m && pairs[j].1 != m,
    ensures
        conns_after_adds(m, base, pairs, ids) == base + ids,
    decreases pairs.len(),
{
    if pairs.len() == 0 {
        assert(conns_after_adds(m, base, pairs, ids) =~= base + ids);
    } else {
        assert(forall|j: int|
            0 <= j < pairs.drop_last().len() ==> (#[trigger] pairs.drop_last()[j]).0 == m
                && pairs.drop_last()[j].1 != m);
        lemma_conns_after_adds_all_from(m, base, pairs.drop_last(), ids.drop_last());
        assert(conns_after_adds(m, base, pairs, ids) =~= base + ids);
    }
}

/// One `add_edge` call extends every tracked adjacency list by exactly its
/// contribution for the next pair.
proof fn lemma_conns_step<N>(
    prev_nodes: Map<NodeID, Node<N>>,
    cur_nodes: Map<NodeID, Node<N>>,
    base_nodes: Map<NodeID, Node<N>>,
    pairs: Seq<(NodeID, NodeID)>,
    prev_ids: Seq<EdgeID>,
    cur_ids: Seq<EdgeID>,
    i: int,
    id: EdgeID,
)
    requires
        0 <= i < pairs.len(),
        prev_ids.len() == i,
        cur_ids == prev_ids.push(id),
        forall|m: NodeID|
            #[trigger] base_nodes.dom().contains(m) ==> prev_nodes.dom().contains(m)
                && prev_nodes[m].connections@ == conns_after_adds(
                m,
                base_nodes[m].connections@,
                pairs.take(i),
                prev_ids,
            ),
        forall|m: NodeID|
            #[trigger] prev_nodes.dom().contains(m) && m != pairs[i].0 && m != pairs[i].1
                ==> cur_nodes[m] == prev_nodes[m],
        (prev_nodes.dom().contains(pairs[i].0) && pairs[i].0 != pairs[i].1)
            ==> cur_nodes[pairs[i].0].connections@ == prev_nodes[
        pairs[i].0].connections@.push(id),
        (prev_nodes.dom().contains(pairs[i].1) && pairs[i].0 != pairs[i].1)
            ==> cur_nodes[pairs[i].1].connections@ == prev_nodes[
        pairs[i].1].connections@.push(id),
        (prev_nodes.dom().contains(pairs[i].0) && pairs[i].0 == pairs[i].1)
            ==> cur_nodes[pairs[i].0].connections@ == prev_nodes[
        pairs[i].0].connections@.push(id).push(id),
    ensures
        forall|m: NodeID|
            #[trigger] base_nodes.dom().contains(m) ==> cur_nodes[m].connections@
                == conns_after_adds(m, base_nodes[m].connections@, pairs.take(i + 1), cur_ids),
{
    assert forall|m: NodeID| #[trigger] base_nodes.dom().contains(m) implies cur_nodes[
    m].connections@ == conns_after_adds(
        m,
        base_nodes[m].connections@,
        pairs.take(i + 1),
        cur_ids,
    ) by {
        assert(pairs.take(i + 1).drop_last() =~= pairs.take(i));
        assert(cur_ids.drop_last() =~= prev_ids);
        assert(pairs.take(i + 1).last() == pairs[i]);
        assert(cur_ids.last() == id);
        let b = conns_after_adds(m, base_nodes[m].connections@, pairs.take(i), prev_ids);
        assert(prev_nodes[m].connections@ == b);
        if m != pairs[i].0 && m != pairs[i].1 {
            assert(cur_nodes[m] == prev_nodes[m]);
            assert(b + Seq::<EdgeID>::empty() + Seq::<EdgeID>::empty() =~= b);
        } else if pairs[i].0 == m && pairs[i].1 == m {
            assert(cur_nodes[m].connections@ == b.push(id).push(id));
            assert(b.push(id).push(id) =~= b + seq![id] + seq![id]);
        } else if pairs[i].0 == m {
            assert(cur_nodes[m].connections@ == b.push(id));
            assert(b.push(id) =~= b + seq![id] + Seq::<EdgeID>::empty());
        } else {
            assert(cur_nodes[m].connections@ == b.push(id));
            assert(b.push(id) =~= b + Seq::<EdgeID>::empty() + seq![id]);
        }
    };
}

/// Basic read and write operations on a graph: the core operations needed to
/// change a graph, plus derived helpers.
pub trait GraphInterface: Sized {
    type NodeData;

    type EdgeData;

    /// The implementation's internal invariant.
    spec fn inv(&self) -> bool;

    /// The live nodes, by identifier.
    spec fn nodes_map(&self) -> Map<NodeID, Node<Self::NodeData>>;

    /// The live edges, by identifier.
    spec fn edges_map(&self) -> Map<EdgeID, Edge<Self::EdgeData>>;

    /// `id` was issued by this graph's node storage at some point (it is live
    /// or dead, never to be issued again).
    spec fn node_settled(&self, id: NodeID) -> bool;

    /// `id` was issued by this graph's edge storage at some point.
    spec fn edge_settled(&self, id: EdgeID) -> bool;

    /// How many node slots the graph has ever allocated.
    spec fn node_slots(&self) -> int;

    /// How many edge slots the graph has ever allocated.
    spec fn edge_slots(&self) -> int;

    /// The set of node identifiers this graph has ever issued.
    open spec fn settled_set(&self) -> Set<NodeID> {
        Set::new(|id: NodeID| self.node_settled(id))
    }

    /// Full bookkeeping of this graph: every live edge is recorded in the
    /// adjacency list of each of its live endpoints, and endpoint identifiers
    /// are settled — they came from this graph, so a later `add_node` can
    /// never collide with them. Graphs built through the interface from
    /// identifiers the interface returned satisfy this; an identifier forged
    /// out of thin air can escape it.
    open spec fn consistent(&self) -> bool {
        consistent_on(self.nodes_map(), self.edges_map(), self.settled_set())
    }

    /// What the invariant yields about the view.
    proof fn lemma_inv(&self)
        requires
            self.inv(),
        ensures
            adjacency_ok(self.nodes_map(), self.edges_map()),
            self.nodes_map().dom().finite(),
            self.edges_map().dom().finite(),
            self.nodes_map().dom().len() <= self.node_slots(),
            forall|id: NodeID|
                #[trigger] self.nodes_map().dom().contains(id) ==> self.node_settled(id),
            forall|eid: EdgeID|
                #[trigger] self.edges_map().dom().contains(eid) ==> self.edge_settled(eid),
            self.settled_set() == Set::new(|id: NodeID| self.node_settled(id)),
            self.consistent() == consistent_on(
                self.nodes_map(),
                self.edges_map(),
                self.settled_set(),
            ),
    ;

    /// How many nodes the graph holds.
    fn node_count(&self) -> (n: usize)
        requires
            self.inv(),
        ensures
            n == self.nodes_map().dom().len(),
    ;

    /// Every live node identifier, each exactly once.
    fn nodes(&self) -> (r: Vec<NodeID>)
        requires
            self.inv(),
        ensures
            r@.no_duplicates(),
            forall|j: int| 0 <= j < r@.len() ==> self.nodes_map().dom().contains(#[trigger] r@[j]),
            forall|id: NodeID| #[trigger] self.nodes_map().dom().contains(id) ==> r@.contains(id),
            r@.len() == self.nodes_map().dom().len(),
    ;

    /// Look a node up; fails exactly on absent or stale identifiers.
    fn node<'a>(&'a self, id: NodeID) -> (r: Result<&'a Node<Self::NodeData>, GraphError>)
        ensures
            match r {
                Ok(n) => self.nodes_map().dom().contains(id) && *n == self.nodes_map()[id],
                Err(e) => !self.nodes_map().dom().contains(id) && e == GraphError::NodeNotFound,
            },
    ;

    /// Look a node up for mutation. Mutating anything but `data` through the
    /// returned reference forfeits the graph's invariant.
    fn node_mut<'a>(&'a mut self, id: NodeID) -> (r: Result<
        &'a mut Node<Self::NodeData>,
        GraphError,
    >)
        requires
            old(self).inv(),
        ensures
            match r {
                Ok(n) => {
                    &&& old(self).nodes_map().dom().contains(id)
                    &&& *n == old(self).nodes_map()[id]
                    &&& final(self).nodes_map() =~= old(self).nodes_map().insert(id, *final(n))
                    &&& final(self).edges_map() == old(self).edges_map()
                    &&& forall|id2: NodeID|
                        final(self).node_settled(id2) <==> old(self).node_settled(id2)
                    &&& forall|eid: EdgeID|
                        final(self).edge_settled(eid) <==> old(self).edge_settled(eid)
                    &&& final(self).node_slots() == old(self).node_slots()
                    &&& final(self).edge_slots() == old(self).edge_slots()
                    &&& (final(n).id == id && final(n).connections@ == old(self).nodes_map()[id].connections@) ==> (final(self).inv() && (consistent_on(
                        old(self).nodes_map(),
                        old(self).edges_map(),
                        old(self).settled_set(),
                    ) ==> consistent_on(
                        final(self).nodes_map(),
                        final(self).edges_map(),
                        old(self).settled_set(),
                    )))
                },
                Err(e) => {
                    &&& !old(self).nodes_map().dom().contains(id)
                    &&& e == GraphError::NodeNotFound
                    &&& *final(self) == *old(self)
                },
            },
    ;

    /// Look an edge up; fails exactly on absent or stale identifiers.
    fn edge<'a>(&'a self, id: EdgeID) -> (r: Result<&'a Edge<Self::EdgeData>, GraphError>)
        ensures
            match r {
                Ok(e) => self.edges_map().dom().contains(id) && *e == self.edges_map()[id],
                Err(e) => !self.edges_map().dom().contains(id) && e == GraphError::EdgeNotFound,
            },
    ;

    /// Look an edge up for mutation. Mutating anything but `data` through the
    /// returned reference forfeits the graph's invariant.
    fn edge_mut<'a>(&'a mut self, id: EdgeID) -> (r: Result<
        &'a mut Edge<Self::EdgeData>,
        GraphError,
    >)
        requires
            old(self).inv(),
        ensures
            match r {
                Ok(e) => {
                    &&& old(self).edges_map().dom().contains(id)
                    &&& *e == old(self).edges_map()[id]
                    &&& final(self).edges_map() =~= old(self).edges_map().insert(id, *final(e))
                    &&& final(self).nodes_map() == old(self).nodes_map()
                    &&& forall|id2: NodeID|
                        final(self).node_settled(id2) <==> old(self).node_settled(id2)
                    &&& forall|eid2: EdgeID|
                        final(self).edge_settled(eid2) <==> old(self).edge_settled(eid2)
                    &&& final(self).node_slots() == old(self).node_slots()
                    &&& final(self).edge_slots() == old(self).edge_slots()
                    &&& (final(e).id == id && final(e).from == old(self).edges_map()[id].from
                        && final(e).to == old(self).edges_map()[id].to) ==> (final(self).inv() && (
                    consistent_on(
                        old(self).nodes_map(),
                        old(self).edges_map(),
                        old(self).settled_set(),
                    ) ==> consistent_on(
                        final(self).nodes_map(),
                        final(self).edges_map(),
                        old(self).settled_set(),
                    )))
                },
                Err(e) => {
                    &&& !old(self).edges_map().dom().contains(id)
                    &&& e == GraphError::EdgeNotFound
                    &&& *final(self) == *old(self)
                },
            },
    ;

    /// Add a node holding `data`; always succeeds and returns a fresh
    /// identifier — fresh against every identifier this graph ever issued.
    fn add_node(&mut self, data: Self::NodeData) -> (id: NodeID)
        requires
            old(self).inv(),
            old(self).node_slots() < u32::MAX as int,
        ensures
            final(self).inv(),
            !old(self).node_settled(id),
            final(self).node_settled(id),
            final(self).nodes_map().dom() =~= old(self).nodes_map().dom().insert(id),
            final(self).nodes_map()[id].id == id,
            final(self).nodes_map()[id].data == data,
            final(self).nodes_map()[id].connections@ == Seq::<EdgeID>::empty(),
            forall|id2: NodeID|
                #[trigger] old(self).nodes_map().dom().contains(id2) ==> final(self).nodes_map()[id2] == old(self).nodes_map()[id2],
            final(self).edges_map() == old(self).edges_map(),
            forall|id2: NodeID|
                #[trigger] old(self).node_settled(id2) ==> final(self).node_settled(id2) && id2
                    != id,
            forall|eid: EdgeID| old(self).edge_settled(eid) <==> final(self).edge_settled(eid),
            old(self).node_slots() <= final(self).node_slots() <= old(self).node_slots() + 1,
            final(self).edge_slots() == old(self).edge_slots(),
            old(self).consistent() ==> final(self).consistent(),
    ;

    /// Add one node per element of `data`, in order.
    fn add_nodes(&mut self, data: &[Self::NodeData]) -> (r: Vec<NodeID>) where
        Self::NodeData: Clone,

        requires
            old(self).inv(),
            old(self).node_slots() + data@.len() <= u32::MAX as int,
        ensures
            final(self).inv(),
            r@.len() == data@.len(),
            r@.no_duplicates(),
            forall|j: int|
                0 <= j < r@.len() ==> {
                    &&& !old(self).node_settled(#[trigger] r@[j])
                    &&& final(self).nodes_map().dom().contains(r@[j])
                    &&& final(self).nodes_map()[r@[j]].id == r@[j]
                    &&& final(self).nodes_map()[r@[j]].connections@ == Seq::<EdgeID>::empty()
                    &&& vstd::pervasive::cloned::<Self::NodeData>(
                        data@[j],
                        final(self).nodes_map()[r@[j]].data,
                    )
                },
            forall|id2: NodeID|
                #[trigger] old(self).nodes_map().dom().contains(id2) ==> final(self).nodes_map()[id2] == old(self).nodes_map()[id2],
            forall|id2: NodeID|
                #[trigger] final(self).nodes_map().dom().contains(id2) ==> old(self).nodes_map().dom().contains(id2) || r@.contains(id2),
            final(self).edges_map() == old(self).edges_map(),
            forall|id2: NodeID|
                #[trigger] old(self).node_settled(id2) ==> final(self).node_settled(id2),
            forall|eid: EdgeID| old(self).edge_settled(eid) <==> final(self).edge_settled(eid),
            final(self).node_slots() <= old(self).node_slots() + data@.len(),
            final(self).edge_slots() == old(self).edge_slots(),
            old(self).consistent() ==> final(self).consistent(),
    {
        let mut r: Vec<NodeID> = Vec::new();
        let mut i: usize = 0;
        while i < data.len()
            invariant
                old(self).inv(),
                old(self).node_slots() + data@.len() <= u32::MAX as int,
                self.inv(),
                i <= data@.len(),
                r@.len() == i,
                r@.no_duplicates(),
                self.node_slots() <= old(self).node_slots() + i,
                forall|id2: NodeID|
                    #[trigger] old(self).nodes_map().dom().contains(id2)
                        ==> self.nodes_map().dom().contains(id2),
                forall|j: int|
                    0 <= j < r@.len() ==> {
                        &&& !old(self).node_settled(#[trigger] r@[j])
                        &&& self.node_settled(r@[j])
                        &&& self.nodes_map().dom().contains(r@[j])
                        &&& self.nodes_map()[r@[j]].id == r@[j]
                        &&& self.nodes_map()[r@[j]].connections@ == Seq::<EdgeID>::empty()
                        &&& vstd::pervasive::cloned::<Self::NodeData>(
                            data@[j],
                            self.nodes_map()[r@[j]].data,
                        )
                    },
                forall|id2: NodeID|
                    #[trigger] old(self).nodes_map().dom().contains(id2) ==> self.nodes_map()[id2]
                        == old(self).nodes_map()[id2],
                forall|id2: NodeID|
                    #[trigger] self.nodes_map().dom().contains(id2) ==> old(self).nodes_map().dom().contains(id2) || r@.contains(id2),
                self.edges_map() == old(self).edges_map(),
                forall|id2: NodeID|
                    #[trigger] old(self).node_settled(id2) ==> self.node_settled(id2),

                forall|eid: EdgeID| old(self).edge_settled(eid) <==> self.edge_settled(eid),
                self.edge_slots() == old(self).edge_slots(),
                old(self).consistent() ==> self.consistent(),
            decreases data@.len() - i,
        {
            let ghost prev = r@;
            let ghost prev_self = *self;
            let d = data[i].clone();
            proof {
                assert(vstd::pervasive::cloned::<Self::NodeData>(data@[i as int], d));
            }
            let id = self.add_node(d);
            r.push(id);
            proof {
                assert forall|j: int| 0 <= j < r@.len() implies {
                    &&& !old(self).node_settled(#[trigger] r@[j])
                    &&& self.node_settled(r@[j])
                    &&& self.nodes_map().dom().contains(r@[j])
                    &&& self.nodes_map()[r@[j]].id == r@[j]
                    &&& self.nodes_map()[r@[j]].connections@ == Seq::<EdgeID>::empty()
                    &&& vstd::pervasive::cloned::<Self::NodeData>(
                        data@[j],
                        self.nodes_map()[r@[j]].data,
                    )
                } by {
                    if j < prev.len() {
                        assert(r@[j] == prev[j]);
                        assert(prev_self.node_settled(prev[j]));
                        assert(self.nodes_map()[r@[j]] == prev_self.nodes_map()[r@[j]]);
                    } else {
                        assert(r@[j] == id);
                    }
                };
                assert(r@.no_duplicates()) by {
                    assert forall|j1: int, j2: int| 0 <= j1 < j2 < r@.len() implies r@[j1]
                        != r@[j2] by {
                        if j2 == r@.len() - 1 {
                            assert(prev_self.node_settled(prev[j1]));
                        }
                    };
                };

                assert forall|id2: NodeID| #[trigger] self.nodes_map().dom().contains(id2) implies
                    old(self).nodes_map().dom().contains(id2) || r@.contains(id2) by {
                    if id2 == id {
                        assert(r@[r@.len() - 1] == id);
                    } else if prev_self.nodes_map().dom().contains(id2) {
                        if !old(self).nodes_map().dom().contains(id2) {
                            let j = choose|j: int| 0 <= j < prev.len() && prev[j] == id2;
                            assert(r@[j] == id2);
                        }
                    }
                };
                assert forall|id2: NodeID| #[trigger]
                    old(self).nodes_map().dom().contains(id2) implies
                    self.nodes_map().dom().contains(id2) && self.nodes_map()[id2] == old(self).nodes_map()[id2] by {
                    assert(prev_self.nodes_map().dom().contains(id2));
                    assert(prev_self.nodes_map()[id2] == old(self).nodes_map()[id2]);
                };
            }
            i = i + 1;
        }
        r
    }

    /// Add a directed edge `from -> to` holding `data`; always succeeds and
    /// returns a fresh identifier. The edge is recorded in the adjacency list
    /// of each endpoint that currently exists; an absent endpoint is silently
    /// skipped — the edge is still created and stored.
    fn add_edge(&mut self, from: NodeID, to: NodeID, data: Self::EdgeData) -> (id: EdgeID)
        requires
            old(self).inv(),
            old(self).edge_slots() < u32::MAX as int,
        ensures
            final(self).inv(),
            !old(self).edge_settled(id),
            final(self).edge_settled(id),
            final(self).edges_map().dom() =~= old(self).edges_map().dom().insert(id),
            final(self).edges_map()[id].id == id,
            final(self).edges_map()[id].from == from,
            final(self).edges_map()[id].to == to,
            final(self).edges_map()[id].data == data,
            forall|eid: EdgeID|
                #[trigger] old(self).edges_map().dom().contains(eid) ==> final(self).edges_map()[eid] == old(self).edges_map()[eid],
            final(self).nodes_map().dom() =~= old(self).nodes_map().dom(),
            forall|m: NodeID|
                #[trigger] old(self).nodes_map().dom().contains(m) && m != from && m != to ==> final(self).nodes_map()[m] == old(self).nodes_map()[m],
            old(self).nodes_map().dom().contains(from) ==> {
                &&& final(self).nodes_map()[from].id == from
                &&& final(self).nodes_map()[from].data == old(self).nodes_map()[from].data
            },
            old(self).nodes_map().dom().contains(to) ==> {
                &&& final(self).nodes_map()[to].id == to
                &&& final(self).nodes_map()[to].data == old(self).nodes_map()[to].data
            },
            (old(self).nodes_map().dom().contains(from) && from != to) ==> final(self).nodes_map()[from].connections@ == old(self).nodes_map()[from].connections@.push(id),
            (old(self).nodes_map().dom().contains(to) && from != to) ==> final(self).nodes_map()[to].connections@ == old(self).nodes_map()[to].connections@.push(id),
            (old(self).nodes_map().dom().contains(from) && from == to) ==> final(self).nodes_map()[from].connections@ == old(self).nodes_map()[from].connections@.push(
                id,
            ).push(id),
            forall|id2: NodeID| old(self).node_settled(id2) <==> final(self).node_settled(id2),
            forall|eid: EdgeID|
                #[trigger] old(self).edge_settled(eid) ==> final(self).edge_settled(eid) && eid
                    != id,
            final(self).node_slots() == old(self).node_slots(),
            old(self).edge_slots() <= final(self).edge_slots() <= old(self).edge_slots() + 1,
            (old(self).consistent() && old(self).node_settled(from) && old(self).node_settled(to))
                ==> final(self).consistent(),
    ;

    /// Remove a node and cascade: every edge its adjacency list names is
    /// removed too, and retracted from the adjacency list of its other
    /// endpoint. Fails only when the node itself is absent; an edge that is
    /// already gone is tolerated.
    fn remove_node(&mut self, id: NodeID) -> (r: Result<(), GraphError>)
        requires
            old(self).inv(),
        ensures
            final(self).inv(),
            final(self).node_slots() == old(self).node_slots(),
            final(self).edge_slots() == old(self).edge_slots(),
            forall|id2: NodeID|
                #[trigger] old(self).node_settled(id2) ==> final(self).node_settled(id2),
            forall|eid: EdgeID|
                #[trigger] old(self).edge_settled(eid) ==> final(self).edge_settled(eid),
            match r {
                Ok(u) => {
                    let gone = old(self).nodes_map()[id].connections@.to_set();
                    &&& old(self).nodes_map().dom().contains(id)
                    &&& final(self).nodes_map().dom() =~= old(self).nodes_map().dom().remove(id)
                    &&& forall|m: NodeID|
                        #[trigger] final(self).nodes_map().dom().contains(m) ==> conns_filtered(
                            old(self).nodes_map()[m],
                            final(self).nodes_map()[m],
                            gone,
                        )
                    &&& forall|eid: EdgeID|
                        #[trigger] final(self).edges_map().dom().contains(eid) <==> (old(self).edges_map().dom().contains(eid) && !gone.contains(eid))
                    &&& forall|eid: EdgeID|
                        #[trigger] final(self).edges_map().dom().contains(eid) ==> final(self).edges_map()[eid] == old(self).edges_map()[eid]
                    &&& old(self).consistent() ==> final(self).consistent()
                    &&& old(self).consistent() ==> forall|eid: EdgeID|
                        #[trigger] old(self).edges_map().dom().contains(eid) && (old(self).edges_map()[eid].from == id || old(self).edges_map()[eid].to == id)
                            ==> !final(self).edges_map().dom().contains(eid)
                    &&& old(self).consistent() ==> forall|m: NodeID, eid: EdgeID|
                        #[trigger] final(self).nodes_map().dom().contains(m) && #[trigger] old(self).edges_map().dom().contains(eid) && (old(self).edges_map()[eid].from == id
                            || old(self).edges_map()[eid].to == id) ==> !final(self).nodes_map()[m].connections@.contains(eid)
                },
                Err(e) => {
                    &&& !old(self).nodes_map().dom().contains(id)
                    &&& e == GraphError::NodeNotFound
                    &&& *final(self) == *old(self)
                },
            },
    ;

    /// Remove an edge: retract it from both endpoints' adjacency lists, then
    /// delete the record. Fails exactly when the edge is absent.
    fn remove_edge(&mut self, id: EdgeID) -> (r: Result<(), GraphError>)
        requires
            old(self).inv(),
        ensures
            final(self).inv(),
            final(self).node_slots() == old(self).node_slots(),
            final(self).edge_slots() == old(self).edge_slots(),
            forall|id2: NodeID|
                #[trigger] old(self).node_settled(id2) ==> final(self).node_settled(id2),
            forall|eid: EdgeID|
                #[trigger] old(self).edge_settled(eid) ==> final(self).edge_settled(eid),
            match r {
                Ok(u) => {
                    &&& old(self).edges_map().dom().contains(id)
                    &&& final(self).edges_map().dom() =~= old(self).edges_map().dom().remove(id)
                    &&& forall|eid: EdgeID|
                        #[trigger] final(self).edges_map().dom().contains(eid) ==> final(self).edges_map()[eid] == old(self).edges_map()[eid]
                    &&& final(self).nodes_map().dom() =~= old(self).nodes_map().dom()
                    &&& forall|m: NodeID|
                        #[trigger] final(self).nodes_map().dom().contains(m) ==> conns_filtered(
                            old(self).nodes_map()[m],
                            final(self).nodes_map()[m],
                            Set::<EdgeID>::empty().insert(id),
                        )
                    &&& old(self).consistent() ==> final(self).consistent()
                },
                Err(e) => {
                    &&& !old(self).edges_map().dom().contains(id)
                    &&& e == GraphError::EdgeNotFound
                    &&& *final(self) == *old(self)
                },
            },
    ;

    /// Remove several nodes; stops at the first failure. Succeeds whenever
    /// the identifiers are distinct and all present.
    fn remove_nodes(&mut self, ids: &[NodeID]) -> (r: Result<(), GraphError>)
        requires
            old(self).inv(),
        ensures
            final(self).inv(),
            forall|id2: NodeID|
                #[trigger] old(self).node_settled(id2) ==> final(self).node_settled(id2),
            forall|eid: EdgeID|
                #[trigger] old(self).edge_settled(eid) ==> final(self).edge_settled(eid),
            old(self).consistent() ==> final(self).consistent(),
            (ids@.no_duplicates() && forall|j: int|
                0 <= j < ids@.len() ==> old(self).nodes_map().dom().contains(#[trigger] ids@[j]))
                ==> r is Ok,
            r is Ok ==> forall|id2: NodeID|
                #[trigger] final(self).nodes_map().dom().contains(id2) <==> (old(
                    self,
                ).nodes_map().dom().contains(id2) && !ids@.contains(id2)),
            r is Err ==> r->Err_0 == GraphError::NodeNotFound,
            r is Err ==> exists|f: int|
                0 <= f < ids@.len() && (!old(self).nodes_map().dom().contains(#[trigger] ids@[f])
                    || ids@.take(f).contains(ids@[f])) && (forall|id2: NodeID|
                    #[trigger] final(self).nodes_map().dom().contains(id2) <==> (old(
                        self,
                    ).nodes_map().dom().contains(id2) && !ids@.take(f).contains(id2))),
    {
        let mut i: usize = 0;
        proof {
            assert forall|id2: NodeID| #[trigger] self.nodes_map().dom().contains(id2) <==> (old(
                self,
            ).nodes_map().dom().contains(id2) && !ids@.take(0).contains(id2)) by {
                assert(ids@.take(0) =~= Seq::<NodeID>::empty());
            };
        }
        while i < ids.len()
            invariant
                self.inv(),
                i <= ids@.len(),
                forall|id2: NodeID|
                    #[trigger] old(self).node_settled(id2) ==> self.node_settled(id2),
                forall|eid: EdgeID|
                    #[trigger] old(self).edge_settled(eid) ==> self.edge_settled(eid),
                old(self).consistent() ==> self.consistent(),
                forall|j: int|
                    0 <= j < i ==> !self.nodes_map().dom().contains(#[trigger] ids@[j]),
                forall|id2: NodeID|
                    #[trigger] self.nodes_map().dom().contains(id2) <==> (old(
                        self,
                    ).nodes_map().dom().contains(id2) && !ids@.take(i as int).contains(id2)),
                (ids@.no_duplicates() && forall|j: int|
                    0 <= j < ids@.len() ==> old(self).nodes_map().dom().contains(
                        #[trigger] ids@[j],
                    )) ==> forall|j: int|
                    i <= j < ids@.len() ==> self.nodes_map().dom().contains(#[trigger] ids@[j]),
            decreases ids@.len() - i,
        {
            let ghost prev_self = *self;
            match self.remove_node(ids[i]) {
                Ok(u) => {},
                Err(e) => {
                    proof {
                        assert forall|id2: NodeID| #[trigger]
                            old(self).node_settled(id2) implies self.node_settled(id2) by {
                            assert(prev_self.node_settled(id2));
                        };
                        assert forall|eid: EdgeID| #[trigger]
                            old(self).edge_settled(eid) implies self.edge_settled(eid) by {
                            assert(prev_self.edge_settled(eid));
                        };
                        assert(!prev_self.nodes_map().dom().contains(ids@[i as int]));
                        assert(!old(self).nodes_map().dom().contains(ids@[i as int])
                            || ids@.take(i as int).contains(ids@[i as int]));
                    }
                    return Err(e);
                },
            }
            proof {
                assert forall|id2: NodeID| #[trigger]
                    old(self).node_settled(id2) implies self.node_settled(id2) by {
                    assert(prev_self.node_settled(id2));
                };
                assert forall|eid: EdgeID| #[trigger]
                    old(self).edge_settled(eid) implies self.edge_settled(eid) by {
                    assert(prev_self.edge_settled(eid));
                };
                assert forall|j: int| 0 <= j < i + 1 implies !self.nodes_map().dom().contains(
                    #[trigger] ids@[j],
                ) by {
                    if j < i {
                        assert(!prev_self.nodes_map().dom().contains(ids@[j]));
                    }
                };
                assert(ids@.take(i as int + 1) =~= ids@.take(i as int).push(ids@[i as int]));
                assert forall|id2: NodeID|
                    #[trigger] self.nodes_map().dom().contains(id2) <==> (old(
                    self,
                ).nodes_map().dom().contains(id2) && !ids@.take(i as int + 1).contains(id2)) by {
                    assert(ids@.take(i as int + 1).contains(id2) <==> (ids@.take(
                        i as int,
                    ).contains(id2) || id2 == ids@[i as int])) by {
                        if ids@.take(i as int + 1).contains(id2) {
                            let jx = choose|jx: int|
                                0 <= jx < ids@.take(i as int + 1).len() && #[trigger] ids@.take(
                                    i as int + 1,
                                )[jx] == id2;
                            if jx < i {
                                assert(ids@.take(i as int)[jx] == id2);
                            }
                        } else {
                            if ids@.take(i as int).contains(id2) {
                                let jx = choose|jx: int|
                                    0 <= jx < ids@.take(i as int).len() && #[trigger] ids@.take(
                                        i as int,
                                    )[jx] == id2;
                                assert(ids@.take(i as int + 1)[jx] == id2);
                            }
                            if id2 == ids@[i as int] {
                                assert(ids@.take(i as int + 1)[i as int] == id2);
                            }
                        }
                    };
                };
            }
            i = i + 1;
        }
        proof {
            assert(ids@.take(ids@.len() as int) =~= ids@);
        }
        Ok(())
    }

    /// Add one edge per `(from, to)` pair, each holding a default-constructed
    /// payload, in order.
    fn add_edges(&mut self, data: &[(NodeID, NodeID)]) -> (r: Vec<EdgeID>) where
        Self::EdgeData: Default + Clone,
        Self::NodeData: Clone,

        requires
            old(self).inv(),
            old(self).edge_slots() + data@.len() <= u32::MAX as int,
        ensures
            final(self).inv(),
            r@.len() == data@.len(),
            r@.no_duplicates(),
            forall|j: int|
                0 <= j < r@.len() ==> {
                    &&& final(self).edges_map().dom().contains(#[trigger] r@[j])
                    &&& final(self).edges_map()[r@[j]].id == r@[j]
                    &&& final(self).edges_map()[r@[j]].from == data@[j].0
                    &&& final(self).edges_map()[r@[j]].to == data@[j].1
                },
            final(self).nodes_map().dom() =~= old(self).nodes_map().dom(),
            forall|m: NodeID|
                #[trigger] old(self).nodes_map().dom().contains(m) ==> final(self).nodes_map()[
                m].id == old(self).nodes_map()[m].id && final(self).nodes_map()[m].data == old(self).nodes_map()[m].data,
            forall|id2: NodeID| old(self).node_settled(id2) <==> final(self).node_settled(id2),
            forall|eid: EdgeID|
                #[trigger] old(self).edge_settled(eid) ==> final(self).edge_settled(eid),
            final(self).node_slots() == old(self).node_slots(),
            final(self).edge_slots() <= old(self).edge_slots() + data@.len(),
            forall|m: NodeID|
                #[trigger] old(self).nodes_map().dom().contains(m) ==> final(self).nodes_map()[
                m].connections@ == conns_after_adds(
                    m,
                    old(self).nodes_map()[m].connections@,
                    data@,
                    r@,
                ),
            (old(self).consistent() && forall|j: int|
                0 <= j < data@.len() ==> old(self).node_settled(#[trigger] data@[j].0) && old(self).node_settled(data@[j].1)) ==> final(self).consistent(),
    {
        let mut r: Vec<EdgeID> = Vec::new();
        let mut i: usize = 0;
        proof {
            assert forall|m: NodeID|
                #[trigger] old(self).nodes_map().dom().contains(m) implies self.nodes_map()[
            m].connections@ == conns_after_adds(
                m,
                old(self).nodes_map()[m].connections@,
                data@.take(0),
                r@.take(0),
            ) by {
                assert(data@.take(0) =~= Seq::<(NodeID, NodeID)>::empty());
            };
        }
        while i < data.len()
            invariant
                old(self).inv(),
                old(self).edge_slots() + data@.len() <= u32::MAX as int,
                self.inv(),
                i <= data@.len(),
                r@.len() == i,
                r@.no_duplicates(),
                self.edge_slots() <= old(self).edge_slots() + i,
                forall|j: int|
                    0 <= j < r@.len() ==> {
                        &&& self.edges_map().dom().contains(#[trigger] r@[j])
                        &&& self.edge_settled(r@[j])
                        &&& self.edges_map()[r@[j]].id == r@[j]
                        &&& self.edges_map()[r@[j]].from == data@[j].0
                        &&& self.edges_map()[r@[j]].to == data@[j].1
                    },
                self.nodes_map().dom() =~= old(self).nodes_map().dom(),
                forall|m: NodeID|
                    #[trigger] old(self).nodes_map().dom().contains(m) ==> self.nodes_map()[m].id
                        == old(self).nodes_map()[m].id && self.nodes_map()[m].data == old(self).nodes_map()[m].data,
                forall|m: NodeID|
                    #[trigger] old(self).nodes_map().dom().contains(m) ==> self.nodes_map()[
                    m].connections@ == conns_after_adds(
                        m,
                        old(self).nodes_map()[m].connections@,
                        data@.take(i as int),
                        r@.take(i as int),
                    ),
                forall|id2: NodeID| old(self).node_settled(id2) <==> self.node_settled(id2),
                forall|eid: EdgeID|
                    #[trigger] old(self).edge_settled(eid) ==> self.edge_settled(eid),
                self.node_slots() == old(self).node_slots(),
                (old(self).consistent() && forall|j: int|
                    0 <= j < data@.len() ==> old(self).node_settled(#[trigger] data@[j].0) && old(self).node_settled(data@[j].1)) ==> self.consistent(),
            decreases data@.len() - i,
        {
            let ghost prev = r@;
            let ghost prev_self = *self;
            let (from, to) = data[i];
            let id = self.add_edge(from, to, Self::EdgeData::default());
            r.push(id);
            proof {
                assert(prev.take(i as int) =~= prev);
                assert(r@ == prev.push(id));
                lemma_conns_step(
                    prev_self.nodes_map(),
                    self.nodes_map(),
                    old(self).nodes_map(),
                    data@,
                    prev,
                    r@,
                    i as int,
                    id,
                );
                assert(r@.take(i as int + 1) =~= r@);
                assert forall|j: int| 0 <= j < r@.len() implies {
                    &&& self.edges_map().dom().contains(#[trigger] r@[j])
                    &&& self.edge_settled(r@[j])
                    &&& self.edges_map()[r@[j]].id == r@[j]
                    &&& self.edges_map()[r@[j]].from == data@[j].0
                    &&& self.edges_map()[r@[j]].to == data@[j].1
                } by {
                    if j < prev.len() {
                        assert(r@[j] == prev[j]);
                        assert(prev_self.edge_settled(prev[j]));
                        assert(self.edges_map()[r@[j]] == prev_self.edges_map()[r@[j]]);
                    } else {
                        assert(r@[j] == id);
                    }
                };
                assert(r@.no_duplicates()) by {
                    assert forall|j1: int, j2: int| 0 <= j1 < j2 < r@.len() implies r@[j1]
                        != r@[j2] by {
                        if j2 == r@.len() - 1 {
                            assert(prev_self.edge_settled(prev[j1]));
                        }
                    };
                };
                assert forall|m: NodeID|
                    #[trigger] old(self).nodes_map().dom().contains(m) implies self.nodes_map()[
                m].id == old(self).nodes_map()[m].id && self.nodes_map()[m].data == old(self).nodes_map()[m].data by {
                    assert(prev_self.nodes_map().dom().contains(m));
                    assert(prev_self.nodes_map()[m].id == old(self).nodes_map()[m].id
                        && prev_self.nodes_map()[m].data == old(self).nodes_map()[m].data);
                    if m != from && m != to {
                        assert(self.nodes_map()[m] == prev_self.nodes_map()[m]);
                    } else {
                        prev_self.lemma_inv();
                        assert(prev_self.nodes_map()[m].id == m);
                    }
                };
                if old(self).consistent() && (forall|j: int|
                    0 <= j < data@.len() ==> old(self).node_settled(#[trigger] data@[j].0) && old(self).node_settled(data@[j].1)) {
                    assert(old(self).node_settled(data@[i as int].0) && old(self).node_settled(
                        data@[i as int].1,
                    ));
                    assert(prev_self.node_settled(from) && prev_self.node_settled(to));
                    assert(self.consistent());
                }
            }
            i = i + 1;
        }
        proof {
            assert(data@.take(data@.len() as int) =~= data@);
            assert(r@.take(r@.len() as int) =~= r@);
        }
        r
    }

    /// Add one edge per `(from, to, data)` triple, in order.
    fn add_edges_with_data(&mut self, data: &[(NodeID, NodeID, Self::EdgeData)]) -> (r: Vec<
        EdgeID,
    >) where Self::EdgeData: Clone
        requires
            old(self).inv(),
            old(self).edge_slots() + data@.len() <= u32::MAX as int,
        ensures
            final(self).inv(),
            r@.len() == data@.len(),
            r@.no_duplicates(),
            forall|j: int|
                0 <= j < r@.len() ==> {
                    &&& final(self).edges_map().dom().contains(#[trigger] r@[j])
                    &&& final(self).edges_map()[r@[j]].id == r@[j]
                    &&& final(self).edges_map()[r@[j]].from == data@[j].0
                    &&& final(self).edges_map()[r@[j]].to == data@[j].1
                },
            final(self).nodes_map().dom() =~= old(self).nodes_map().dom(),
            forall|m: NodeID|
                #[trigger] old(self).nodes_map().dom().contains(m) ==> final(self).nodes_map()[
                m].id == old(self).nodes_map()[m].id && final(self).nodes_map()[m].data == old(self).nodes_map()[m].data,
            forall|id2: NodeID| old(self).node_settled(id2) <==> final(self).node_settled(id2),
            forall|eid: EdgeID|
                #[trigger] old(self).edge_settled(eid) ==> final(self).edge_settled(eid),
            final(self).node_slots() == old(self).node_slots(),
            final(self).edge_slots() <= old(self).edge_slots() + data@.len(),
            forall|m: NodeID|
                #[trigger] old(self).nodes_map().dom().contains(m) ==> final(self).nodes_map()[
                m].connections@ == conns_after_adds(
                    m,
                    old(self).nodes_map()[m].connections@,
                    (data@.map_values(|t: (NodeID, NodeID, Self::EdgeData)| (t.0, t.1))),
                    r@,
                ),
            forall|j: int|
                0 <= j < r@.len() ==> vstd::pervasive::cloned::<Self::EdgeData>(
                    data@[j].2,
                    final(self).edges_map()[#[trigger] r@[j]].data,
                ),
            (old(self).consistent() && forall|j: int|
                0 <= j < data@.len() ==> old(self).node_settled(#[trigger] data@[j].0) && old(self).node_settled(data@[j].1)) ==> final(self).consistent(),
    {
        let ghost pairs = (data@.map_values(|t: (NodeID, NodeID, Self::EdgeData)| (t.0, t.1)));
        let mut r: Vec<EdgeID> = Vec::new();
        let mut i: usize = 0;
        proof {
            assert forall|m: NodeID|
                #[trigger] old(self).nodes_map().dom().contains(m) implies self.nodes_map()[
            m].connections@ == conns_after_adds(
                m,
                old(self).nodes_map()[m].connections@,
                pairs.take(0),
                r@.take(0),
            ) by {
                assert(pairs.take(0) =~= Seq::<(NodeID, NodeID)>::empty());
            };
        }
        while i < data.len()
            invariant
                old(self).inv(),
                old(self).edge_slots() + data@.len() <= u32::MAX as int,
                pairs == (data@.map_values(|t: (NodeID, NodeID, Self::EdgeData)| (t.0, t.1))),
                self.inv(),
                i <= data@.len(),
                r@.len() == i,
                r@.no_duplicates(),
                self.edge_slots() <= old(self).edge_slots() + i,
                forall|j: int|
                    0 <= j < r@.len() ==> {
                        &&& self.edges_map().dom().contains(#[trigger] r@[j])
                        &&& self.edge_settled(r@[j])
                        &&& self.edges_map()[r@[j]].id == r@[j]
                        &&& self.edges_map()[r@[j]].from == data@[j].0
                        &&& self.edges_map()[r@[j]].to == data@[j].1
                        &&& vstd::pervasive::cloned::<Self::EdgeData>(
                            data@[j].2,
                            self.edges_map()[r@[j]].data,
                        )
                    },
                self.nodes_map().dom() =~= old(self).nodes_map().dom(),
                forall|m: NodeID|
                    #[trigger] old(self).nodes_map().dom().contains(m) ==> self.nodes_map()[m].id
                        == old(self).nodes_map()[m].id && self.nodes_map()[m].data == old(self).nodes_map()[m].data,
                forall|m: NodeID|
                    #[trigger] old(self).nodes_map().dom().contains(m) ==> self.nodes_map()[
                    m].connections@ == conns_after_adds(
                        m,
                        old(self).nodes_map()[m].connections@,
                        pairs.take(i as int),
                        r@.take(i as int),
                    ),
                forall|id2: NodeID| old(self).node_settled(id2) <==> self.node_settled(id2),
                forall|eid: EdgeID|
                    #[trigger] old(self).edge_settled(eid) ==> self.edge_settled(eid),
                self.node_slots() == old(self).node_slots(),
                (old(self).consistent() && forall|j: int|
                    0 <= j < data@.len() ==> old(self).node_settled(#[trigger] data@[j].0) && old(self).node_settled(data@[j].1)) ==> self.consistent(),
            decreases data@.len() - i,
        {
            let ghost prev = r@;
            let ghost prev_self = *self;
            let from = data[i].0;
            let to = data[i].1;
            let d = data[i].2.clone();
            let id = self.add_edge(from, to, d);
            r.push(id);
            proof {
                assert(vstd::pervasive::cloned::<Self::EdgeData>(data@[i as int].2, d));
                assert(pairs[i as int] == (from, to));
                assert(prev.take(i as int) =~= prev);
                assert(r@ == prev.push(id));
                lemma_conns_step(
                    prev_self.nodes_map(),
                    self.nodes_map(),
                    old(self).nodes_map(),
                    pairs,
                    prev,
                    r@,
                    i as int,
                    id,
                );
                assert(r@.take(i as int + 1) =~= r@);
                assert forall|j: int| 0 <= j < r@.len() implies {
                    &&& self.edges_map().dom().contains(#[trigger] r@[j])
                    &&& self.edge_settled(r@[j])
                    &&& self.edges_map()[r@[j]].id == r@[j]
                    &&& self.edges_map()[r@[j]].from == data@[j].0
                    &&& self.edges_map()[r@[j]].to == data@[j].1
                } by {
                    if j < prev.len() {
                        assert(r@[j] == prev[j]);
                        assert(prev_self.edge_settled(prev[j]));
                        assert(self.edges_map()[r@[j]] == prev_self.edges_map()[r@[j]]);
                    } else {
                        assert(r@[j] == id);
                    }
                };
                assert(r@.no_duplicates()) by {
                    assert forall|j1: int, j2: int| 0 <= j1 < j2 < r@.len() implies r@[j1]
                        != r@[j2] by {
                        if j2 == r@.len() - 1 {
                            assert(prev_self.edge_settled(prev[j1]));
                        }
                    };
                };
                assert forall|m: NodeID|
                    #[trigger] old(self).nodes_map().dom().contains(m) implies self.nodes_map()[
                m].id == old(self).nodes_map()[m].id && self.nodes_map()[m].data == old(self).nodes_map()[m].data by {
                    assert(prev_self.nodes_map().dom().contains(m));
                    assert(prev_self.nodes_map()[m].id == old(self).nodes_map()[m].id
                        && prev_self.nodes_map()[m].data == old(self).nodes_map()[m].data);
                    if m != from && m != to {
                        assert(self.nodes_map()[m] == prev_self.nodes_map()[m]);
                    } else {
                        prev_self.lemma_inv();
                        assert(prev_self.nodes_map()[m].id == m);
                    }
                };
                if old(self).consistent() && (forall|j: int|
                    0 <= j < data@.len() ==> old(self).node_settled(#[trigger] data@[j].0) && old(self).node_settled(data@[j].1)) {
                    assert(old(self).node_settled(data@[i as int].0) && old(self).node_settled(
                        data@[i as int].1,
                    ));
                    assert(prev_self.node_settled(from) && prev_self.node_settled(to));
                    assert(self.consistent());
                }
            }
            i = i + 1;
        }
        proof {
            assert(pairs.take(data@.len() as int) =~= pairs);
            assert(r@.take(r@.len() as int) =~= r@);
        }
        r
    }

    /// Add a batch of nodes, each followed by edges from it to the listed
    /// targets with the given payloads. Returns all new identifiers in
    /// creation order.
    fn add_nodes_and_edges_with_data(&mut self, node_data: Vec<(Self::NodeData, Vec<(NodeID, Self::EdgeData)>)>) -> (r: (Vec<NodeID>, Vec<EdgeID>)) where
        Self::NodeData: Default + Clone,
        Self::EdgeData: Clone,

        requires
            old(self).inv(),
            old(self).node_slots() + node_data@.len() <= u32::MAX as int,
            old(self).edge_slots() + total_conns(node_data@) <= u32::MAX as int,
        ensures
            final(self).inv(),
            r.0@.len() == node_data@.len(),
            r.1@.len() == total_conns(node_data@),
            r.0@.no_duplicates(),
            forall|i: int|
                0 <= i < r.0@.len() ==> final(self).nodes_map().dom().contains(#[trigger] r.0@[i])
                    && !old(self).node_settled(r.0@[i]) && vstd::pervasive::cloned::<
                    Self::NodeData,
                >(node_data@[i].0, final(self).nodes_map()[r.0@[i]].data),
            forall|m: NodeID|
                #[trigger] old(self).nodes_map().dom().contains(m) ==> final(self).nodes_map().dom().contains(m) && final(self).nodes_map()[m].id == old(self).nodes_map()[m].id && final(self).nodes_map()[m].data == old(self).nodes_map()[
                m].data,
            forall|j: int|
                0 <= j < r.1@.len() ==> final(self).edges_map().dom().contains(#[trigger] r.1@[j]),
            forall|i: int, k: int|
                0 <= i < node_data@.len() && 0 <= k < node_data@[i].1@.len()
                    ==> #[trigger] batch_wired(
                    node_data@,
                    final(self).edges_map(),
                    r.0@,
                    r.1@,
                    i,
                    k,
                ),
            forall|id2: NodeID|
                #[trigger] old(self).node_settled(id2) ==> final(self).node_settled(id2),
            forall|eid: EdgeID|
                #[trigger] old(self).edge_settled(eid) ==> final(self).edge_settled(eid),
            (old(self).consistent() && forall|i: int, k: int|
                0 <= i < node_data@.len() && 0 <= k < node_data@[i].1@.len() ==> old(self).node_settled(#[trigger] node_data@[i].1@[k].0)) ==> final(self).consistent(),
    {
        let mut node_ids: Vec<NodeID> = Vec::new();
        let mut edge_ids: Vec<EdgeID> = Vec::new();
        let mut i: usize = 0;
        proof {
            assert(node_data@.skip(0) =~= node_data@);
            assert(node_data@.take(0) =~= Seq::<(Self::NodeData, Vec<(NodeID, Self::EdgeData)>)>::empty());
            assert(total_conns(node_data@.take(0)) == 0);
        }
        while i < node_data.len()
            invariant
                old(self).inv(),
                old(self).node_slots() + node_data@.len() <= u32::MAX as int,
                old(self).edge_slots() + total_conns(node_data@) <= u32::MAX as int,
                self.inv(),
                i <= node_data@.len(),
                node_ids@.len() == i,
                node_ids@.no_duplicates(),
                edge_ids@.len() + total_conns(node_data@.skip(i as int)) == total_conns(
                    node_data@,
                ),
                edge_ids@.len() == total_conns(node_data@.take(i as int)),
                self.node_slots() <= old(self).node_slots() + i,
                self.edge_slots() <= old(self).edge_slots() + edge_ids@.len(),
                forall|ii: int|
                    0 <= ii < node_ids@.len() ==> self.nodes_map().dom().contains(
                        #[trigger] node_ids@[ii],
                    ) && !old(self).node_settled(node_ids@[ii]) && self.node_settled(
                        node_ids@[ii],
                    ) && vstd::pervasive::cloned::<Self::NodeData>(
                        node_data@[ii].0,
                        self.nodes_map()[node_ids@[ii]].data,
                    ),
                forall|ii: int, k2: int|
                    0 <= ii < i && 0 <= k2 < node_data@[ii].1@.len() ==> #[trigger] batch_wired(
                        node_data@,
                        self.edges_map(),
                        node_ids@,
                        edge_ids@,
                        ii,
                        k2,
                    ),
                forall|m: NodeID|
                    #[trigger] old(self).nodes_map().dom().contains(m) ==> self.nodes_map(
                    ).dom().contains(m) && self.nodes_map()[m].id == old(self).nodes_map()[m].id
                        && self.nodes_map()[m].data == old(self).nodes_map()[m].data,
                forall|j: int|
                    0 <= j < edge_ids@.len() ==> self.edges_map().dom().contains(
                        #[trigger] edge_ids@[j],
                    ),
                forall|id2: NodeID|
                    #[trigger] old(self).node_settled(id2) ==> self.node_settled(id2),
                forall|eid: EdgeID|
                    #[trigger] old(self).edge_settled(eid) ==> self.edge_settled(eid),
                (old(self).consistent() && forall|ii: int, k: int|
                    0 <= ii < node_data@.len() && 0 <= k < node_data@[ii].1@.len() ==> old(self).node_settled(#[trigger] node_data@[ii].1@[k].0)) ==> self.consistent(),
            decreases node_data@.len() - i,
        {
            let ghost prev_self = *self;
            let ghost prev_ids = node_ids@;
            let ghost prev_eids = edge_ids@;
            let d = node_data[i].0.clone();
            proof {
                assert(vstd::pervasive::cloned::<Self::NodeData>(node_data@[i as int].0, d));
            }
            let nid = self.add_node(d);
            node_ids.push(nid);
            proof {
                assert(node_data@.skip(i as int).drop_first() =~= node_data@.skip(i as int + 1));
                assert(total_conns(node_data@.skip(i as int)) == node_data@[i as int].1@.len()
                    + total_conns(node_data@.skip(i as int + 1)));
                assert forall|ii: int| 0 <= ii < node_ids@.len() implies self.nodes_map(
                ).dom().contains(#[trigger] node_ids@[ii]) && !old(self).node_settled(
                    node_ids@[ii],
                ) && self.node_settled(node_ids@[ii]) && vstd::pervasive::cloned::<
                    Self::NodeData,
                >(node_data@[ii].0, self.nodes_map()[node_ids@[ii]].data) by {
                    if ii < prev_ids.len() {
                        assert(node_ids@[ii] == prev_ids[ii]);
                        assert(prev_self.node_settled(prev_ids[ii]));
                        assert(prev_self.nodes_map().dom().contains(prev_ids[ii]));
                        assert(self.nodes_map()[node_ids@[ii]].data == prev_self.nodes_map()[
                        node_ids@[ii]].data);
                    }
                };
                assert forall|ii: int, k2: int|
                    0 <= ii < i && 0 <= k2 < node_data@[ii].1@.len() implies #[trigger] batch_wired(
                        node_data@,
                        self.edges_map(),
                        node_ids@,
                        edge_ids@,
                        ii,
                        k2,
                    ) by {
                    assert(batch_wired(
                        node_data@,
                        prev_self.edges_map(),
                        prev_ids,
                        prev_eids,
                        ii,
                        k2,
                    ));
                    let j = total_conns(node_data@.take(ii)) + k2;
                    assert(prev_self.edges_map().dom().contains(prev_eids[j]));
                    assert(edge_ids@[j] == prev_eids[j]);
                    assert(self.edges_map()[edge_ids@[j]] == prev_self.edges_map()[edge_ids@[j]]);
                    assert(node_ids@[ii] == prev_ids[ii]);
                };
                assert(node_ids@.no_duplicates()) by {
                    assert forall|j1: int, j2: int| 0 <= j1 < j2 < node_ids@.len() implies
                        node_ids@[j1] != node_ids@[j2] by {
                        if j2 == node_ids@.len() - 1 {
                            assert(prev_self.node_settled(prev_ids[j1]));
                        }
                    };
                };
            }
            let ghost after_node = *self;
            let mut k: usize = 0;
            while k < node_data[i].1.len()
                invariant
                    old(self).inv(),
                    old(self).edge_slots() + total_conns(node_data@) <= u32::MAX as int,
                    self.inv(),
                    after_node.inv(),
                    after_node.nodes_map().dom().contains(nid),
                    i < node_data@.len(),
                    k <= node_data@[i as int].1@.len(),
                    edge_ids@.len() + (node_data@[i as int].1@.len() - k) + total_conns(
                        node_data@.skip(i as int + 1),
                    ) == total_conns(node_data@),
                    edge_ids@.len() == total_conns(node_data@.take(i as int)) + k,
                    node_ids@.len() == i + 1,
                    node_ids@[i as int] == nid,
                    self.nodes_map().dom().contains(nid),
                    forall|ii: int|
                        0 <= ii < node_ids@.len() ==> self.nodes_map().dom().contains(
                            #[trigger] node_ids@[ii],
                        ) && !old(self).node_settled(node_ids@[ii]) && self.node_settled(
                            node_ids@[ii],
                        ) && vstd::pervasive::cloned::<Self::NodeData>(
                            node_data@[ii].0,
                            self.nodes_map()[node_ids@[ii]].data,
                        ),
                    forall|ii: int, k2: int|
                        0 <= ii < i && 0 <= k2 < node_data@[ii].1@.len() ==> #[trigger] batch_wired(
                            node_data@,
                            self.edges_map(),
                            node_ids@,
                            edge_ids@,
                            ii,
                            k2,
                        ),
                    forall|k2: int|
                        0 <= k2 < k ==> #[trigger] batch_wired(
                            node_data@,
                            self.edges_map(),
                            node_ids@,
                            edge_ids@,
                            i as int,
                            k2,
                        ),
                    self.edge_slots() <= old(self).edge_slots() + edge_ids@.len(),
                    self.node_slots() == after_node.node_slots(),
                    self.nodes_map().dom() =~= after_node.nodes_map().dom(),
                    forall|m: NodeID|
                        #[trigger] after_node.nodes_map().dom().contains(m) ==> self.nodes_map()[
                        m].id == after_node.nodes_map()[m].id && self.nodes_map()[m].data
                            == after_node.nodes_map()[m].data,
                    forall|id2: NodeID|
                        #[trigger] after_node.node_settled(id2) <==> self.node_settled(id2),
                    forall|eid: EdgeID|
                        #[trigger] after_node.edge_settled(eid) ==> self.edge_settled(eid),
                    forall|j: int|
                        0 <= j < edge_ids@.len() ==> self.edges_map().dom().contains(
                            #[trigger] edge_ids@[j],
                        ),
                    (after_node.consistent() && forall|kk: int|
                        0 <= kk < node_data@[i as int].1@.len() ==> after_node.node_settled(
                            #[trigger] node_data@[i as int].1@[kk].0,
                        )) ==> self.consistent(),
                decreases node_data@[i as int].1@.len() - k,
            {
                let ghost mid_self = *self;
                let ghost mid_eids = edge_ids@;
                let to = node_data[i].1[k].0;
                let ed = node_data[i].1[k].1.clone();
                proof {
                    assert(vstd::pervasive::cloned::<Self::EdgeData>(
                        node_data@[i as int].1@[k as int].1,
                        ed,
                    ));
                }
                let eid = self.add_edge(nid, to, ed);
                edge_ids.push(eid);
                proof {
                    after_node.lemma_inv();
                    assert forall|ii: int, k2: int|
                        0 <= ii < i && 0 <= k2 < node_data@[ii].1@.len() implies
                        #[trigger] batch_wired(
                        node_data@,
                        self.edges_map(),
                        node_ids@,
                        edge_ids@,
                        ii,
                        k2,
                    ) by {
                        assert(batch_wired(
                            node_data@,
                            mid_self.edges_map(),
                            node_ids@,
                            mid_eids,
                            ii,
                            k2,
                        ));
                        let j = total_conns(node_data@.take(ii)) + k2;
                        assert(mid_self.edges_map().dom().contains(mid_eids[j]));
                        assert(edge_ids@[j] == mid_eids[j]);
                        assert(self.edges_map()[edge_ids@[j]] == mid_self.edges_map()[
                        edge_ids@[j]]);
                    };
                    assert forall|k2: int| 0 <= k2 < k + 1 implies #[trigger] batch_wired(
                        node_data@,
                        self.edges_map(),
                        node_ids@,
                        edge_ids@,
                        i as int,
                        k2,
                    ) by {
                        let j = total_conns(node_data@.take(i as int)) + k2;
                        if k2 < k {
                            assert(batch_wired(
                                node_data@,
                                mid_self.edges_map(),
                                node_ids@,
                                mid_eids,
                                i as int,
                                k2,
                            ));
                            assert(mid_self.edges_map().dom().contains(mid_eids[j]));
                            assert(edge_ids@[j] == mid_eids[j]);
                            assert(self.edges_map()[edge_ids@[j]] == mid_self.edges_map()[
                            edge_ids@[j]]);
                        } else {
                            assert(edge_ids@[j] == eid);
                            assert(node_ids@[i as int] == nid);
                        }
                    };
                    assert forall|ii: int| 0 <= ii < node_ids@.len() implies self.nodes_map(
                    ).dom().contains(#[trigger] node_ids@[ii]) && !old(self).node_settled(
                        node_ids@[ii],
                    ) && self.node_settled(node_ids@[ii]) && vstd::pervasive::cloned::<
                        Self::NodeData,
                    >(node_data@[ii].0, self.nodes_map()[node_ids@[ii]].data) by {
                        assert(mid_self.nodes_map().dom().contains(node_ids@[ii]));
                        assert(mid_self.node_settled(node_ids@[ii]));
                        assert(self.nodes_map()[node_ids@[ii]].id == mid_self.nodes_map()[
                        node_ids@[ii]].id && self.nodes_map()[node_ids@[ii]].data
                            == mid_self.nodes_map()[node_ids@[ii]].data);
                    };
                    assert forall|j: int| 0 <= j < edge_ids@.len() implies self.edges_map(
                    ).dom().contains(#[trigger] edge_ids@[j]) by {
                        if j < mid_eids.len() {
                            assert(edge_ids@[j] == mid_eids[j]);
                            assert(mid_self.edges_map().dom().contains(mid_eids[j]));
                        }
                    };
                    assert forall|m: NodeID|
                        #[trigger] after_node.nodes_map().dom().contains(m) implies
                        self.nodes_map()[m].id == after_node.nodes_map()[m].id
                            && self.nodes_map()[m].data == after_node.nodes_map()[m].data by {
                        assert(mid_self.nodes_map()[m].id == after_node.nodes_map()[m].id
                            && mid_self.nodes_map()[m].data == after_node.nodes_map()[m].data);
                        assert(mid_self.nodes_map().dom().contains(m));
                        if m != nid && m != to {
                            assert(self.nodes_map()[m] == mid_self.nodes_map()[m]);
                        } else {
                            assert(after_node.nodes_map()[m].id == m);
                        }
                    };
                    if after_node.consistent() && (forall|kk: int|
                        0 <= kk < node_data@[i as int].1@.len() ==> after_node.node_settled(
                            #[trigger] node_data@[i as int].1@[kk].0,
                        )) {
                        assert(after_node.node_settled(node_data@[i as int].1@[k as int].0));
                        assert(after_node.node_settled(nid)) by {
                            assert(after_node.nodes_map().dom().contains(nid));
                        };
                        assert(mid_self.node_settled(to) && mid_self.node_settled(nid));
                        assert(self.consistent());
                    }
                }
                k = k + 1;
            }
            proof {
                assert forall|m: NodeID|
                    #[trigger] old(self).nodes_map().dom().contains(m) implies self.nodes_map(
                ).dom().contains(m) && self.nodes_map()[m].id == old(self).nodes_map()[m].id
                    && self.nodes_map()[m].data == old(self).nodes_map()[m].data by {
                    assert(after_node.nodes_map().dom().contains(m) && after_node.nodes_map()[m].id
                        == old(self).nodes_map()[m].id && after_node.nodes_map()[m].data == old(self).nodes_map()[m].data);
                };
                lemma_total_conns_take_succ(node_data@, i as int);
                assert forall|ii: int, k2: int|
                    0 <= ii < i + 1 && 0 <= k2 < node_data@[ii].1@.len() implies
                    #[trigger] batch_wired(
                    node_data@,
                    self.edges_map(),
                    node_ids@,
                    edge_ids@,
                    ii,
                    k2,
                ) by {
                    if ii == i {
                        assert(node_ids@[ii] == nid);
                        assert(batch_wired(
                            node_data@,
                            self.edges_map(),
                            node_ids@,
                            edge_ids@,
                            i as int,
                            k2,
                        ));
                    }
                };
                assert forall|id2: NodeID| #[trigger] old(self).node_settled(id2) implies
                    self.node_settled(id2) by {
                    assert(after_node.node_settled(id2));
                };
                assert forall|eid: EdgeID| #[trigger] old(self).edge_settled(eid) implies
                    self.edge_settled(eid) by {
                    assert(after_node.edge_settled(eid));
                };
                if old(self).consistent() && (forall|ii: int, kk: int|
                    0 <= ii < node_data@.len() && 0 <= kk < node_data@[ii].1@.len() ==> old(self).node_settled(#[trigger] node_data@[ii].1@[kk].0)) {
                    assert(after_node.consistent());
                    assert forall|kk: int|
                        0 <= kk < node_data@[i as int].1@.len() implies after_node.node_settled(
                        #[trigger] node_data@[i as int].1@[kk].0,
                    ) by {
                        assert(old(self).node_settled(node_data@[i as int].1@[kk].0));
                    };
                    assert(self.consistent());
                }
            }
            i = i + 1;
        }
        proof {
            assert(node_data@.skip(node_data@.len() as int) =~= Seq::<(
                Self::NodeData,
                Vec<(NodeID, Self::EdgeData)>,
            )>::empty());
            assert(node_data@.take(node_data@.len() as int) =~= node_data@);
        }
        let r = (node_ids, edge_ids);
        proof {
            assert(r.0@ == node_ids@ && r.1@ == edge_ids@);
        }
        r
    }

    /// Add a batch of nodes, each followed by edges from it to the listed
    /// targets with a default payload. Returns all new identifiers in
    /// creation order.
    fn add_nodes_and_edges(&mut self, data: Vec<(Self::NodeData, Vec<NodeID>)>) -> (r: (
        Vec<NodeID>,
        Vec<EdgeID>,
    )) where Self::NodeData: Default + Clone, Self::EdgeData: Default + Clone
        requires
            old(self).inv(),
            old(self).node_slots() + data@.len() <= u32::MAX as int,
            old(self).edge_slots() + total_targets(data@) <= u32::MAX as int,
        ensures
            final(self).inv(),
            r.0@.len() == data@.len(),
            r.1@.len() == total_targets(data@),
            r.0@.no_duplicates(),
            forall|i: int|
                0 <= i < r.0@.len() ==> final(self).nodes_map().dom().contains(#[trigger] r.0@[i])
                    && !old(self).node_settled(r.0@[i]) && cloned_twice::<Self::NodeData>(
                    data@[i].0,
                    final(self).nodes_map()[r.0@[i]].data,
                ),
            forall|i: int, k: int|
                0 <= i < data@.len() && 0 <= k < data@[i].1@.len() ==> #[trigger] batch_targets_wired(
                    data@,
                    final(self).edges_map(),
                    r.0@,
                    r.1@,
                    i,
                    k,
                ),
            forall|id2: NodeID|
                #[trigger] old(self).node_settled(id2) ==> final(self).node_settled(id2),
            (old(self).consistent() && forall|i: int, k: int|
                0 <= i < data@.len() && 0 <= k < data@[i].1@.len() ==> old(self).node_settled(
                    #[trigger] data@[i].1@[k],
                )) ==> final(self).consistent(),
    {
        let mut with_data: Vec<(Self::NodeData, Vec<(NodeID, Self::EdgeData)>)> = Vec::new();
        let mut i: usize = 0;
        while i < data.len()
            invariant
                i <= data@.len(),
                with_data@.len() == i,
                forall|ii: int|
                    0 <= ii < i ==> (#[trigger] with_data@[ii]).1@.len() == data@[ii].1@.len()
                        && vstd::pervasive::cloned::<Self::NodeData>(
                        data@[ii].0,
                        with_data@[ii].0,
                    ) && forall|k: int|
                        0 <= k < data@[ii].1@.len() ==> (#[trigger] with_data@[ii].1@[k]).0
                            == data@[ii].1@[k],
            decreases data@.len() - i,
        {
            let d = data[i].0.clone();
            proof {
                assert(vstd::pervasive::cloned::<Self::NodeData>(data@[i as int].0, d));
            }
            let mut pairs: Vec<(NodeID, Self::EdgeData)> = Vec::new();
            let mut k: usize = 0;
            while k < data[i].1.len()
                invariant
                    i < data@.len(),
                    k <= data@[i as int].1@.len(),
                    pairs@.len() == k,
                    forall|kk: int|
                        0 <= kk < k ==> (#[trigger] pairs@[kk]).0 == data@[i as int].1@[kk],
                decreases data@[i as int].1@.len() - k,
            {
                let to = data[i].1[k];
                let ed: Self::EdgeData = Default::default();
                pairs.push((to, ed));
                k = k + 1;
            }
            with_data.push((d, pairs));
            i = i + 1;
        }
        proof {
            lemma_totals_match(data@, with_data@);
        }
        let ghost wd = with_data@;
        let r = self.add_nodes_and_edges_with_data(with_data);
        proof {
            assert forall|i2: int, k2: int|
                0 <= i2 < data@.len() && 0 <= k2 < data@[i2].1@.len() implies
                #[trigger] batch_targets_wired(
                data@,
                self.edges_map(),
                r.0@,
                r.1@,
                i2,
                k2,
            ) by {
                assert(batch_wired(wd, self.edges_map(), r.0@, r.1@, i2, k2));
                assert(forall|jj: int|
                    0 <= jj < data@.take(i2).len() ==> (#[trigger] wd.take(i2)[jj]).1@.len()
                        == data@.take(i2)[jj].1@.len());
                lemma_totals_match(data@.take(i2), wd.take(i2));
                assert((wd[i2].1@[k2]).0 == data@[i2].1@[k2]);
            };
            assert forall|i2: int|
                0 <= i2 < r.0@.len() implies final(self).nodes_map().dom().contains(
                #[trigger] r.0@[i2],
            ) && !old(self).node_settled(r.0@[i2]) && cloned_twice::<Self::NodeData>(
                data@[i2].0,
                self.nodes_map()[r.0@[i2]].data,
            ) by {
                assert(vstd::pervasive::cloned::<Self::NodeData>(data@[i2].0, wd[i2].0));
                assert(vstd::pervasive::cloned::<Self::NodeData>(
                    wd[i2].0,
                    self.nodes_map()[r.0@[i2]].data,
                ));
            };
        }
        r
    }
}


/// Descriptions with target lists of equal lengths create equally many
/// edges.
proof fn lemma_totals_match<N, E, N2>(a: Seq<(N2, Vec<NodeID>)>, b: Seq<(N, Vec<(NodeID, E)>)>)
    requires
        a.len() == b.len(),
        forall|i: int| 0 <= i < a.len() ==> (#[trigger] b[i]).1@.len() == a[i].1@.len(),
    ensures
        total_conns(b) == total_targets(a),
    decreases a.len(),
{
    if a.len() > 0 {
        assert(forall|i: int|
            0 <= i < a.drop_first().len() ==> (#[trigger] b.drop_first()[i]).1@.len()
                == a.drop_first()[i].1@.len());
        lemma_totals_match(a.drop_first(), b.drop_first());
        assert(b[0].1@.len() == a[0].1@.len());
    }
}

} // verus!
