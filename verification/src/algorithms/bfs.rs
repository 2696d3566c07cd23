//! Breadth-first traversal: a lazy cursor with the same visited-set
//! discipline as the depth-first walk, but a FIFO work queue, so nodes come
//! out level by level. The cursor also records the tree edges it crossed —
//! the `(from, to)` pair of every first discovery — for callers that need the
//! traversal tree.

use crate::edge::EdgeID;
use crate::interface::GraphInterface;
use crate::node::NodeID;
use crate::spec_facts::lemma_push_to_set;
use std::collections::VecDeque;
use vstd::prelude::*;

verus! {

/// The targets a node's adjacency list, read in order, appends to the work
/// queue: each edge's target, unless already visited.
pub open spec fn fwd_targets<G: GraphInterface>(
    g: &G,
    conns: Seq<EdgeID>,
    vis: Set<NodeID>,
) -> Seq<NodeID>
    decreases conns.len(),
{
    if conns.len() == 0 {
        Seq::empty()
    } else {
        let t = g.edges_map()[conns.last()].to;
        fwd_targets(g, conns.drop_last(), vis) + (if vis.contains(t) {
            Seq::<NodeID>::empty()
        } else {
            seq![t]
        })
    }
}

/// One step of the traversal, as a function of the graph and the cursor
/// state: dequeue until an unvisited live node appears, visit it, append its
/// unvisited targets in adjacency order; or exhaust the queue.
pub open spec fn bfs_next_spec<G: GraphInterface>(
    g: &G,
    queue: Seq<NodeID>,
    vis: Seq<NodeID>,
) -> (Option<NodeID>, Seq<NodeID>, Seq<NodeID>)
    decreases queue.len(),
{
    if queue.len() == 0 {
        (None, queue, vis)
    } else {
        let n = queue.first();
        let rest = queue.drop_first();
        if vis.contains(n) {
            bfs_next_spec(g, rest, vis)
        } else if !g.nodes_map().dom().contains(n) {
            bfs_next_spec(g, rest, vis)
        } else {
            let vis2 = vis.push(n);
            (
                Some(n),
                rest + fwd_targets(g, g.nodes_map()[n].connections@, vis2.to_set()),
                vis2,
            )
        }
    }
}

/// What one spec step guarantees: on a yield, the node is live and unvisited
/// and the visited list grows by exactly that node.
proof fn lemma_bfs_next_spec<G: GraphInterface>(g: &G, queue: Seq<NodeID>, vis: Seq<NodeID>)
    ensures
        ({
            let step = bfs_next_spec(g, queue, vis);
            match step.0 {
                None => step.1.len() == 0 && step.2 == vis,
                Some(n) => {
                    &&& g.nodes_map().dom().contains(n)
                    &&& !vis.contains(n)
                    &&& step.2 == vis.push(n)
                },
            }
        }),
    decreases queue.len(),
{
    if queue.len() > 0 {
        let n = queue.first();
        if vis.contains(n) || !g.nodes_map().dom().contains(n) {
            lemma_bfs_next_spec(g, queue.drop_first(), vis);
        }
    }
}

proof fn lemma_bfs_diff_shrinks(dom: Set<NodeID>, vis: Set<NodeID>, n: NodeID)
    requires
        dom.finite(),
        dom.contains(n),
        !vis.contains(n),
    ensures
        dom.difference(vis.insert(n)).len() < dom.difference(vis).len(),
{
    broadcast use vstd::set::group_set_axioms;

    let d1 = dom.difference(vis);
    let d2 = dom.difference(vis.insert(n));
    assert(d1.finite()) by {
        vstd::set_lib::lemma_len_subset(d1, dom);
    };
    assert(d2 =~= d1.remove(n));
    assert(d1.contains(n));
}

#[via_fn]
proof fn bfs_seq_decreases<G: GraphInterface>(g: &G, queue: Seq<NodeID>, vis: Seq<NodeID>) {
    g.lemma_inv();
    lemma_bfs_next_spec(g, queue, vis);
    let step = bfs_next_spec(g, queue, vis);
    if step.0 is Some {
        let n = step.0->Some_0;
        lemma_push_to_set(vis, n);
        assert(step.2.to_set() =~= vis.to_set().insert(n));
        lemma_bfs_diff_shrinks(g.nodes_map().dom(), vis.to_set(), n);
    }
}

/// The whole remaining traversal, as a function of the graph and the cursor
/// state.
pub open spec fn bfs_seq<G: GraphInterface>(g: &G, queue: Seq<NodeID>, vis: Seq<NodeID>) -> Seq<
    NodeID,
>
    decreases g.nodes_map().dom().difference(vis.to_set()).len(), queue.len(),
        when g.inv()
    via bfs_seq_decreases::<G>
{
    let step = bfs_next_spec(g, queue, vis);
    match step.0 {
        None => Seq::empty(),
        Some(n) => seq![n] + bfs_seq(g, step.1, step.2),
    }
}

/// The full breadth-first sequence from `start`: a function of the graph and
/// the start node alone.
pub open spec fn bfs_run<G: GraphInterface>(g: &G, start: NodeID) -> Seq<NodeID> {
    bfs_seq(g, seq![start], Seq::empty())
}

/// A lazy breadth-first cursor: a visited list, a FIFO work queue, and the
/// tree edges crossed so far.
pub struct BreadthFirstSearch {
    visited: Vec<NodeID>,
    queue: VecDeque<NodeID>,
    visited_edges: Vec<(NodeID, NodeID)>,
}

impl BreadthFirstSearch {
    /// The nodes yielded so far, in order.
    pub closed spec fn visited_ids(self) -> Seq<NodeID> {
        self.visited@
    }

    /// The work queue, front first.
    pub closed spec fn queue_ids(self) -> Seq<NodeID> {
        self.queue@
    }

    /// The `(from, to)` pair of every discovery made so far.
    pub closed spec fn edge_pairs(self) -> Seq<(NodeID, NodeID)> {
        self.visited_edges@
    }

    /// The cursor's bookkeeping against a graph: no node yielded twice, only
    /// live nodes yielded, and every recorded pair is a real forward step.
    pub closed spec fn inv_for<G: GraphInterface>(self, g: &G) -> bool {
        &&& self.visited@.no_duplicates()
        &&& forall|j: int|
            0 <= j < self.visited@.len() ==> g.nodes_map().dom().contains(
                #[trigger] self.visited@[j],
            )
        &&& forall|j: int|
            0 <= j < self.visited_edges@.len() ==> crate::algorithms::dfs::is_succ(
                g,
                (#[trigger] self.visited_edges@[j]).0,
                self.visited_edges@[j].1,
            ) && g.nodes_map().dom().contains(self.visited_edges@[j].0)
    }

    /// A fresh traversal from `start`.
    pub fn new<G: GraphInterface>(g: &G, start: NodeID) -> (d: BreadthFirstSearch)
        requires
            g.inv(),
        ensures
            d.inv_for(g),
            d.visited_ids() == Seq::<NodeID>::empty(),
            d.queue_ids() == seq![start],
            d.edge_pairs() == Seq::<(NodeID, NodeID)>::empty(),
    {
        let mut queue: VecDeque<NodeID> = VecDeque::new();
        queue.push_back(start);
        let d = BreadthFirstSearch { visited: Vec::new(), queue, visited_edges: Vec::new() };
        proof {
            assert(d.queue@ =~= seq![start]);
        }
        d
    }

    /// The tree edges crossed so far, in discovery order.
    pub fn visited_edges(&self) -> (r: &Vec<(NodeID, NodeID)>)
        ensures
            r@ == self.edge_pairs(),
    {
        &self.visited_edges
    }

    /// The nodes yielded so far, in order.
    pub fn visited(&self) -> (r: &Vec<NodeID>)
        ensures
            r@ == self.visited_ids(),
    {
        &self.visited
    }

    /// Yield the next node of the traversal, or `None` when exhausted. The
    /// result and the new cursor state are exactly [`bfs_next_spec`] of the
    /// old state.
    pub fn next<G: GraphInterface>(&mut self, g: &G) -> (r: Option<NodeID>)
        requires
            g.inv(),
            old(self).inv_for(g),
        ensures
            final(self).inv_for(g),
            (r, final(self).queue_ids(), final(self).visited_ids()) == bfs_next_spec(
                g,
                old(self).queue_ids(),
                old(self).visited_ids(),
            ),
            match r {
                Some(n) => {
                    &&& g.nodes_map().dom().contains(n)
                    &&& !old(self).visited_ids().contains(n)
                    &&& final(self).visited_ids() == old(self).visited_ids().push(n)
                },
                None => {
                    &&& final(self).queue_ids().len() == 0
                    &&& final(self).visited_ids() == old(self).visited_ids()
                    &&& final(self).edge_pairs() == old(self).edge_pairs()
                },
            },
    {
        proof {
            g.lemma_inv();
        }
        loop
            invariant
                g.inv(),
                self.inv_for(g),
                self.visited@ == old(self).visited@,
                self.visited_edges@ == old(self).visited_edges@,
                bfs_next_spec(g, self.queue@, self.visited@) == bfs_next_spec(
                    g,
                    old(self).queue@,
                    old(self).visited@,
                ),
            decreases self.queue@.len(),
        {
            let ghost q_entry = self.queue@;
            match self.queue.pop_front() {
                None => {
                    return None;
                },
                Some(n) => {
                    proof {
                        assert(q_entry.first() == n);
                        assert(self.queue@ == q_entry.drop_first());
                    }
                    if contains_id(&self.visited, n) {
                    } else {
                        match g.node(n) {
                            Err(e) => {},
                            Ok(node) => {
                                self.visited.push(n);
                                let ghost vis2 = self.visited@;
                                let ghost rest = self.queue@;
                                let ghost conns = node.connections@;
                                let ghost pairs0 = self.visited_edges@;
                                proof {
                                    assert(conns.take(0) =~= Seq::<EdgeID>::empty());
                                    assert(self.queue@ =~= rest + fwd_targets(
                                        g,
                                        conns.take(0),
                                        vis2.to_set(),
                                    ));
                                }
                                let mut j: usize = 0;
                                while j < node.connections.len()
                                    invariant
                                        g.inv(),
                                        j <= conns.len(),
                                        conns == node.connections@,
                                        g.nodes_map().dom().contains(n),
                                        node == g.nodes_map()[n],
                                        vis2 == self.visited@,
                                        self.queue@ == rest + fwd_targets(
                                            g,
                                            conns.take(j as int),
                                            vis2.to_set(),
                                        ),
                                        forall|jj: int|
                                            0 <= jj < self.visited_edges@.len() ==> crate::algorithms::dfs::is_succ(
                                                g,
                                                (#[trigger] self.visited_edges@[jj]).0,
                                                self.visited_edges@[jj].1,
                                            ) && g.nodes_map().dom().contains(
                                                self.visited_edges@[jj].0,
                                            ),
                                    decreases conns.len() - j,
                                {
                                    let eid = node.connections[j];
                                    proof {
                                        g.lemma_inv();
                                        assert(g.edges_map().dom().contains(conns[j as int]));
                                        assert(conns.take(j as int + 1).drop_last() =~= conns.take(
                                            j as int,
                                        ));
                                    }
                                    let to = match g.edge(eid) {
                                        Ok(e) => e.to,
                                        Err(e) => {
                                            proof {
                                                assert(false);
                                            }
                                            n
                                        },
                                    };
                                    if !contains_id(&self.visited, to) {
                                        self.queue.push_back(to);
                                        self.visited_edges.push((n, to));
                                        proof {
                                            assert(crate::algorithms::dfs::is_succ(g, n, to)) by {
                                                assert(g.edges_map()[g.nodes_map()[
                                                n].connections@[j as int]].to == to);
                                            };
                                        }
                                    }
                                    j = j + 1;
                                }
                                proof {
                                    assert(conns.take(conns.len() as int) =~= conns);
                                }
                                return Some(n);
                            },
                        }
                    }
                },
            }
        }
    }
}

/// Is `x` one of the identifiers in `v`?
fn contains_id(v: &Vec<NodeID>, x: NodeID) -> (r: bool)
    ensures
        r == v@.contains(x),
{
    let mut i: usize = 0;
    while i < v.len()
        invariant
            i <= v@.len(),
            forall|j: int| 0 <= j < i ==> v@[j] != x,
        decreases v@.len() - i,
    {
        if v[i] == x {
            return true;
        }
        i = i + 1;
    }
    false
}

/// Run a traversal from `start` to exhaustion and collect the yielded nodes,
/// level by level: each node at most once, only live nodes, never more than
/// the node count, and the same sequence on every run.
pub fn bfs_from<G: GraphInterface>(g: &G, start: NodeID) -> (r: Vec<NodeID>)
    requires
        g.inv(),
    ensures
        r@ == bfs_run(g, start),
        r@.no_duplicates(),
        forall|j: int| 0 <= j < r@.len() ==> g.nodes_map().dom().contains(#[trigger] r@[j]),
        r@.len() <= g.nodes_map().dom().len(),
{
    let mut d = BreadthFirstSearch::new(g, start);
    let mut r: Vec<NodeID> = Vec::new();
    proof {
        assert(r@ + bfs_seq(g, d.queue_ids(), d.visited_ids()) =~= bfs_seq(
            g,
            d.queue_ids(),
            d.visited_ids(),
        ));
        assert(d.queue_ids() == seq![start] && d.visited_ids() == Seq::<NodeID>::empty());
    }
    loop
        invariant
            g.inv(),
            d.inv_for(g),
            r@ == d.visited_ids(),
            bfs_run(g, start) == r@ + bfs_seq(g, d.queue_ids(), d.visited_ids()),
        decreases g.nodes_map().dom().difference(d.visited_ids().to_set()).len(),
            d.queue_ids().len(),
    {
        let ghost q0 = d.queue_ids();
        let ghost vis0 = d.visited_ids();
        let ghost r0 = r@;
        match d.next(g) {
            Some(n) => {
                r.push(n);
                proof {
                    assert(bfs_seq(g, q0, vis0) == seq![n] + bfs_seq(
                        g,
                        d.queue_ids(),
                        d.visited_ids(),
                    ));
                    assert(r0 + (seq![n] + bfs_seq(g, d.queue_ids(), d.visited_ids())) =~= r@
                        + bfs_seq(g, d.queue_ids(), d.visited_ids()));
                    g.lemma_inv();
                    lemma_push_to_set(vis0, n);
                    lemma_bfs_diff_shrinks(g.nodes_map().dom(), vis0.to_set(), n);
                }
            },
            None => {
                proof {
                    assert(bfs_seq(g, q0, vis0) =~= Seq::<NodeID>::empty());
                    assert(r0 + bfs_seq(g, q0, vis0) =~= r0);
                    r@.unique_seq_to_set();
                    g.lemma_inv();
                    assert forall|x: NodeID| r@.to_set().contains(x) implies
                        g.nodes_map().dom().contains(x) by {
                        let j = choose|j: int| 0 <= j < r@.len() && r@[j] == x;
                    };
                    vstd::set_lib::lemma_len_subset(r@.to_set(), g.nodes_map().dom());
                }
                return r;
            },
        }
    }
}

/// A breadth-first entry point, available on every graph implementation.
pub trait IterBreadthFirst: GraphInterface {
    /// A breadth-first cursor starting from the given node.
    fn iter_breadth_first(&self, start: NodeID) -> (d: BreadthFirstSearch)
        requires
            self.inv(),
        ensures
            d.inv_for(self),
            d.visited_ids() == Seq::<NodeID>::empty(),
            d.queue_ids() == seq![start],
            d.edge_pairs() == Seq::<(NodeID, NodeID)>::empty(),
    ;
}

impl<G: GraphInterface> IterBreadthFirst for G {
    fn iter_breadth_first(&self, start: NodeID) -> (d: BreadthFirstSearch) {
        BreadthFirstSearch::new(self, start)
    }
}

} // verus!
