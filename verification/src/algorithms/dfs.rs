//! Depth-first traversal: a restartable, lazy cursor over the nodes reachable
//! from a start node, plus connected components computed from repeated
//! traversal.
//!
//! The cursor yields every node reachable from the start exactly once, in the
//! order of a recursive pre-order walk that expands children in edge-insertion
//! order (the work stack is filled from the adjacency list in reverse). The
//! whole sequence is a function of the graph and the start node alone —
//! [`dfs_run`] — which is what makes the traversal deterministic.

use crate::edge::EdgeID;
use crate::interface::GraphInterface;
use crate::node::NodeID;
use crate::spec_facts::lemma_push_to_set;
use vstd::prelude::*;

verus! {

/// `t` is a direct successor of `n`: some edge in `n`'s adjacency list points
/// at `t`. Adjacency lists hold incoming edges too; those contribute `n`
/// itself here, which a traversal's visited-set makes harmless.
pub open spec fn is_succ<G: GraphInterface>(g: &G, n: NodeID, t: NodeID) -> bool {
    exists|j: int|
        0 <= j < g.nodes_map()[n].connections@.len() && g.edges_map()[#[trigger] g.nodes_map()[
        n].connections@[j]].to == t
}

/// `p` is a directed walk from `a` to `b`: consecutive steps follow
/// [`is_succ`] out of live nodes.
pub open spec fn is_path<G: GraphInterface>(g: &G, p: Seq<NodeID>, a: NodeID, b: NodeID) -> bool {
    &&& p.len() >= 1
    &&& p.first() == a
    &&& p.last() == b
    &&& forall|i: int|
        0 <= i < p.len() - 1 ==> g.nodes_map().dom().contains(#[trigger] p[i]) && is_succ(
            g,
            p[i],
            p[i + 1],
        )
}

/// `b` can be reached from `a` by following edges forward.
pub open spec fn reachable<G: GraphInterface>(g: &G, a: NodeID, b: NodeID) -> bool {
    exists|p: Seq<NodeID>| #[trigger] is_path(g, p, a, b)
}

/// A one-step extension of a reachable node is reachable.
proof fn lemma_reach_step<G: GraphInterface>(g: &G, a: NodeID, n: NodeID, t: NodeID)
    requires
        reachable(g, a, n),
        g.nodes_map().dom().contains(n),
        is_succ(g, n, t),
    ensures
        reachable(g, a, t),
{
    let p = choose|p: Seq<NodeID>| #[trigger] is_path(g, p, a, n);
    let p2 = p.push(t);
    assert forall|i: int|
        0 <= i < p2.len() - 1 implies g.nodes_map().dom().contains(#[trigger] p2[i]) && is_succ(
        g,
        p2[i],
        p2[i + 1],
    ) by {
        if i < p.len() - 1 {
            assert(p2[i] == p[i] && p2[i + 1] == p[i + 1]);
        } else {
            assert(p2[i] == n && p2[i + 1] == t);
        }
    };
    assert(is_path(g, p2, a, t));
}

/// Every node is reachable from itself, by the one-node walk.
pub proof fn lemma_reach_self<G: GraphInterface>(g: &G, a: NodeID)
    ensures
        reachable(g, a, a),
{
    let p = seq![a];
    assert(is_path(g, p, a, a));
}

/// A set that contains the start (when live) and is closed under live
/// successors contains every live reachable node.
proof fn lemma_reach_in_closed_set<G: GraphInterface>(g: &G, s: NodeID, f: Set<NodeID>, p: Seq<
    NodeID,
>, x: NodeID)
    requires
        g.nodes_map().dom().contains(s) ==> f.contains(s),
        forall|v: NodeID, t: NodeID|
            f.contains(v) && #[trigger] is_succ(g, v, t) && g.nodes_map().dom().contains(t)
                ==> f.contains(t),
        forall|v: NodeID| #[trigger] f.contains(v) ==> g.nodes_map().dom().contains(v),
        is_path(g, p, s, x),
        g.nodes_map().dom().contains(x),
    ensures
        f.contains(x),
    decreases p.len(),
{
    if p.len() == 1 {
        assert(x == s);
    } else {
        let pre = p.drop_last();
        let w = pre.last();
        assert(g.nodes_map().dom().contains(w) && is_succ(g, w, x)) by {
            assert(p[p.len() - 2] == w && p[p.len() - 1] == x);
        };
        assert(is_path(g, pre, s, w)) by {
            assert(forall|i: int| 0 <= i < pre.len() ==> pre[i] == p[i]);
        };
        lemma_reach_in_closed_set(g, s, f, pre, w);
    }
}

/// The nodes that a node's adjacency list, read in reverse, pushes onto the
/// work stack: each edge's target, unless already visited.
pub open spec fn rev_targets<G: GraphInterface>(
    g: &G,
    conns: Seq<EdgeID>,
    vis: Set<NodeID>,
) -> Seq<NodeID>
    decreases conns.len(),
{
    if conns.len() == 0 {
        Seq::empty()
    } else {
        let t = g.edges_map()[conns.last()].to;
        (if vis.contains(t) {
            Seq::<NodeID>::empty()
        } else {
            seq![t]
        }) + rev_targets(g, conns.drop_last(), vis)
    }
}

proof fn lemma_rev_targets_cons<G: GraphInterface>(
    g: &G,
    x: EdgeID,
    s: Seq<EdgeID>,
    vis: Set<NodeID>,
)
    ensures
        rev_targets(g, seq![x] + s, vis) == rev_targets(g, s, vis) + (if vis.contains(
            g.edges_map()[x].to,
        ) {
            Seq::<NodeID>::empty()
        } else {
            seq![g.edges_map()[x].to]
        }),
    decreases s.len(),
{
    let whole = seq![x] + s;
    if s.len() == 0 {
        assert(whole =~= seq![x]);
        assert(whole.last() == x);
        assert(whole.drop_last() =~= Seq::<EdgeID>::empty());
        assert(rev_targets(g, whole.drop_last(), vis) == Seq::<NodeID>::empty());
        assert(rev_targets(g, s, vis) == Seq::<NodeID>::empty());
        assert(rev_targets(g, whole, vis) =~= rev_targets(g, s, vis) + (if vis.contains(
            g.edges_map()[x].to,
        ) {
            Seq::<NodeID>::empty()
        } else {
            seq![g.edges_map()[x].to]
        }));
    } else {
        assert(whole.last() == s.last());
        assert(whole.drop_last() =~= seq![x] + s.drop_last());
        lemma_rev_targets_cons(g, x, s.drop_last(), vis);
        assert(rev_targets(g, whole, vis) =~= rev_targets(g, s, vis) + (if vis.contains(
            g.edges_map()[x].to,
        ) {
            Seq::<NodeID>::empty()
        } else {
            seq![g.edges_map()[x].to]
        }));
    }
}

/// One step of the traversal, as a function of the graph and the cursor
/// state: pop until an unvisited live node appears, visit it, push its
/// unvisited targets in reverse adjacency order; or exhaust the stack.
pub open spec fn dfs_next_spec<G: GraphInterface>(
    g: &G,
    stack: Seq<NodeID>,
    vis: Seq<NodeID>,
) -> (Option<NodeID>, Seq<NodeID>, Seq<NodeID>)
    decreases stack.len(),
{
    if stack.len() == 0 {
        (None, stack, vis)
    } else {
        let n = stack.last();
        let rest = stack.drop_last();
        if vis.contains(n) {
            dfs_next_spec(g, rest, vis)
        } else if !g.nodes_map().dom().contains(n) {
            dfs_next_spec(g, rest, vis)
        } else {
            let vis2 = vis.push(n);
            (
                Some(n),
                rest + rev_targets(g, g.nodes_map()[n].connections@, vis2.to_set()),
                vis2,
            )
        }
    }
}

/// The whole remaining traversal, as a function of the graph and the cursor
/// state.
pub open spec fn dfs_seq<G: GraphInterface>(g: &G, stack: Seq<NodeID>, vis: Seq<NodeID>) -> Seq<
    NodeID,
>
    decreases g.nodes_map().dom().difference(vis.to_set()).len(), stack.len(),
        when g.inv()
    via dfs_seq_decreases::<G>
{
    let step = dfs_next_spec(g, stack, vis);
    match step.0 {
        None => Seq::empty(),
        Some(n) => seq![n] + dfs_seq(g, step.1, step.2),
    }
}

/// What one spec step guarantees: on a yield, the node is live and unvisited,
/// the visited list grows by exactly that node, and the new stack is no
/// bigger than the old stack plus the node's adjacency list.
proof fn lemma_dfs_next_spec<G: GraphInterface>(g: &G, stack: Seq<NodeID>, vis: Seq<NodeID>)
    ensures
        ({
            let step = dfs_next_spec(g, stack, vis);
            match step.0 {
                None => step.1.len() == 0 && step.2 == vis,
                Some(n) => {
                    &&& g.nodes_map().dom().contains(n)
                    &&& !vis.contains(n)
                    &&& stack.contains(n)
                    &&& step.2 == vis.push(n)
                },
            }
        }),
    decreases stack.len(),
{
    if stack.len() > 0 {
        let n = stack.last();
        if vis.contains(n) || !g.nodes_map().dom().contains(n) {
            lemma_dfs_next_spec(g, stack.drop_last(), vis);
            let step = dfs_next_spec(g, stack, vis);
            if step.0 is Some {
                let m = step.0->Some_0;
                assert(stack.drop_last().contains(m));
                let j = choose|j: int|
                    0 <= j < stack.drop_last().len() && stack.drop_last()[j] == m;
                assert(stack[j] == m);
            }
        } else {
            assert(stack[stack.len() - 1] == n);
        }
    }
}

proof fn lemma_diff_shrinks(dom: Set<NodeID>, vis: Set<NodeID>, n: NodeID)
    requires
        dom.finite(),
        dom.contains(n),
        !vis.contains(n),
    ensures
        dom.difference(vis.insert(n)).len() < dom.difference(vis).len(),
{
    broadcast use vstd::set::group_set_axioms;

    let d1 = dom.difference(vis);
    let d2 = dom.difference(vis.insert(n));
    assert(d1.finite()) by {
        vstd::set_lib::lemma_len_subset(d1, dom);
    };
    assert(d2 =~= d1.remove(n));
    assert(d1.contains(n));
}

#[via_fn]
proof fn dfs_seq_decreases<G: GraphInterface>(g: &G, stack: Seq<NodeID>, vis: Seq<NodeID>) {
    g.lemma_inv();
    lemma_dfs_next_spec(g, stack, vis);
    let step = dfs_next_spec(g, stack, vis);
    if step.0 is Some {
        let n = step.0->Some_0;
        lemma_push_to_set(vis, n);
        assert(step.2.to_set() =~= vis.to_set().insert(n));
        lemma_diff_shrinks(g.nodes_map().dom(), vis.to_set(), n);
    }
}

/// The full depth-first sequence from `start`: a function of the graph and
/// the start node alone.
pub open spec fn dfs_run<G: GraphInterface>(g: &G, start: NodeID) -> Seq<NodeID> {
    dfs_seq(g, seq![start], Seq::empty())
}

/// Running the traversal twice from the same start on an unmutated graph
/// yields identical sequences: the outcome is a function of graph and start.
pub proof fn lemma_dfs_deterministic<G: GraphInterface>(
    g: &G,
    start: NodeID,
    r1: Seq<NodeID>,
    r2: Seq<NodeID>,
)
    requires
        g.inv(),
        r1 == dfs_run(g, start),
        r2 == dfs_run(g, start),
    ensures
        r1 == r2,
{
}

/// A lazy, single-use depth-first cursor: a visited list and an explicit work
/// stack. Yields one node per [`Self::next`] call; mutating the graph between
/// calls voids the traversal (lookups on stale identifiers fail gracefully,
/// but the sequence is only meaningful against an unmutated graph).
pub struct DepthFirstSearch {
    visited: Vec<NodeID>,
    stack: Vec<NodeID>,
    cyclic: bool,
    start: Ghost<NodeID>,
}

impl DepthFirstSearch {
    /// The nodes yielded so far, in order.
    pub closed spec fn visited_ids(self) -> Seq<NodeID> {
        self.visited@
    }

    /// The work stack, bottom first.
    pub closed spec fn stack_ids(self) -> Seq<NodeID> {
        self.stack@
    }

    /// The node the traversal started from.
    pub closed spec fn start_id(self) -> NodeID {
        self.start@
    }

    /// Whether a node was ever popped that had already been visited — a
    /// re-convergence or cycle was observed.
    pub closed spec fn saw_revisit(self) -> bool {
        self.cyclic
    }

    /// The cursor's invariant against a graph: everything visited is live and
    /// reachable from the start, everything stacked is reachable, every
    /// successor of a visited node is visited, stacked, or dangling, and the
    /// start itself is accounted for.
    pub closed spec fn inv_for<G: GraphInterface>(self, g: &G) -> bool {
        let vis = self.visited@;
        let st = self.stack@;
        let s = self.start@;
        &&& vis.no_duplicates()
        &&& forall|j: int|
            0 <= j < vis.len() ==> g.nodes_map().dom().contains(#[trigger] vis[j]) && reachable(
                g,
                s,
                vis[j],
            )
        &&& forall|j: int| 0 <= j < st.len() ==> reachable(g, s, #[trigger] st[j])
        &&& forall|v: NodeID, t: NodeID|
            vis.contains(v) && #[trigger] is_succ(g, v, t) ==> vis.contains(t) || st.contains(t)
                || !g.nodes_map().dom().contains(t)
        &&& (g.nodes_map().dom().contains(s) ==> vis.contains(s) || st.contains(s))
    }

    /// A fresh traversal from `start`.
    pub fn new<G: GraphInterface>(g: &G, start: NodeID) -> (d: DepthFirstSearch)
        requires
            g.inv(),
        ensures
            d.inv_for(g),
            d.visited_ids() == Seq::<NodeID>::empty(),
            d.stack_ids() == seq![start],
            d.start_id() == start,
            !d.saw_revisit(),
    {
        let mut stack: Vec<NodeID> = Vec::new();
        stack.push(start);
        let d = DepthFirstSearch {
            visited: Vec::new(),
            stack,
            cyclic: false,
            start: Ghost(start),
        };
        proof {
            assert(d.stack@ =~= seq![start]);
            lemma_reach_self(g, start);
            assert(d.stack@[0] == start);
        }
        d
    }

    /// Yield the next node of the traversal, or `None` when exhausted. The
    /// result and the new cursor state are exactly [`dfs_next_spec`] of the
    /// old state.
    pub fn next<G: GraphInterface>(&mut self, g: &G) -> (r: Option<NodeID>)
        requires
            g.inv(),
            old(self).inv_for(g),
        ensures
            final(self).inv_for(g),
            final(self).start_id() == old(self).start_id(),
            (r, final(self).stack_ids(), final(self).visited_ids()) == dfs_next_spec(
                g,
                old(self).stack_ids(),
                old(self).visited_ids(),
            ),
            match r {
                Some(n) => {
                    &&& g.nodes_map().dom().contains(n)
                    &&& !old(self).visited_ids().contains(n)
                    &&& final(self).visited_ids() == old(self).visited_ids().push(n)
                    &&& reachable(g, old(self).start_id(), n)
                },
                None => {
                    &&& final(self).stack_ids().len() == 0
                    &&& final(self).visited_ids() == old(self).visited_ids()
                },
            },
    {
        proof {
            g.lemma_inv();
        }
        loop
            invariant
                g.inv(),
                self.inv_for(g),
                self.start == old(self).start,
                self.visited@ == old(self).visited@,
                dfs_next_spec(g, self.stack@, self.visited@) == dfs_next_spec(
                    g,
                    old(self).stack@,
                    old(self).visited@,
                ),
            decreases self.stack@.len(),
        {
            let ghost st_entry = self.stack@;
            match self.stack.pop() {
                None => {
                    proof {
                        assert(st_entry.len() == 0);
                        assert(self.stack@ == st_entry);
                    }
                    return None;
                },
                Some(n) => {
                    proof {
                        assert(st_entry.last() == n);
                        assert(self.stack@ == st_entry.drop_last());
                    }
                    if contains_id(&self.visited, n) {
                        self.cyclic = true;
                        proof {
                            lemma_popped_inv(g, *self, st_entry, n, old(self).start@);
                        }
                    } else {
                        match g.node(n) {
                            Err(e) => {
                                proof {
                                    lemma_popped_inv(g, *self, st_entry, n, old(self).start@);
                                }
                            },
                            Ok(node) => {
                                self.visited.push(n);
                                let ghost vis2 = self.visited@;
                                let ghost rest = self.stack@;
                                let ghost conns = node.connections@;
                                proof {
                                    assert(st_entry.contains(n)) by {
                                        assert(st_entry[st_entry.len() - 1] == n);
                                    };
                                    assert(reachable(g, self.start@, n));
                                }
                                proof {
                                    assert(conns.skip(conns.len() as int)
                                        =~= Seq::<EdgeID>::empty());
                                    assert(self.stack@ =~= rest + rev_targets(
                                        g,
                                        conns.skip(conns.len() as int),
                                        vis2.to_set(),
                                    ));
                                }
                                let mut j: usize = node.connections.len();
                                while j > 0
                                    invariant
                                        g.inv(),
                                        self.start == old(self).start,
                                        j <= conns.len(),
                                        conns == node.connections@,
                                        g.nodes_map().dom().contains(n),
                                        node == g.nodes_map()[n],
                                        vis2 == self.visited@,
                                        reachable(g, self.start@, n),
                                        self.stack@ == rest + rev_targets(
                                            g,
                                            conns.skip(j as int),
                                            vis2.to_set(),
                                        ),
                                        forall|jj: int|
                                            j <= jj < conns.len() ==> {
                                                let t = g.edges_map()[#[trigger] conns[jj]].to;
                                                vis2.contains(t) || self.stack@.contains(t)
                                            },
                                        forall|jj: int|
                                            0 <= jj < rest.len() ==> self.stack@[jj] == rest[jj],
                                        forall|jj: int|
                                            0 <= jj < self.stack@.len() ==> reachable(
                                                g,
                                                self.start@,
                                                #[trigger] self.stack@[jj],
                                            ),
                                    decreases j,
                                {
                                    j = j - 1;
                                    let ghost st_before = self.stack@;
                                    let eid = node.connections[j];
                                    proof {
                                        g.lemma_inv();
                                        assert(g.edges_map().dom().contains(conns[j as int]));
                                    }
                                    let to = match g.edge(eid) {
                                        Ok(e) => e.to,
                                        Err(e) => {
                                            proof {
                                                assert(false);
                                            }
                                            n
                                        },
                                    };
                                    proof {
                                        assert(conns.skip(j as int) =~= seq![conns[j as int]]
                                            + conns.skip(j as int + 1));
                                        lemma_rev_targets_cons(
                                            g,
                                            conns[j as int],
                                            conns.skip(j as int + 1),
                                            vis2.to_set(),
                                        );
                                    }
                                    if !contains_id(&self.visited, to) {
                                        self.stack.push(to);
                                        proof {
                                            assert(self.stack@ == st_before.push(to));
                                            lemma_reach_step(g, self.start@, n, to);
                                            assert forall|jj: int|
                                                0 <= jj < self.stack@.len() implies reachable(
                                                g,
                                                self.start@,
                                                #[trigger] self.stack@[jj],
                                            ) by {
                                                if jj < st_before.len() {
                                                    assert(self.stack@[jj] == st_before[jj]);
                                                }
                                            };
                                            assert forall|jj: int| j <= jj < conns.len() implies {
                                                let t = g.edges_map()[#[trigger] conns[jj]].to;
                                                vis2.contains(t) || self.stack@.contains(t)
                                            } by {
                                                let t = g.edges_map()[conns[jj]].to;
                                                if jj == j {
                                                    assert(self.stack@[self.stack@.len() - 1]
                                                        == to);
                                                } else if !vis2.contains(t) {
                                                    assert(st_before.contains(t));
                                                    let ii = choose|ii: int|
                                                        0 <= ii < st_before.len() && st_before[ii]
                                                            == t;
                                                    assert(self.stack@[ii] == t);
                                                }
                                            };
                                        }
                                    } else {
                                        proof {
                                            assert forall|jj: int| j <= jj < conns.len() implies {
                                                let t = g.edges_map()[#[trigger] conns[jj]].to;
                                                vis2.contains(t) || self.stack@.contains(t)
                                            } by {
                                                let t = g.edges_map()[conns[jj]].to;
                                                if jj == j {
                                                    assert(vis2.contains(t));
                                                }
                                            };
                                        }
                                    }
                                }
                                proof {
                                    assert(conns.skip(0) =~= conns);
                                    assert(self.visited@ == old(self).visited@.push(n));
                                    assert(self.visited@.drop_last() =~= old(self).visited@);
                                    assert(self.visited@.last() == n);
                                    lemma_yield_inv(g, *self, st_entry, rest, n, old(self).start@);
                                    assert(dfs_next_spec(g, st_entry, old(self).visited@) == (
                                    Some(n),
                                    self.stack@,
                                    self.visited@,
                                    ));
                                }
                                return Some(n);
                            },
                        }
                    }
                },
            }
        }
    }
}

/// Is `x` one of the identifiers in `v`?
fn contains_id(v: &Vec<NodeID>, x: NodeID) -> (r: bool)
    ensures
        r == v@.contains(x),
{
    let mut i: usize = 0;
    while i < v.len()
        invariant
            i <= v@.len(),
            forall|j: int| 0 <= j < i ==> v@[j] != x,
        decreases v@.len() - i,
    {
        if v[i] == x {
            return true;
        }
        i = i + 1;
    }
    false
}

/// Popping a visited or dangling node keeps the cursor invariant.
proof fn lemma_popped_inv<G: GraphInterface>(
    g: &G,
    d: DepthFirstSearch,
    st_entry: Seq<NodeID>,
    n: NodeID,
    s: NodeID,
)
    requires
        g.inv(),
        st_entry.len() > 0,
        st_entry.last() == n,
        d.stack_ids() == st_entry.drop_last(),
        d.start_id() == s,
        d.visited_ids().no_duplicates(),
        forall|j: int|
            0 <= j < d.visited_ids().len() ==> g.nodes_map().dom().contains(
                #[trigger] d.visited_ids()[j],
            ) && reachable(g, s, d.visited_ids()[j]),
        forall|j: int| 0 <= j < st_entry.len() ==> reachable(g, s, #[trigger] st_entry[j]),
        forall|v: NodeID, t: NodeID|
            d.visited_ids().contains(v) && #[trigger] is_succ(g, v, t) ==> d.visited_ids().contains(
                t,
            ) || st_entry.contains(t) || !g.nodes_map().dom().contains(t),
        (g.nodes_map().dom().contains(s) ==> d.visited_ids().contains(s) || st_entry.contains(s)),
        d.visited_ids().contains(n) || !g.nodes_map().dom().contains(n),
    ensures
        d.inv_for(g),
{
    let st = d.stack_ids();
    assert forall|j: int| 0 <= j < st.len() implies reachable(g, s, #[trigger] st[j]) by {
        assert(st[j] == st_entry[j]);
    };
    assert forall|v: NodeID, t: NodeID|
        d.visited_ids().contains(v) && #[trigger] is_succ(g, v, t) implies d.visited_ids().contains(
        t,
    ) || st.contains(t) || !g.nodes_map().dom().contains(t) by {
        if st_entry.contains(t) && !d.visited_ids().contains(t) && g.nodes_map().dom().contains(
            t,
        ) {
            let j = choose|j: int| 0 <= j < st_entry.len() && st_entry[j] == t;
            if j < st_entry.len() - 1 {
                assert(st[j] == t);
            } else {
                assert(t == n);
                assert(d.visited_ids().contains(n));
            }
        }
    };
    if g.nodes_map().dom().contains(s) && !d.visited_ids().contains(s) {
        assert(st_entry.contains(s));
        let j = choose|j: int| 0 <= j < st_entry.len() && st_entry[j] == s;
        if j < st_entry.len() - 1 {
            assert(st[j] == s);
        } else {
            assert(s == n);
        }
    }
}

/// Yielding a node keeps the cursor invariant: the node moves from the stack
/// to the visited list, and its targets all land on the stack or were
/// already visited.
proof fn lemma_yield_inv<G: GraphInterface>(
    g: &G,
    d: DepthFirstSearch,
    st_entry: Seq<NodeID>,
    rest: Seq<NodeID>,
    n: NodeID,
    s: NodeID,
)
    requires
        g.inv(),
        st_entry.len() > 0,
        st_entry.last() == n,
        rest == st_entry.drop_last(),
        d.start_id() == s,
        g.nodes_map().dom().contains(n),
        reachable(g, s, n),
        d.visited_ids().len() > 0,
        d.visited_ids().last() == n,
        !d.visited_ids().drop_last().contains(n),
        d.visited_ids().drop_last().no_duplicates(),
        forall|j: int|
            0 <= j < d.visited_ids().len() - 1 ==> g.nodes_map().dom().contains(
                #[trigger] d.visited_ids()[j],
            ) && reachable(g, s, d.visited_ids()[j]),
        forall|j: int| 0 <= j < st_entry.len() ==> reachable(g, s, #[trigger] st_entry[j]),
        forall|v: NodeID, t: NodeID|
            d.visited_ids().drop_last().contains(v) && #[trigger] is_succ(g, v, t)
                ==> d.visited_ids().drop_last().contains(t) || st_entry.contains(t)
                || !g.nodes_map().dom().contains(t),
        (g.nodes_map().dom().contains(s) ==> d.visited_ids().drop_last().contains(s)
            || st_entry.contains(s)),
        forall|jj: int|
            0 <= jj < g.nodes_map()[n].connections@.len() ==> {
                let t = g.edges_map()[#[trigger] g.nodes_map()[n].connections@[jj]].to;
                d.visited_ids().contains(t) || d.stack_ids().contains(t)
            },
        forall|jj: int| 0 <= jj < rest.len() ==> #[trigger] d.stack_ids()[jj] == rest[jj],
        rest.len() <= d.stack_ids().len(),
        forall|j: int| 0 <= j < d.stack_ids().len() ==> reachable(g, s, #[trigger] d.stack_ids()[j]),
    ensures
        d.inv_for(g),
{
    let vis = d.visited_ids();
    let st = d.stack_ids();
    assert(vis.no_duplicates()) by {
        assert forall|j1: int, j2: int| 0 <= j1 < j2 < vis.len() implies vis[j1] != vis[j2] by {
            if j2 == vis.len() - 1 {
                assert(vis.drop_last()[j1] == vis[j1]);
                assert(vis.drop_last().contains(vis[j1]) || vis[j1] == n) by {
                    assert(vis.drop_last()[j1] == vis[j1]);
                };
                if vis[j1] == n {
                    assert(vis.drop_last().contains(n));
                }
            } else {
                assert(vis.drop_last()[j1] == vis[j1] && vis.drop_last()[j2] == vis[j2]);
            }
        };
    };
    assert forall|j: int| 0 <= j < vis.len() implies g.nodes_map().dom().contains(
        #[trigger] vis[j],
    ) && reachable(g, s, vis[j]) by {
        if j == vis.len() - 1 {
            assert(vis[j] == n);
        }
    };
    assert forall|v: NodeID, t: NodeID|
        vis.contains(v) && #[trigger] is_succ(g, v, t) implies vis.contains(t) || st.contains(t)
        || !g.nodes_map().dom().contains(t) by {
        if v == n {
            let jj = choose|jj: int|
                0 <= jj < g.nodes_map()[n].connections@.len() && g.edges_map()[#[trigger] g.nodes_map()[
                n].connections@[jj]].to == t;
            assert(vis.contains(t) || st.contains(t));
        } else {
            let jv = choose|jv: int| 0 <= jv < vis.len() && vis[jv] == v;
            assert(jv < vis.len() - 1);
            assert(vis.drop_last()[jv] == v);
            assert(vis.drop_last().contains(v));
            if !vis.drop_last().contains(t) && g.nodes_map().dom().contains(t) && !vis.contains(
                t,
            ) {
                assert(st_entry.contains(t));
                let j = choose|j: int| 0 <= j < st_entry.len() && st_entry[j] == t;
                if j < st_entry.len() - 1 {
                    assert(st[j] == rest[j] && rest[j] == t);
                } else {
                    assert(t == n);
                    assert(vis.contains(n)) by {
                        assert(vis[vis.len() - 1] == n);
                    };
                }
            } else {
                if vis.drop_last().contains(t) {
                    let jt = choose|jt: int|
                        0 <= jt < vis.drop_last().len() && vis.drop_last()[jt] == t;
                    assert(vis[jt] == t);
                }
            }
        }
    };
    if g.nodes_map().dom().contains(s) && !vis.contains(s) {
        assert(!vis.drop_last().contains(s)) by {
            if vis.drop_last().contains(s) {
                let jt = choose|jt: int| 0 <= jt < vis.drop_last().len() && vis.drop_last()[jt] == s;
                assert(vis[jt] == s);
            }
        };
        assert(st_entry.contains(s));
        let j = choose|j: int| 0 <= j < st_entry.len() && st_entry[j] == s;
        if j < st_entry.len() - 1 {
            assert(rest[j] == st_entry[j]);
            assert(st[j] == rest[j]);
            assert(st[j] == s);
            assert(st.contains(s));
        } else {
            assert(s == n);
            assert(vis[vis.len() - 1] == n);
        }
    }
}

/// Run a traversal from `start` to exhaustion and collect the yielded nodes:
/// every node reachable from `start` appears exactly once, in deterministic
/// pre-order; nothing else appears; and the result never exceeds the node
/// count.
pub fn dfs_from<G: GraphInterface>(g: &G, start: NodeID) -> (r: Vec<NodeID>)
    requires
        g.inv(),
    ensures
        r@ == dfs_run(g, start),
        r@.no_duplicates(),
        forall|x: NodeID|
            #[trigger] r@.contains(x) <==> (reachable(g, start, x)
                && g.nodes_map().dom().contains(x)),
        r@.len() <= g.nodes_map().dom().len(),
{
    let mut d = DepthFirstSearch::new(g, start);
    let mut r: Vec<NodeID> = Vec::new();
    proof {
        assert(r@ + dfs_seq(g, d.stack_ids(), d.visited_ids()) =~= dfs_seq(
            g,
            d.stack_ids(),
            d.visited_ids(),
        ));
        assert(d.stack_ids() == seq![start] && d.visited_ids() == Seq::<NodeID>::empty());
    }
    loop
        invariant
            g.inv(),
            d.inv_for(g),
            d.start_id() == start,
            r@ == d.visited_ids(),
            dfs_run(g, start) == r@ + dfs_seq(g, d.stack_ids(), d.visited_ids()),
        decreases g.nodes_map().dom().difference(d.visited_ids().to_set()).len(),
            d.stack_ids().len(),
    {
        let ghost st0 = d.stack_ids();
        let ghost vis0 = d.visited_ids();
        let ghost r0 = r@;
        match d.next(g) {
            Some(n) => {
                r.push(n);
                proof {
                    assert(dfs_seq(g, st0, vis0) == seq![n] + dfs_seq(
                        g,
                        d.stack_ids(),
                        d.visited_ids(),
                    ));
                    assert(r0 + (seq![n] + dfs_seq(g, d.stack_ids(), d.visited_ids())) =~= r@
                        + dfs_seq(g, d.stack_ids(), d.visited_ids()));
                    g.lemma_inv();
                    lemma_push_to_set(vis0, n);
                    lemma_diff_shrinks(g.nodes_map().dom(), vis0.to_set(), n);
                }
            },
            None => {
                proof {
                    assert(dfs_seq(g, st0, vis0) =~= Seq::<NodeID>::empty());
                    assert(r0 + dfs_seq(g, st0, vis0) =~= r0);
                    let f = d.visited_ids().to_set();
                    assert forall|x: NodeID|
                        reachable(g, start, x) && g.nodes_map().dom().contains(x) implies
                        #[trigger] r@.contains(x) by {
                        let p = choose|p: Seq<NodeID>| #[trigger] is_path(g, p, start, x);
                        assert forall|v: NodeID| #[trigger] f.contains(v) implies
                            g.nodes_map().dom().contains(v) by {
                            let j = choose|j: int|
                                0 <= j < d.visited_ids().len() && d.visited_ids()[j] == v;
                        };
                        assert forall|v: NodeID, t: NodeID|
                            f.contains(v) && #[trigger] is_succ(g, v, t)
                                && g.nodes_map().dom().contains(t) implies f.contains(t) by {
                            assert(d.visited_ids().contains(v));
                        };
                        lemma_reach_in_closed_set(g, start, f, p, x);
                    };
                    assert forall|x: NodeID| #[trigger] r@.contains(x) implies (reachable(
                        g,
                        start,
                        x,
                    ) && g.nodes_map().dom().contains(x)) by {
                        let j = choose|j: int| 0 <= j < r@.len() && r@[j] == x;
                    };
                    r@.unique_seq_to_set();
                    g.lemma_inv();
                    vstd::set_lib::lemma_len_subset(r@.to_set(), g.nodes_map().dom());
                }
                return r;
            },
        }
    }
}

/// `t` sits at the other end (or the same end) of some edge touching `n`:
/// adjacency read without regard to direction.
pub open spec fn usucc<G: GraphInterface>(g: &G, n: NodeID, t: NodeID) -> bool {
    exists|j: int|
        0 <= j < g.nodes_map()[n].connections@.len() && {
            let e = g.edges_map()[#[trigger] g.nodes_map()[n].connections@[j]];
            e.from == t || e.to == t
        }
}

/// Every undirected neighbour of a visited node that is live is visited too.
pub open spec fn saturated<G: GraphInterface>(g: &G, vis: Seq<NodeID>) -> bool {
    forall|v: NodeID, t: NodeID|
        vis.contains(v) && #[trigger] usucc(g, v, t) && g.nodes_map().dom().contains(t)
            ==> vis.contains(t)
}

/// On a fully consistent graph, undirected adjacency between live nodes is
/// symmetric: both endpoints list the connecting edge.
pub proof fn lemma_usucc_sym<G: GraphInterface>(g: &G, v: NodeID, t: NodeID)
    requires
        g.inv(),
        g.consistent(),
        usucc(g, v, t),
        g.nodes_map().dom().contains(v),
        g.nodes_map().dom().contains(t),
    ensures
        usucc(g, t, v),
{
    g.lemma_inv();
    let j = choose|j: int|
        0 <= j < g.nodes_map()[v].connections@.len() && {
            let e = g.edges_map()[#[trigger] g.nodes_map()[v].connections@[j]];
            e.from == t || e.to == t
        };
    let eid = g.nodes_map()[v].connections@[j];
    assert(g.edges_map().dom().contains(eid));
    assert(crate::interface::consistent_on(g.nodes_map(), g.edges_map(), g.settled_set()));
    assert(g.edges_map().dom().contains(eid));
    let e = g.edges_map()[eid];
    assert(e.from == v || e.to == v);
    assert(e.from == t || e.to == t);
    assert(g.nodes_map()[t].connections@.contains(eid)) by {
        if t == e.from {
            assert(g.nodes_map().dom().contains(e.from));
        } else {
            assert(g.nodes_map().dom().contains(e.to));
        }
    };
    let jj = choose|jj: int|
        0 <= jj < g.nodes_map()[t].connections@.len() && g.nodes_map()[t].connections@[jj] == eid;
    assert(g.edges_map()[g.nodes_map()[t].connections@[jj]].from == v || g.edges_map()[
    g.nodes_map()[t].connections@[jj]].to == v);
}

/// `p` is a walk from `a` to `b` that ignores edge direction: consecutive
/// steps follow [`usucc`] out of live nodes.
pub open spec fn is_upath<G: GraphInterface>(g: &G, p: Seq<NodeID>, a: NodeID, b: NodeID) -> bool {
    &&& p.len() >= 1
    &&& p.first() == a
    &&& p.last() == b
    &&& forall|i: int|
        0 <= i < p.len() - 1 ==> g.nodes_map().dom().contains(#[trigger] p[i]) && usucc(
            g,
            p[i],
            p[i + 1],
        )
}

/// `b` can be reached from `a` ignoring edge direction.
pub open spec fn u_reachable<G: GraphInterface>(g: &G, a: NodeID, b: NodeID) -> bool {
    exists|p: Seq<NodeID>| #[trigger] is_upath(g, p, a, b)
}

/// Every node is undirected-reachable from itself.
pub proof fn lemma_ureach_self<G: GraphInterface>(g: &G, a: NodeID)
    ensures
        u_reachable(g, a, a),
{
    let p = seq![a];
    assert(is_upath(g, p, a, a));
}

/// A one-step undirected extension of a reachable node is reachable.
proof fn lemma_ureach_step<G: GraphInterface>(g: &G, a: NodeID, n: NodeID, t: NodeID)
    requires
        u_reachable(g, a, n),
        g.nodes_map().dom().contains(n),
        usucc(g, n, t),
    ensures
        u_reachable(g, a, t),
{
    let p = choose|p: Seq<NodeID>| #[trigger] is_upath(g, p, a, n);
    let p2 = p.push(t);
    assert forall|i: int|
        0 <= i < p2.len() - 1 implies g.nodes_map().dom().contains(#[trigger] p2[i]) && usucc(
        g,
        p2[i],
        p2[i + 1],
    ) by {
        if i < p.len() - 1 {
            assert(p2[i] == p[i] && p2[i + 1] == p[i + 1]);
        } else {
            assert(p2[i] == n && p2[i + 1] == t);
        }
    };
    assert(is_upath(g, p2, a, t));
}

/// Undirected reachability is transitive: walks concatenate.
pub proof fn lemma_ureach_trans<G: GraphInterface>(g: &G, a: NodeID, b: NodeID, c: NodeID)
    requires
        u_reachable(g, a, b),
        u_reachable(g, b, c),
    ensures
        u_reachable(g, a, c),
{
    let p1 = choose|p: Seq<NodeID>| #[trigger] is_upath(g, p, a, b);
    let p2 = choose|p: Seq<NodeID>| #[trigger] is_upath(g, p, b, c);
    if p2.len() == 1 {
        assert(c == b);
    } else {
        let q = p1 + p2.drop_first();
        assert(q.first() == a);
        assert(q.last() == c) by {
            assert(q[q.len() - 1] == p2.drop_first()[p2.len() - 2]);
        };
        assert forall|i: int|
            0 <= i < q.len() - 1 implies g.nodes_map().dom().contains(#[trigger] q[i]) && usucc(
            g,
            q[i],
            q[i + 1],
        ) by {
            if i < p1.len() - 1 {
                assert(q[i] == p1[i] && q[i + 1] == p1[i + 1]);
            } else if i == p1.len() - 1 {
                assert(q[i] == b) by {
                    assert(q[i] == p1[p1.len() - 1]);
                };
                assert(q[i + 1] == p2[1]);
                assert(g.nodes_map().dom().contains(p2[0]) && usucc(g, p2[0], p2[1]));
            } else {
                let j = i - p1.len() + 1;
                assert(q[i] == p2[j] && q[i + 1] == p2[j + 1]);
                assert(g.nodes_map().dom().contains(p2[j]) && usucc(g, p2[j], p2[j + 1]));
            }
        };
        assert(is_upath(g, q, a, c));
    }
}

/// On a fully consistent graph, undirected reachability between live nodes is
/// symmetric: a walk reverses step by step.
pub proof fn lemma_ureach_sym<G: GraphInterface>(g: &G, a: NodeID, b: NodeID)
    requires
        g.inv(),
        g.consistent(),
        u_reachable(g, a, b),
        g.nodes_map().dom().contains(a),
        g.nodes_map().dom().contains(b),
    ensures
        u_reachable(g, b, a),
{
    let p = choose|p: Seq<NodeID>| #[trigger] is_upath(g, p, a, b);
    let q = p.reverse();
    assert(q.first() == b && q.last() == a);
    assert forall|i: int|
        0 <= i < q.len() - 1 implies g.nodes_map().dom().contains(#[trigger] q[i]) && usucc(
        g,
        q[i],
        q[i + 1],
    ) by {
        let j = p.len() - 2 - i;
        assert(q[i] == p[j + 1] && q[i + 1] == p[j]);
        assert(g.nodes_map().dom().contains(p[j]) && usucc(g, p[j], p[j + 1]));
        assert(g.nodes_map().dom().contains(p[j + 1])) by {
            if j + 1 < p.len() - 1 {
            } else {
                assert(p[j + 1] == b);
            }
        };
        lemma_usucc_sym(g, p[j], p[j + 1]);
    };
    assert(is_upath(g, q, b, a));
}

/// If `t` is pushed by `visit_endpoint`, all three lists gain exactly `t`;
/// otherwise nothing changes.
fn visit_endpoint<G: GraphInterface>(
    g: &G,
    t: NodeID,
    visited: &mut Vec<NodeID>,
    comp: &mut Vec<NodeID>,
    stack: &mut Vec<NodeID>,
) -> (pushed: bool)
    ensures
        pushed == (g.nodes_map().dom().contains(t) && !old(visited)@.contains(t)),
        !pushed ==> (*final(visited) == *old(visited) && *final(comp) == *old(comp)
            && *final(stack) == *old(stack)),
        pushed ==> (final(visited)@ == old(visited)@.push(t) && final(comp)@ == old(comp)@.push(t)
            && final(stack)@ == old(stack)@.push(t)),
{
    if !contains_id(visited, t) {
        match g.node(t) {
            Ok(nd) => {
                visited.push(t);
                comp.push(t);
                stack.push(t);
                true
            },
            Err(e) => false,
        }
    } else {
        false
    }
}

/// Pushing one discovered node onto the component and the stack keeps the
/// component's membership and reachability bookkeeping.
proof fn lemma_comp_push<G: GraphInterface>(
    g: &G,
    start: NodeID,
    comp_a: Seq<NodeID>,
    comp_b: Seq<NodeID>,
    st_a: Seq<NodeID>,
    st_b: Seq<NodeID>,
    t: NodeID,
)
    requires
        comp_b == comp_a.push(t),
        st_b == st_a.push(t),
        u_reachable(g, start, t),
        forall|j: int| 0 <= j < comp_a.len() ==> u_reachable(g, start, #[trigger] comp_a[j]),
        forall|j: int| 0 <= j < st_a.len() ==> comp_a.contains(#[trigger] st_a[j]),
    ensures
        forall|j: int| 0 <= j < comp_b.len() ==> u_reachable(g, start, #[trigger] comp_b[j]),
        forall|j: int| 0 <= j < st_b.len() ==> comp_b.contains(#[trigger] st_b[j]),
{
    assert forall|j: int| 0 <= j < comp_b.len() implies u_reachable(
        g,
        start,
        #[trigger] comp_b[j],
    ) by {
        if j < comp_a.len() {
            assert(comp_b[j] == comp_a[j]);
        }
    };
    assert forall|j: int| 0 <= j < st_b.len() implies comp_b.contains(#[trigger] st_b[j]) by {
        if j < st_a.len() {
            assert(comp_a.contains(st_a[j]));
            let jj = choose|jj: int| 0 <= jj < comp_a.len() && comp_a[jj] == st_a[j];
            assert(comp_b[jj] == st_a[j]);
            assert(st_b[j] == st_a[j]);
        } else {
            assert(st_b[j] == t);
            assert(comp_b[comp_b.len() - 1] == t);
        }
    };
}

/// Growth of a list preserves membership, provided the old entries persist
/// at their positions.
proof fn lemma_contains_grow(a: Seq<NodeID>, b: Seq<NodeID>, x: NodeID)
    requires
        a.contains(x),
        a.len() <= b.len(),
        forall|j: int| 0 <= j < a.len() ==> b[j] == a[j],
    ensures
        b.contains(x),
{
    let j = choose|j: int| 0 <= j < a.len() && a[j] == x;
    assert(b[j] == x);
}

/// One push during a component walk keeps the walk's bookkeeping intact.
proof fn lemma_push_step<G: GraphInterface>(
    g: &G,
    vis_a: Seq<NodeID>,
    vis_b: Seq<NodeID>,
    st_a: Seq<NodeID>,
    st_b: Seq<NodeID>,
    t: NodeID,
    vis_entry: Seq<NodeID>,
    st_entry: Seq<NodeID>,
    n: NodeID,
)
    requires
        vis_b == vis_a.push(t),
        st_b == st_a.push(t),
        g.nodes_map().dom().contains(t),
        !vis_a.contains(t),
        vis_a.no_duplicates(),
        forall|j: int|
            0 <= j < vis_a.len() ==> g.nodes_map().dom().contains(#[trigger] vis_a[j]),
        forall|j: int| 0 <= j < st_a.len() ==> vis_a.contains(#[trigger] st_a[j]),
        forall|v: NodeID, t2: NodeID|
            vis_a.contains(v) && #[trigger] usucc(g, v, t2) && g.nodes_map().dom().contains(t2)
                ==> vis_a.contains(t2) || st_a.contains(v) || v == n,
        forall|x: NodeID|
            #[trigger] vis_a.contains(x) && !vis_entry.contains(x) ==> st_a.contains(x),
        forall|j: int| 0 <= j < st_entry.len() - 1 ==> #[trigger] st_a[j] == st_entry[j],
        st_entry.len() - 1 <= st_a.len(),
        vis_entry.len() <= vis_a.len(),
        forall|j: int| 0 <= j < vis_entry.len() ==> #[trigger] vis_a[j] == vis_entry[j],
    ensures
        vis_b.no_duplicates(),
        forall|j: int|
            0 <= j < vis_b.len() ==> g.nodes_map().dom().contains(#[trigger] vis_b[j]),
        forall|j: int| 0 <= j < st_b.len() ==> vis_b.contains(#[trigger] st_b[j]),
        forall|v: NodeID, t2: NodeID|
            vis_b.contains(v) && #[trigger] usucc(g, v, t2) && g.nodes_map().dom().contains(t2)
                ==> vis_b.contains(t2) || st_b.contains(v) || v == n,
        forall|x: NodeID|
            #[trigger] vis_b.contains(x) && !vis_entry.contains(x) ==> st_b.contains(x),
        forall|j: int| 0 <= j < st_entry.len() - 1 ==> #[trigger] st_b[j] == st_entry[j],
        st_entry.len() - 1 <= st_b.len(),
        vis_entry.len() <= vis_b.len(),
        forall|j: int| 0 <= j < vis_entry.len() ==> #[trigger] vis_b[j] == vis_entry[j],
{
    assert(vis_b[vis_b.len() - 1] == t);
    assert(st_b[st_b.len() - 1] == t);
    assert(vis_b.no_duplicates()) by {
        assert forall|j1: int, j2: int| 0 <= j1 < j2 < vis_b.len() implies vis_b[j1]
            != vis_b[j2] by {
            if j2 == vis_b.len() - 1 {
                assert(vis_b[j1] == vis_a[j1]);
                if vis_a[j1] == t {
                    assert(vis_a.contains(t));
                }
            }
        };
    };
    assert forall|j: int| 0 <= j < st_b.len() implies vis_b.contains(#[trigger] st_b[j]) by {
        if j < st_a.len() {
            assert(vis_a.contains(st_a[j]));
            lemma_contains_grow(vis_a, vis_b, st_a[j]);
        } else {
            assert(vis_b.contains(t)) by {
                assert(vis_b[vis_b.len() - 1] == t);
            };
        }
    };
    assert forall|v: NodeID, t2: NodeID|
        vis_b.contains(v) && #[trigger] usucc(g, v, t2) && g.nodes_map().dom().contains(
            t2,
        ) implies vis_b.contains(t2) || st_b.contains(v) || v == n by {
        if v == t {
            assert(st_b.contains(v)) by {
                assert(st_b[st_b.len() - 1] == t);
            };
        } else {
            assert(vis_a.contains(v)) by {
                let j = choose|j: int| 0 <= j < vis_b.len() && vis_b[j] == v;
                assert(vis_a[j] == v);
            };
            if vis_a.contains(t2) {
                lemma_contains_grow(vis_a, vis_b, t2);
            } else if st_a.contains(v) {
                lemma_contains_grow_st(st_a, st_b, v);
            }
        }
    };
    assert forall|x: NodeID|
        #[trigger] vis_b.contains(x) && !vis_entry.contains(x) implies st_b.contains(x) by {
        if x == t {
            assert(st_b[st_b.len() - 1] == t);
        } else {
            assert(vis_a.contains(x)) by {
                let j = choose|j: int| 0 <= j < vis_b.len() && vis_b[j] == x;
                assert(vis_a[j] == x);
            };
            lemma_contains_grow_st(st_a, st_b, x);
        }
    };
}

proof fn lemma_contains_grow_st(a: Seq<NodeID>, b: Seq<NodeID>, x: NodeID)
    requires
        a.contains(x),
        b == a.push(x) || (a.len() <= b.len() && forall|j: int|
            0 <= j < a.len() ==> b[j] == a[j]),
    ensures
        b.contains(x),
{
    let j = choose|j: int| 0 <= j < a.len() && a[j] == x;
    assert(b[j] == x);
}

/// Collect the undirected component of `start`: walk edges in both
/// directions from `start`, marking the shared visited list, and return the
/// newly visited nodes. The visited list stays duplicate-free and saturated.
fn collect_component<G: GraphInterface>(g: &G, start: NodeID, visited: &mut Vec<NodeID>) -> (comp:
    Vec<NodeID>)
    requires
        g.inv(),
        old(visited)@.no_duplicates(),
        forall|j: int|
            0 <= j < old(visited)@.len() ==> g.nodes_map().dom().contains(
                #[trigger] old(visited)@[j],
            ),
        saturated(g, old(visited)@),
        g.nodes_map().dom().contains(start),
        !old(visited)@.contains(start),
    ensures
        final(visited)@ == old(visited)@ + comp@,
        final(visited)@.no_duplicates(),
        forall|j: int|
            0 <= j < final(visited)@.len() ==> g.nodes_map().dom().contains(
                #[trigger] final(visited)@[j],
            ),
        saturated(g, final(visited)@),
        comp@.contains(start),
        comp@.len() >= 1,
        comp@[0] == start,
        comp@.no_duplicates(),
        forall|j: int| 0 <= j < comp@.len() ==> g.nodes_map().dom().contains(#[trigger] comp@[j]),
        forall|j: int| 0 <= j < comp@.len() ==> u_reachable(g, start, #[trigger] comp@[j]),
{
    let mut comp: Vec<NodeID> = Vec::new();
    let mut stack: Vec<NodeID> = Vec::new();
    let ghost vis0 = visited@;
    visited.push(start);
    comp.push(start);
    stack.push(start);
    proof {
        assert(visited@ =~= vis0 + comp@);
        assert(comp@[0] == start);
        assert(stack@[0] == start);
        assert(visited@[vis0.len() as int] == start);
        g.lemma_inv();
        lemma_ureach_self(g, start);
        assert forall|v: NodeID, t: NodeID|
            visited@.contains(v) && #[trigger] usucc(g, v, t) && g.nodes_map().dom().contains(
                t,
            ) implies visited@.contains(t) || stack@.contains(v) by {
            if v == start {
                assert(stack@[0] == start);
            } else {
                assert(vis0.contains(v)) by {
                    let j = choose|j: int| 0 <= j < visited@.len() && visited@[j] == v;
                    assert(j < vis0.len());
                    assert(vis0[j] == v);
                };
                assert(vis0.contains(t));
                lemma_contains_grow(vis0, visited@, t);
            }
        };
        assert forall|j: int| 0 <= j < visited@.len() implies g.nodes_map().dom().contains(
            #[trigger] visited@[j],
        ) by {
            if j < vis0.len() {
                assert(visited@[j] == vis0[j]);
            } else {
                assert(visited@[j] == start);
            }
        };
    }
    while stack.len() > 0
        invariant
            g.inv(),
            vis0 == old(visited)@,
            visited@ == vis0 + comp@,
            visited@.no_duplicates(),
            comp@.len() >= 1,
            comp@[0] == start,
            forall|j: int|
                0 <= j < visited@.len() ==> g.nodes_map().dom().contains(#[trigger] visited@[j]),
            forall|j: int| 0 <= j < stack@.len() ==> visited@.contains(#[trigger] stack@[j]),
            forall|j: int| 0 <= j < stack@.len() ==> comp@.contains(#[trigger] stack@[j]),
            forall|j: int| 0 <= j < comp@.len() ==> u_reachable(g, start, #[trigger] comp@[j]),
            forall|v: NodeID, t: NodeID|
                visited@.contains(v) && #[trigger] usucc(g, v, t) && g.nodes_map().dom().contains(
                    t,
                ) ==> visited@.contains(t) || stack@.contains(v),
            saturated(g, vis0),
        decreases g.nodes_map().dom().difference(visited@.to_set()).len(), stack@.len(),
    {
        let ghost st_entry = stack@;
        let ghost vis_entry = visited@;
        let n = match stack.pop() {
            Some(n) => n,
            None => {
                proof {
                    assert(false);
                }
                start
            },
        };
        let ghost comp_entry = comp@;
        proof {
            assert(st_entry.last() == n);
            assert(st_entry[st_entry.len() - 1] == n);
            assert(vis_entry.contains(n));
            assert(comp@.contains(n)) by {
                assert(st_entry[st_entry.len() - 1] == n);
            };
            assert(u_reachable(g, start, n));
        }
        let node = match g.node(n) {
            Ok(nd) => nd,
            Err(e) => {
                proof {
                    let jn = choose|jn: int| 0 <= jn < vis_entry.len() && vis_entry[jn] == n;
                    assert(false);
                }
                return comp;
            },
        };
        let ghost conns = node.connections@;
        proof {
            assert forall|v: NodeID, t: NodeID|
                visited@.contains(v) && #[trigger] usucc(g, v, t) && g.nodes_map().dom().contains(
                    t,
                ) implies visited@.contains(t) || stack@.contains(v) || v == n by {
                if !visited@.contains(t) {
                    assert(st_entry.contains(v));
                    let j = choose|j: int| 0 <= j < st_entry.len() && st_entry[j] == v;
                    if j < st_entry.len() - 1 {
                        assert(stack@[j] == st_entry[j]);
                        assert(stack@.contains(v));
                    } else {
                        assert(v == n);
                    }
                }
            };
        }
        let mut i: usize = 0;
        while i < node.connections.len()
            invariant
                g.inv(),
                vis0 == old(visited)@,
                i <= conns.len(),
                conns == node.connections@,
                g.nodes_map().dom().contains(n),
                node == g.nodes_map()[n],
                visited@ == vis0 + comp@,
                visited@.no_duplicates(),
                comp@.len() >= 1,
                comp@[0] == start,
                vis_entry.len() <= visited@.len(),
                forall|j: int| 0 <= j < vis_entry.len() ==> #[trigger] visited@[j] == vis_entry[j],
                forall|j: int|
                    0 <= j < visited@.len() ==> g.nodes_map().dom().contains(
                        #[trigger] visited@[j],
                    ),
                forall|j: int| 0 <= j < stack@.len() ==> visited@.contains(#[trigger] stack@[j]),
                forall|j: int| 0 <= j < stack@.len() ==> comp@.contains(#[trigger] stack@[j]),
                forall|j: int| 0 <= j < comp@.len() ==> u_reachable(g, start, #[trigger] comp@[j]),
                u_reachable(g, start, n),
                forall|v: NodeID, t: NodeID|
                    visited@.contains(v) && #[trigger] usucc(g, v, t)
                        && g.nodes_map().dom().contains(t) ==> visited@.contains(t)
                        || stack@.contains(v) || v == n,
                forall|x: NodeID|
                    #[trigger] visited@.contains(x) && !vis_entry.contains(x) ==> stack@.contains(
                        x,
                    ),
                forall|j: int| 0 <= j < st_entry.len() - 1 ==> #[trigger] stack@[j] == st_entry[j],
                st_entry.len() - 1 <= stack@.len(),
                stack@.len() == st_entry.len() - 1 + (visited@.len() - vis_entry.len()),
                forall|jj: int|
                    0 <= jj < i ==> {
                        let e = g.edges_map()[#[trigger] conns[jj]];
                        &&& (g.nodes_map().dom().contains(e.from) ==> visited@.contains(e.from))
                        &&& (g.nodes_map().dom().contains(e.to) ==> visited@.contains(e.to))
                    },
            decreases conns.len() - i,
        {
            let eid = node.connections[i];
            proof {
                g.lemma_inv();
                assert(g.edges_map().dom().contains(conns[i as int]));
            }
            let (efrom, eto) = match g.edge(eid) {
                Ok(e) => (e.from, e.to),
                Err(e2) => {
                    proof {
                        assert(false);
                    }
                    (n, n)
                },
            };
            let ghost vis_a = visited@;
            let ghost st_a = stack@;
            let ghost comp_a = comp@;
            let p1 = visit_endpoint(g, efrom, visited, &mut comp, &mut stack);
            proof {
                if p1 {
                    lemma_push_step(
                        g,
                        vis_a,
                        visited@,
                        st_a,
                        stack@,
                        efrom,
                        vis_entry,
                        st_entry,
                        n,
                    );
                    assert(visited@ =~= vis0 + comp@);
                    assert(usucc(g, n, efrom)) by {
                        assert(g.edges_map()[g.nodes_map()[n].connections@[i as int]].from == efrom
                            || g.edges_map()[g.nodes_map()[n].connections@[i as int]].to == efrom);
                    };
                    lemma_ureach_step(g, start, n, efrom);
                    lemma_comp_push(g, start, comp_a, comp@, st_a, stack@, efrom);
                }
            }
            let ghost vis_b = visited@;
            let ghost st_b = stack@;
            let ghost comp_b = comp@;
            let p2 = visit_endpoint(g, eto, visited, &mut comp, &mut stack);
            proof {
                if p2 {
                    lemma_push_step(g, vis_b, visited@, st_b, stack@, eto, vis_entry, st_entry, n);
                    assert(visited@ =~= vis0 + comp@);
                    assert(usucc(g, n, eto)) by {
                        assert(g.edges_map()[g.nodes_map()[n].connections@[i as int]].from == eto
                            || g.edges_map()[g.nodes_map()[n].connections@[i as int]].to == eto);
                    };
                    lemma_ureach_step(g, start, n, eto);
                    lemma_comp_push(g, start, comp_b, comp@, st_b, stack@, eto);
                }
                assert forall|jj: int| 0 <= jj < i + 1 implies {
                    let e = g.edges_map()[#[trigger] conns[jj]];
                    &&& (g.nodes_map().dom().contains(e.from) ==> visited@.contains(e.from))
                    &&& (g.nodes_map().dom().contains(e.to) ==> visited@.contains(e.to))
                } by {
                    let e = g.edges_map()[conns[jj]];
                    if jj < i {
                        if g.nodes_map().dom().contains(e.from) {
                            assert(vis_a.contains(e.from));
                            lemma_contains_grow(vis_a, vis_b, e.from);
                            lemma_contains_grow(vis_b, visited@, e.from);
                        }
                        if g.nodes_map().dom().contains(e.to) {
                            assert(vis_a.contains(e.to));
                            lemma_contains_grow(vis_a, vis_b, e.to);
                            lemma_contains_grow(vis_b, visited@, e.to);
                        }
                    } else {
                        assert(e.from == efrom && e.to == eto);
                        if g.nodes_map().dom().contains(e.from) {
                            if !vis_a.contains(e.from) {
                                assert(vis_b == vis_a.push(e.from));
                                assert(vis_b[vis_b.len() - 1] == e.from);
                                assert(vis_b.contains(e.from));
                            } else {
                                lemma_contains_grow(vis_a, vis_b, e.from);
                            }
                            lemma_contains_grow(vis_b, visited@, e.from);
                        }
                        if g.nodes_map().dom().contains(e.to) {
                            if !vis_b.contains(e.to) {
                                assert(visited@ == vis_b.push(e.to));
                                assert(visited@[visited@.len() - 1] == e.to);
                                assert(visited@.contains(e.to));
                            } else {
                                lemma_contains_grow(vis_b, visited@, e.to);
                            }
                        }
                    }
                };
            }
            i = i + 1;
        }
        proof {
            // restore the outer invariant: the popped node is now fully
            // expanded, everything else is accounted for.
            assert forall|v: NodeID, t: NodeID|
                visited@.contains(v) && #[trigger] usucc(g, v, t) && g.nodes_map().dom().contains(
                    t,
                ) implies visited@.contains(t) || stack@.contains(v) by {
                if !visited@.contains(t) {
                    if v == n {
                        let j = choose|j: int|
                            0 <= j < g.nodes_map()[n].connections@.len() && {
                                let e = g.edges_map()[#[trigger] g.nodes_map()[
                                n].connections@[j]];
                                e.from == t || e.to == t
                            };
                        assert(false);
                    } else if vis_entry.contains(v) {
                        if vis_entry.contains(t) {
                            lemma_contains_grow(vis_entry, visited@, t);
                            assert(false);
                        } else {
                            assert(st_entry.contains(v));
                            let j = choose|j: int|
                                0 <= j < st_entry.len() && st_entry[j] == v;
                            if j < st_entry.len() - 1 {
                                assert(stack@[j] == st_entry[j]);
                                assert(stack@.contains(v));
                            } else {
                                assert(v == n);
                            }
                        }
                    } else {
                        assert(stack@.contains(v));
                    }
                }
            };
            // termination: either the stack shrank and nothing was visited,
            // or at least one fresh live node was visited.
            g.lemma_inv();
            if visited@.len() == vis_entry.len() {
                assert(visited@ =~= vis_entry);
                assert(visited@.to_set() =~= vis_entry.to_set());
            } else {
                let t = visited@[vis_entry.len() as int];
                assert(g.nodes_map().dom().contains(t));
                assert(!vis_entry.contains(t)) by {
                    if vis_entry.contains(t) {
                        let j = choose|j: int| 0 <= j < vis_entry.len() && vis_entry[j] == t;
                        assert(visited@[j] == t);
                    }
                };
                let d_entry = g.nodes_map().dom().difference(vis_entry.to_set());
                let d_now = g.nodes_map().dom().difference(visited@.to_set());
                assert(d_entry.finite()) by {
                    vstd::set_lib::lemma_len_subset(d_entry, g.nodes_map().dom());
                };
                assert(visited@.to_set().contains(t)) by {
                    assert(visited@[vis_entry.len() as int] == t);
                };
                assert(d_now.subset_of(d_entry.remove(t))) by {
                    assert forall|x: NodeID| d_now.contains(x) implies d_entry.remove(t).contains(
                        x,
                    ) by {
                        if vis_entry.to_set().contains(x) {
                            lemma_contains_grow(vis_entry, visited@, x);
                        }
                    };
                };
                assert(d_entry.contains(t));
                vstd::set_lib::lemma_len_subset(d_now, d_entry.remove(t));
            }
        }
    }
    proof {
        assert forall|j1: int, j2: int| 0 <= j1 < j2 < comp@.len() implies comp@[j1]
            != comp@[j2] by {
            assert(visited@[vis0.len() + j1] == comp@[j1]);
            assert(visited@[vis0.len() + j2] == comp@[j2]);
        };
        assert forall|j: int| 0 <= j < comp@.len() implies g.nodes_map().dom().contains(
            #[trigger] comp@[j],
        ) by {
            assert(visited@[vis0.len() + j] == comp@[j]);
        };
        assert(comp@.contains(start)) by {
            assert(comp@[0] == start);
        };
    }
    comp
}

/// `b` appears in the appended part of a duplicate-free concatenation, so not
/// in the prefix.
proof fn lemma_append_fresh(a: Seq<NodeID>, b: Seq<NodeID>, whole: Seq<NodeID>, x: NodeID)
    requires
        whole == a + b,
        whole.no_duplicates(),
        b.contains(x),
    ensures
        !a.contains(x),
{
    let j = choose|j: int| 0 <= j < b.len() && b[j] == x;
    assert(whole[a.len() + j] == x);
    if a.contains(x) {
        let j2 = choose|j2: int| 0 <= j2 < a.len() && a[j2] == x;
        assert(whole[j2] == x);
    }
}

/// Split the connected components of the graph: every node lands in exactly
/// one component; on a fully consistent graph each component is closed under
/// edges read in either direction — the undirected interpretation, even
/// though the traversal order elsewhere is directed.
pub fn connected_components_of<G: GraphInterface>(g: &G) -> (r: Vec<Vec<NodeID>>)
    requires
        g.inv(),
    ensures
        forall|i: int|
            0 <= i < r@.len() ==> (#[trigger] r@[i])@.len() >= 1 && r@[i]@.no_duplicates(),
        forall|i: int, j: int|
            0 <= i < r@.len() && 0 <= j < r@[i]@.len() ==> g.nodes_map().dom().contains(
                #[trigger] r@[i]@[j],
            ),
        forall|x: NodeID|
            #[trigger] g.nodes_map().dom().contains(x) ==> exists|i: int|
                0 <= i < r@.len() && #[trigger] r@[i]@.contains(x),
        forall|i1: int, i2: int, x: NodeID|
            0 <= i1 < i2 < r@.len() && #[trigger] r@[i1]@.contains(x) ==> !(#[trigger] r@[
            i2]@.contains(x)),
        g.consistent() ==> forall|i: int, v: NodeID, t: NodeID|
            0 <= i < r@.len() && #[trigger] r@[i]@.contains(v) && #[trigger] usucc(g, v, t)
                && g.nodes_map().dom().contains(t) ==> r@[i]@.contains(t),
        forall|i: int, j: int|
            0 <= i < r@.len() && 0 <= j < r@[i]@.len() ==> u_reachable(
                g,
                r@[i]@[0],
                #[trigger] r@[i]@[j],
            ),
        g.nodes_map().dom().len() == 0 ==> r@.len() == 0,
{
    let ids = g.nodes();
    let mut visited: Vec<NodeID> = Vec::new();
    let mut comps: Vec<Vec<NodeID>> = Vec::new();
    let mut k: usize = 0;
    proof {
        g.lemma_inv();
    }
    while k < ids.len()
        invariant
            g.inv(),
            k <= ids@.len(),
            forall|j: int|
                0 <= j < ids@.len() ==> g.nodes_map().dom().contains(#[trigger] ids@[j]),
            forall|x: NodeID|
                #[trigger] g.nodes_map().dom().contains(x) ==> ids@.contains(x),
            visited@.no_duplicates(),
            forall|j: int|
                0 <= j < visited@.len() ==> g.nodes_map().dom().contains(#[trigger] visited@[j]),
            saturated(g, visited@),
            forall|x: NodeID|
                #[trigger] visited@.contains(x) <==> exists|i: int|
                    0 <= i < comps@.len() && #[trigger] comps@[i]@.contains(x),
            forall|i: int|
                0 <= i < comps@.len() ==> (#[trigger] comps@[i])@.len() >= 1
                    && comps@[i]@.no_duplicates(),
            forall|i: int, j: int|
                0 <= i < comps@.len() && 0 <= j < comps@[i]@.len() ==> g.nodes_map().dom().contains(
                    #[trigger] comps@[i]@[j],
                ),
            forall|i1: int, i2: int, x: NodeID|
                0 <= i1 < i2 < comps@.len() && #[trigger] comps@[i1]@.contains(x) ==> !(
                #[trigger] comps@[i2]@.contains(x)),
            g.consistent() ==> forall|i: int, v: NodeID, t: NodeID|
                0 <= i < comps@.len() && #[trigger] comps@[i]@.contains(v) && #[trigger] usucc(
                    g,
                    v,
                    t,
                ) && g.nodes_map().dom().contains(t) ==> comps@[i]@.contains(t),
            forall|i: int, j: int|
                0 <= i < comps@.len() && 0 <= j < comps@[i]@.len() ==> u_reachable(
                    g,
                    comps@[i]@[0],
                    #[trigger] comps@[i]@[j],
                ),
            forall|j: int| 0 <= j < k ==> visited@.contains(#[trigger] ids@[j]),
        decreases ids@.len() - k,
    {
        let id = ids[k];
        let ghost pre_vis = visited@;
        if !contains_id(&visited, id) {
            let ghost vis_before = visited@;
            let ghost comps_before = comps@;
            let comp = collect_component(g, id, &mut visited);
            comps.push(comp);
            proof {
                let c = comp@;
                let nc = comps@.len() - 1;
                assert(comps@[nc] == comp);
                assert(visited@ == vis_before + c);
                // membership bookkeeping
                assert forall|x: NodeID| #[trigger] visited@.contains(x) implies exists|i: int|
                    0 <= i < comps@.len() && #[trigger] comps@[i]@.contains(x) by {
                    let j = choose|j: int| 0 <= j < visited@.len() && visited@[j] == x;
                    if j < vis_before.len() {
                        assert(vis_before[j] == x);
                        assert(vis_before.contains(x));
                        let i = choose|i: int|
                            0 <= i < comps_before.len() && #[trigger] comps_before[i]@.contains(x);
                        assert(comps@[i]@.contains(x));
                    } else {
                        assert(c[j - vis_before.len()] == x);
                        assert(comps@[nc]@.contains(x));
                    }
                };
                assert forall|x: NodeID|
                    (exists|i: int| 0 <= i < comps@.len() && #[trigger] comps@[i]@.contains(x))
                        implies #[trigger] visited@.contains(x) by {
                    let i = choose|i: int|
                        0 <= i < comps@.len() && #[trigger] comps@[i]@.contains(x);
                    if i < comps_before.len() {
                        assert(comps_before[i]@.contains(x));
                        assert(vis_before.contains(x));
                        lemma_contains_grow(vis_before, visited@, x);
                    } else {
                        assert(c.contains(x));
                        let j = choose|j: int| 0 <= j < c.len() && c[j] == x;
                        assert(visited@[vis_before.len() + j] == x);
                    }
                };
                assert forall|i: int, j: int|
                    0 <= i < comps@.len() && 0 <= j < comps@[i]@.len() implies u_reachable(
                    g,
                    comps@[i]@[0],
                    #[trigger] comps@[i]@[j],
                ) by {
                    if i < comps_before.len() {
                        assert(comps@[i] == comps_before[i]);
                    } else {
                        assert(comps@[i] == comp);
                        assert(c[0] == id);
                        assert(u_reachable(g, id, c[j]));
                    }
                };
                // disjointness: the new component is fresh
                assert forall|i1: int, i2: int, x: NodeID|
                    0 <= i1 < i2 < comps@.len() && #[trigger] comps@[i1]@.contains(x) implies !(
                #[trigger] comps@[i2]@.contains(x)) by {
                    if i2 == nc {
                        if comps@[i2]@.contains(x) {
                            lemma_append_fresh(vis_before, c, visited@, x);
                            assert(comps_before[i1]@.contains(x));
                            assert(vis_before.contains(x));
                        }
                    } else {
                        assert(comps_before[i1]@.contains(x));
                    }
                };
                // closure of the new component under undirected adjacency
                if g.consistent() {
                    assert forall|i: int, v: NodeID, t: NodeID|
                        0 <= i < comps@.len() && #[trigger] comps@[i]@.contains(v)
                            && #[trigger] usucc(g, v, t) && g.nodes_map().dom().contains(
                            t,
                        ) implies comps@[i]@.contains(t) by {
                        if i < comps_before.len() {
                            assert(comps_before[i]@.contains(v));
                        } else {
                            assert(c.contains(v));
                            let jv = choose|jv: int| 0 <= jv < c.len() && c[jv] == v;
                            assert(visited@[vis_before.len() + jv] == v);
                            assert(visited@.contains(v));
                            assert(visited@.contains(t));
                            let jt = choose|jt: int|
                                0 <= jt < visited@.len() && visited@[jt] == t;
                            if jt < vis_before.len() {
                                assert(vis_before[jt] == t);
                                assert(vis_before.contains(t));
                                let it = choose|it: int|
                                    0 <= it < comps_before.len() && #[trigger] comps_before[
                                    it]@.contains(t);
                                assert(g.nodes_map().dom().contains(v)) by {
                                    assert(c[jv] == v);
                                };
                                lemma_usucc_sym(g, v, t);
                                assert(comps_before[it]@.contains(v));
                                assert(vis_before.contains(v));
                                lemma_append_fresh(vis_before, c, visited@, v);
                                assert(false);
                            } else {
                                assert(c[jt - vis_before.len()] == t);
                            }
                        }
                    };
                }
            }
        }
        proof {
            assert(visited@.contains(id)) by {
                if pre_vis.contains(id) {
                    lemma_contains_grow(pre_vis, visited@, id);
                } else {
                    let c = comps@[comps@.len() - 1]@;
                    assert(c.contains(id));
                    let j = choose|j: int| 0 <= j < c.len() && c[j] == id;
                    assert(visited@[pre_vis.len() + j] == id);
                }
            };
            assert forall|j: int| 0 <= j < k + 1 implies visited@.contains(
                #[trigger] ids@[j],
            ) by {
                if j < k {
                    assert(pre_vis.contains(ids@[j]));
                    lemma_contains_grow(pre_vis, visited@, ids@[j]);
                }
            };
        }
        k = k + 1;
    }
    proof {
        assert forall|x: NodeID| #[trigger] g.nodes_map().dom().contains(x) implies exists|i: int|
            0 <= i < comps@.len() && #[trigger] comps@[i]@.contains(x) by {
            assert(ids@.contains(x));
            let j = choose|j: int| 0 <= j < ids@.len() && ids@[j] == x;
            assert(visited@.contains(ids@[j]));
        };
        g.lemma_inv();
        if comps@.len() > 0 {
            assert(comps@[0]@.len() >= 1);
            let x = comps@[0]@[0];
            assert(comps@[0]@.contains(x)) by {
                assert(comps@[0]@[0] == x);
            };
            assert(g.nodes_map().dom().contains(x));
            if g.nodes_map().dom().len() == 0 {
                vstd::set_lib::lemma_set_empty_equivalency_len(g.nodes_map().dom());
                assert(false);
            }
        }
    }
    comps
}

/// Two nodes joined by an edge — in either declared direction — always land
/// in the same component, on a fully consistent graph.
pub proof fn lemma_components_edge_join<G: GraphInterface>(
    g: &G,
    comps: Seq<Vec<NodeID>>,
    i: int,
    eid: EdgeID,
)
    requires
        g.inv(),
        g.consistent(),
        forall|i2: int, v: NodeID, t: NodeID|
            0 <= i2 < comps.len() && #[trigger] comps[i2]@.contains(v) && #[trigger] usucc(g, v, t)
                && g.nodes_map().dom().contains(t) ==> comps[i2]@.contains(t),
        0 <= i < comps.len(),
        g.edges_map().dom().contains(eid),
        g.nodes_map().dom().contains(g.edges_map()[eid].from),
        g.nodes_map().dom().contains(g.edges_map()[eid].to),
        comps[i]@.contains(g.edges_map()[eid].from),
    ensures
        comps[i]@.contains(g.edges_map()[eid].to),
{
    g.lemma_inv();
    let e = g.edges_map()[eid];
    assert(crate::interface::consistent_on(g.nodes_map(), g.edges_map(), g.settled_set()));
    assert(g.nodes_map()[e.from].connections@.contains(eid));
    let j = choose|j: int|
        0 <= j < g.nodes_map()[e.from].connections@.len() && g.nodes_map()[e.from].connections@[j]
            == eid;
    assert(usucc(g, e.from, e.to)) by {
        assert(g.edges_map()[g.nodes_map()[e.from].connections@[j]].to == e.to);
    };
}

/// Traversal entry points, available on every graph implementation.
pub trait IterDepthFirst: GraphInterface {
    /// A depth-first cursor starting from the given node.
    fn iter_depth_first(&self, start: NodeID) -> (d: DepthFirstSearch)
        requires
            self.inv(),
        ensures
            d.inv_for(self),
            d.visited_ids() == Seq::<NodeID>::empty(),
            d.stack_ids() == seq![start],
            d.start_id() == start,
    ;

    /// The connected components of the graph, one duplicate-free group of
    /// nodes per component; see [`connected_components_of`].
    fn connected_components(&self) -> (r: Vec<Vec<NodeID>>)
        requires
            self.inv(),
        ensures
            forall|i: int|
                0 <= i < r@.len() ==> (#[trigger] r@[i])@.len() >= 1 && r@[i]@.no_duplicates(),
            forall|i: int, j: int|
                0 <= i < r@.len() && 0 <= j < r@[i]@.len() ==> self.nodes_map().dom().contains(
                    #[trigger] r@[i]@[j],
                ),
            forall|x: NodeID|
                #[trigger] self.nodes_map().dom().contains(x) ==> exists|i: int|
                    0 <= i < r@.len() && #[trigger] r@[i]@.contains(x),
            forall|i1: int, i2: int, x: NodeID|
                0 <= i1 < i2 < r@.len() && #[trigger] r@[i1]@.contains(x) ==> !(#[trigger] r@[
                i2]@.contains(x)),
            self.consistent() ==> forall|i: int, v: NodeID, t: NodeID|
                0 <= i < r@.len() && #[trigger] r@[i]@.contains(v) && #[trigger] usucc(self, v, t)
                    && self.nodes_map().dom().contains(t) ==> r@[i]@.contains(t),
            forall|i: int, j: int|
                0 <= i < r@.len() && 0 <= j < r@[i]@.len() ==> u_reachable(
                    self,
                    r@[i]@[0],
                    #[trigger] r@[i]@[j],
                ),
            self.nodes_map().dom().len() == 0 ==> r@.len() == 0,
    ;
}

impl<G: GraphInterface> IterDepthFirst for G {
    fn iter_depth_first(&self, start: NodeID) -> (d: DepthFirstSearch) {
        DepthFirstSearch::new(self, start)
    }

    fn connected_components(&self) -> (r: Vec<Vec<NodeID>>) {
        connected_components_of(self)
    }
}

} // verus!
