//! A graph with category nodes: ordinary nodes that stand for a named group,
//! with one edge from the category node to each member. A name registry maps
//! category names to category nodes.
//!
//! [`CategorizedGraph`] wraps a core [`Graph`] and adds the registry — a thin
//! grouping layer over the graph's own contract. [`Categorized`] is the trait
//! of category operations, so a custom container can offer the same surface.

use crate::edge::{Edge, EdgeID};
use crate::interface::{conns_after_adds, GraphInterface};
use crate::node::{Node, NodeID};
use crate::node::key_as_u64;
use crate::{Graph, GraphError};
use vstd::prelude::*;
use vstd::string::StringExecFns;

verus! {

/// The errors of the category layer.
#[derive(Clone, Debug)]
pub enum CategorizedGraphError {
    /// A category with this name already exists.
    CategoryAlreadyExists(String),
    /// No category with this name (or identifier) exists.
    CategoryNotFound(String),
}

/// Replacing one entry by another with the same name updates the registry
/// map at that name alone.
proof fn lemma_cats_replace(
    cats0: Seq<(String, NodeID)>,
    cats1: Seq<(String, NodeID)>,
    j: int,
    name: Seq<char>,
)
    requires
        0 <= j < cats0.len(),
        cats1 == cats0.update(j, cats1[j]),
        cats1[j].0@ == name,
        cats0[j].0@ == name,
        forall|j1: int, j2: int| 0 <= j1 < j2 < cats0.len() ==> cats0[j1].0@ != cats0[j2].0@,
    ensures
        forall|j1: int, j2: int| 0 <= j1 < j2 < cats1.len() ==> cats1[j1].0@ != cats1[j2].0@,
        cats_map_of(cats1) =~= cats_map_of(cats0).insert(name, cats1[j].1),
{
    assert forall|j1: int, j2: int| 0 <= j1 < j2 < cats1.len() implies cats1[j1].0@
        != cats1[j2].0@ by {
        assert(cats1[j1].0@ == cats0[j1].0@ && cats1[j2].0@ == cats0[j2].0@);
    };
    assert forall|n2: Seq<char>|
        cats_map_of(cats1).dom().contains(n2) <==> cats_map_of(cats0).insert(
            name,
            cats1[j].1,
        ).dom().contains(n2) by {
        lemma_cats_map(cats0, n2);
        lemma_cats_map(cats1, n2);
        if cats_map_of(cats1).dom().contains(n2) {
            let jj = choose|jj: int| 0 <= jj < cats1.len() && (#[trigger] cats1[jj]).0@ == n2;
            assert(cats0[jj].0@ == n2 || n2 == name);
        }
        if n2 != name && cats_map_of(cats0).dom().contains(n2) {
            let jj = choose|jj: int| 0 <= jj < cats0.len() && (#[trigger] cats0[jj]).0@ == n2;
            assert(cats1[jj].0@ == n2);
        }
    };
    assert forall|n2: Seq<char>| cats_map_of(cats1).dom().contains(n2) implies cats_map_of(cats1)[
    n2] == cats_map_of(cats0).insert(name, cats1[j].1)[n2] by {
        lemma_cats_map(cats0, n2);
        lemma_cats_map(cats1, n2);
        if n2 == name {
            assert(cats1[j].0@ == n2);
        } else {
            let jj = choose|jj: int| 0 <= jj < cats1.len() && (#[trigger] cats1[jj]).0@ == n2;
            assert(cats0[jj].0@ == n2);
            assert(cats_map_of(cats0)[n2] == cats0[jj].1);
            assert(cats_map_of(cats1)[n2] == cats1[jj].1);
        }
    };
}

/// The name registry as a map, built from the entry list back to front.
pub open spec fn cats_map_of(s: Seq<(String, NodeID)>) -> Map<Seq<char>, NodeID>
    decreases s.len(),
{
    if s.len() == 0 {
        Map::empty()
    } else {
        cats_map_of(s.drop_last()).insert(s.last().0@, s.last().1)
    }
}

/// Membership in the registry map is existence of an entry; with unique
/// names, the value is that entry's node.
proof fn lemma_cats_map(s: Seq<(String, NodeID)>, name: Seq<char>)
    ensures
        cats_map_of(s).dom().contains(name) <==> exists|j: int|
            0 <= j < s.len() && (#[trigger] s[j]).0@ == name,
        (forall|j1: int, j2: int| 0 <= j1 < j2 < s.len() ==> s[j1].0@ != s[j2].0@) ==> forall|
            j: int,
        |
            0 <= j < s.len() && (#[trigger] s[j]).0@ == name ==> cats_map_of(s)[name] == s[j].1,
    decreases s.len(),
{
    if s.len() > 0 {
        lemma_cats_map(s.drop_last(), name);
        assert forall|j: int| 0 <= j < s.len() && (#[trigger] s[j]).0@ == name implies
            cats_map_of(s).dom().contains(name) by {
            if j < s.len() - 1 {
                assert(s.drop_last()[j].0@ == name);
            }
        };
        if cats_map_of(s).dom().contains(name) {
            if s.last().0@ == name {
                assert(s[s.len() - 1].0@ == name);
            } else {
                let j = choose|j: int|
                    0 <= j < s.drop_last().len() && (#[trigger] s.drop_last()[j]).0@ == name;
                assert(s[j].0@ == name);
            }
        }
        if forall|j1: int, j2: int| 0 <= j1 < j2 < s.len() ==> s[j1].0@ != s[j2].0@ {
            assert(forall|j1: int, j2: int|
                0 <= j1 < j2 < s.drop_last().len() ==> s.drop_last()[j1].0@ != s.drop_last()[
                j2].0@);
            assert forall|j: int| 0 <= j < s.len() && (#[trigger] s[j]).0@ == name implies
                cats_map_of(s)[name] == s[j].1 by {
                if j == s.len() - 1 {
                } else {
                    assert(s[s.len() - 1].0@ != name);
                    assert(s.drop_last()[j].0@ == name);
                }
            };
        }
    }
}

/// The character for one decimal digit.
pub open spec fn digit_char(d: u64) -> char {
    if d == 0 {
        '0'
    } else if d == 1 {
        '1'
    } else if d == 2 {
        '2'
    } else if d == 3 {
        '3'
    } else if d == 4 {
        '4'
    } else if d == 5 {
        '5'
    } else if d == 6 {
        '6'
    } else if d == 7 {
        '7'
    } else if d == 8 {
        '8'
    } else {
        '9'
    }
}

/// The decimal digits of a number, most significant first.
pub open spec fn dec_digits(n: u64) -> Seq<char>
    decreases n,
{
    if n < 10 {
        seq![digit_char(n as u64)]
    } else {
        dec_digits(n / 10) + seq![digit_char(n % 10)]
    }
}

/// Append the decimal form of `n`.
fn push_decimal(s: &mut String, n: u64)
    ensures
        final(s)@ == old(s)@ + dec_digits(n),
    decreases n,
{
    if n >= 10 {
        push_decimal(s, n / 10);
    }
    let ghost before = s@;
    let d = n % 10;
    match d {
        0 => s.append("0"),
        1 => s.append("1"),
        2 => s.append("2"),
        3 => s.append("3"),
        4 => s.append("4"),
        5 => s.append("5"),
        6 => s.append("6"),
        7 => s.append("7"),
        8 => s.append("8"),
        _ => s.append("9"),
    }
    proof {
        reveal_strlit("0");
        reveal_strlit("1");
        reveal_strlit("2");
        reveal_strlit("3");
        reveal_strlit("4");
        reveal_strlit("5");
        reveal_strlit("6");
        reveal_strlit("7");
        reveal_strlit("8");
        reveal_strlit("9");
        assert(s@ =~= before + seq![digit_char(d)]);
        if n >= 10 {
            assert(s@ =~= old(s)@ + dec_digits(n));
        } else {
            assert(d == n);
            assert(s@ =~= old(s)@ + dec_digits(n));
        }
    }
}

/// The members of a category node: the target of each edge its adjacency
/// list records, in list order; an absent node has no members.
pub open spec fn members_of<G: GraphInterface>(g: G, id: NodeID) -> Seq<NodeID> {
    if g.nodes_map().dom().contains(id) {
        g.nodes_map()[id].connections@.map_values(
            (|e: EdgeID| g.edges_map()[e].to),
        )
    } else {
        Seq::<NodeID>::empty()
    }
}

/// Some live edge runs `from -> to`.
pub open spec fn has_edge_between<G: GraphInterface>(g: G, from: NodeID, to: NodeID) -> bool {
    exists|eid: EdgeID|
        #[trigger] g.edges_map().dom().contains(eid) && g.edges_map()[eid].from == from
            && g.edges_map()[eid].to == to
}

/// Category operations over a graph: named groups of nodes, each held by a
/// category node whose outgoing edges point at the members.
pub trait Categorized: GraphInterface {
    /// The name registry: category names to category nodes.
    spec fn categories_map(&self) -> Map<Seq<char>, NodeID>;

    /// The category node registered under this name, if any.
    fn category_id_by_name(&self, category_name: &str) -> (r: Option<NodeID>)
        requires
            self.inv(),
        ensures
            match r {
                Some(id) => self.categories_map().dom().contains(category_name@)
                    && self.categories_map()[category_name@] == id,
                None => !self.categories_map().dom().contains(category_name@),
            },
    ;

    /// Whether a category with this name exists.
    fn category_exists(&self, category_name: &str) -> (r: bool)
        requires
            self.inv(),
        ensures
            r == self.categories_map().dom().contains(category_name@),
    {
        self.category_id_by_name(category_name).is_some()
    }

    /// Register `category_id` under `category_name`, replacing any earlier
    /// registration of that name. The graph itself is untouched.
    fn insert_category_id_by_name(&mut self, category_name: &str, category_id: NodeID)
        requires
            old(self).inv(),
        ensures
            final(self).inv(),
            final(self).categories_map() == old(self).categories_map().insert(
                category_name@,
                category_id,
            ),
            final(self).nodes_map() == old(self).nodes_map(),
            final(self).edges_map() == old(self).edges_map(),
            forall|id: NodeID| old(self).node_settled(id) <==> final(self).node_settled(id),
            forall|id: EdgeID| old(self).edge_settled(id) <==> final(self).edge_settled(id),
            final(self).node_slots() == old(self).node_slots(),
            final(self).edge_slots() == old(self).edge_slots(),
            old(self).consistent() ==> final(self).consistent(),
    ;

    /// Connect every node of `nodes` to the category node `category_id`.
    /// Fails exactly when `category_id` is absent or stale.
    fn add_to_category_by_id(&mut self, category_id: NodeID, nodes: Vec<NodeID>) -> (r: Result<
        (),
        CategorizedGraphError,
    >) where Self::EdgeData: Default + Clone, Self::NodeData: Clone
        requires
            old(self).inv(),
            old(self).edge_slots() + nodes@.len() <= u32::MAX as int,
            forall|j: int| 0 <= j < nodes@.len() ==> old(self).node_settled(#[trigger] nodes@[j]),
        ensures
            final(self).inv(),
            r is Ok <==> old(self).nodes_map().dom().contains(category_id),
            final(self).categories_map() == old(self).categories_map(),
            forall|id: NodeID|
                #[trigger] old(self).node_settled(id) ==> final(self).node_settled(id),
            final(self).nodes_map().dom() =~= old(self).nodes_map().dom(),
            forall|m: NodeID|
                #[trigger] old(self).nodes_map().dom().contains(m) ==> final(self).nodes_map()[
                m].id == old(self).nodes_map()[m].id && final(self).nodes_map()[m].data == old(self).nodes_map()[m].data,
            final(self).node_slots() == old(self).node_slots(),
            final(self).edge_slots() <= old(self).edge_slots() + nodes@.len(),
            r is Ok ==> forall|j: int|
                0 <= j < nodes@.len() ==> has_edge_between(
                    *final(self),
                    category_id,
                    #[trigger] nodes@[j],
                ),
            r is Ok ==> exists|eids: Seq<EdgeID>|
                #[trigger] eids.len() == nodes@.len() && (forall|j: int|
                    0 <= j < eids.len() ==> final(self).edges_map().dom().contains(
                        #[trigger] eids[j],
                    ) && final(self).edges_map()[eids[j]].from == category_id && final(self).edges_map()[eids[j]].to == nodes@[j]) && (forall|m: NodeID|
                    #[trigger] old(self).nodes_map().dom().contains(m) ==> final(self).nodes_map()[
                    m].connections@ == conns_after_adds(
                        m,
                        old(self).nodes_map()[m].connections@,
                        (nodes@.map_values(|n2: NodeID| (category_id, n2))),
                        eids,
                    )),
            r is Err ==> *final(self) == *old(self),
            r is Err ==> r->Err_0 is CategoryNotFound && (r->Err_0)->CategoryNotFound_0@
                == dec_digits(key_as_u64(category_id.0)),
            old(self).consistent() ==> final(self).consistent(),
    ;

    /// Add `nodes` to the named category, creating the category — a node with
    /// default data — when the name is unknown. Returns the category node.
    fn add_to_category(&mut self, category_name: &str, nodes: Vec<NodeID>) -> (r: NodeID) where
        Self::EdgeData: Default + Clone,
        Self::NodeData: Default + Clone,

        requires
            old(self).inv(),
            old(self).node_slots() < u32::MAX as int,
            old(self).edge_slots() + nodes@.len() <= u32::MAX as int,
            forall|j: int| 0 <= j < nodes@.len() ==> old(self).node_settled(#[trigger] nodes@[j]),
            old(self).categories_map().dom().contains(category_name@) ==> old(self).nodes_map().dom().contains(old(self).categories_map()[category_name@]),
        ensures
            final(self).inv(),
            final(self).categories_map().dom().contains(category_name@),
            final(self).categories_map()[category_name@] == r,
            old(self).categories_map().dom().contains(category_name@) ==> r == old(self).categories_map()[category_name@],
            final(self).nodes_map().dom().contains(r),
            forall|m: NodeID|
                #[trigger] old(self).nodes_map().dom().contains(m) ==> final(self).nodes_map().dom().contains(m) && final(self).nodes_map()[m].id == old(self).nodes_map()[m].id && final(self).nodes_map()[m].data == old(self).nodes_map()[
                m].data,
            old(self).categories_map().dom().contains(category_name@) ==> final(self).nodes_map().dom() =~= old(self).nodes_map().dom(),
            !old(self).categories_map().dom().contains(category_name@) ==> (final(self).nodes_map().dom() =~= old(self).nodes_map().dom().insert(r) && !old(self).node_settled(r)),
            forall|j: int|
                0 <= j < nodes@.len() ==> has_edge_between(*final(self), r, #[trigger] nodes@[j]),
            exists|eids: Seq<EdgeID>|
                #[trigger] eids.len() == nodes@.len() && (forall|j: int|
                    0 <= j < eids.len() ==> final(self).edges_map().dom().contains(
                        #[trigger] eids[j],
                    ) && final(self).edges_map()[eids[j]].from == r && final(self).edges_map()[
                    eids[j]].to == nodes@[j]) && final(self).nodes_map()[r].connections@
                    == conns_after_adds(
                    r,
                    (if old(self).categories_map().dom().contains(category_name@) {
                        old(self).nodes_map()[r].connections@
                    } else {
                        Seq::<EdgeID>::empty()
                    }),
                    (nodes@.map_values(|n2: NodeID| (r, n2))),
                    eids,
                ),
            forall|id: NodeID|
                #[trigger] old(self).node_settled(id) ==> final(self).node_settled(id),
            old(self).consistent() ==> final(self).consistent(),
    ;

    /// Create a category named `category` holding `nodes`, with `data` on a
    /// fresh node. Fails exactly when the name is already registered.
    ///
    /// The returned node carries `data`; the node registered under the name —
    /// the one whose edges list the members — is a second, default-data node,
    /// since the creation delegates to [`Self::add_to_category`] before the
    /// name is registered. Look the category up by name for the member edges,
    /// and by the returned identifier for the payload.
    fn create_category(&mut self, category: &str, nodes: Vec<NodeID>, data: Self::NodeData) -> (r:
        Result<NodeID, CategorizedGraphError>) where
        Self::EdgeData: Default + Clone,
        Self::NodeData: Default + Clone,

        requires
            old(self).inv(),
            old(self).node_slots() + 2 <= u32::MAX as int,
            old(self).edge_slots() + nodes@.len() <= u32::MAX as int,
            forall|j: int| 0 <= j < nodes@.len() ==> old(self).node_settled(#[trigger] nodes@[j]),
        ensures
            final(self).inv(),
            r is Err <==> old(self).categories_map().dom().contains(category@),
            r is Err ==> *final(self) == *old(self),
            r is Ok ==> {
                &&& final(self).nodes_map().dom().contains(r->Ok_0)
                &&& final(self).nodes_map()[r->Ok_0].data == data
                &&& !old(self).node_settled(r->Ok_0)
                &&& final(self).categories_map().dom().contains(category@)
            },
            r is Ok ==> {
                let reg = final(self).categories_map()[category@];
                &&& final(self).nodes_map().dom().contains(reg)
                &&& final(self).nodes_map()[reg].connections@.len() == nodes@.len()
                &&& forall|k: int|
                    0 <= k < nodes@.len() ==> final(self).edges_map().dom().contains(
                        #[trigger] final(self).nodes_map()[reg].connections@[k],
                    ) && final(self).edges_map()[final(self).nodes_map()[reg].connections@[k]].from
                        == reg && final(self).edges_map()[final(self).nodes_map()[
                    reg].connections@[k]].to == nodes@[k]
            },
            old(self).consistent() ==> final(self).consistent(),
    ;

    /// Every category, as name and category node pairs.
    fn all_categories(&self) -> (r: Vec<(String, NodeID)>)
        requires
            self.inv(),
        ensures
            forall|j: int|
                0 <= j < r@.len() ==> self.categories_map().dom().contains(
                    (#[trigger] r@[j]).0@,
                ) && self.categories_map()[r@[j].0@] == r@[j].1,
            forall|name: Seq<char>|
                #[trigger] self.categories_map().dom().contains(name) ==> exists|j: int|
                    0 <= j < r@.len() && (#[trigger] r@[j]).0@ == name,
            forall|j1: int, j2: int| 0 <= j1 < j2 < r@.len() ==> r@[j1].0@ != r@[j2].0@,
    ;

    /// The category node registered under this name.
    fn category(&self, category: &str) -> (r: Option<&Node<Self::NodeData>>)
        requires
            self.inv(),
            self.categories_map().dom().contains(category@) ==> self.nodes_map().dom().contains(
                self.categories_map()[category@],
            ),
        ensures
            match r {
                Some(n) => self.categories_map().dom().contains(category@) && *n
                    == self.nodes_map()[self.categories_map()[category@]],
                None => !self.categories_map().dom().contains(category@),
            },
    ;

    /// Whether this identifier names a live node (any node can serve as a
    /// category).
    fn category_exists_by_id(&self, category: NodeID) -> (r: bool)
        ensures
            r == self.nodes_map().dom().contains(category),
    {
        match self.category_by_id(category) {
            Ok(n) => true,
            Err(e) => false,
        }
    }

    /// The node behind a category identifier.
    fn category_by_id(&self, category: NodeID) -> (r: Result<&Node<Self::NodeData>, GraphError>)
        ensures
            match r {
                Ok(n) => self.nodes_map().dom().contains(category) && *n == self.nodes_map()[
                category],
                Err(e) => !self.nodes_map().dom().contains(category) && e
                    == GraphError::NodeNotFound,
            },
    {
        self.node(category)
    }

    /// The members of a category, by identifier: the target of each edge
    /// recorded on the category node. An absent category has no members.
    fn nodes_by_category_id(&self, category: NodeID) -> (r: Vec<NodeID>)
        requires
            self.inv(),
        ensures
            r@ == members_of(*self, category),
    ;

    /// The members of the named category; an unknown name has no members.
    fn nodes_by_category(&self, category: &str) -> (r: Vec<NodeID>)
        requires
            self.inv(),
        ensures
            r@ == (if self.categories_map().dom().contains(category@) {
                members_of(*self, self.categories_map()[category@])
            } else {
                Seq::<NodeID>::empty()
            }),
    {
        match self.category_id_by_name(category) {
            Some(id) => self.nodes_by_category_id(id),
            None => Vec::new(),
        }
    }

    /// The members of several named categories, concatenated in input order.
    fn nodes_by_categories(&self, categories: Vec<&str>) -> (r: Vec<NodeID>)
        requires
            self.inv(),
        ensures
            r@ == categories@.flat_map(
                (|nm: &str|
                    if self.categories_map().dom().contains(nm@) {
                        members_of(*self, self.categories_map()[nm@])
                    } else {
                        Seq::<NodeID>::empty()
                    }),
            ),
    {
        let ghost f = (|nm: &str|
            if self.categories_map().dom().contains(nm@) {
                members_of(*self, self.categories_map()[nm@])
            } else {
                Seq::<NodeID>::empty()
            });
        let mut r: Vec<NodeID> = Vec::new();
        let mut i: usize = 0;
        proof {
            assert(categories@.take(0) =~= Seq::<&str>::empty());
            assert(categories@.take(0).flat_map(f) =~= Seq::<NodeID>::empty()) by {
                assert(categories@.take(0).map_values(f) =~= Seq::<Seq<NodeID>>::empty());
broadcast use vstd::seq_lib::group_seq_properties;
            };
        }
        while i < categories.len()
            invariant
                self.inv(),
                i <= categories@.len(),
                f == (|nm: &str|
                    if self.categories_map().dom().contains(nm@) {
                        members_of(*self, self.categories_map()[nm@])
                    } else {
                        Seq::<NodeID>::empty()
                    }),
                r@ == categories@.take(i as int).flat_map(f),
            decreases categories@.len() - i,
        {
            let mut part = self.nodes_by_category(categories[i]);
            proof {
                assert(part@ == f(categories@[i as int]));
                categories@.lemma_flat_map_take_append(f, i as int);
            }
            r.append(&mut part);
            i = i + 1;
        }
        proof {
            assert(categories@.take(categories@.len() as int) =~= categories@);
        }
        r
    }

    /// The members of several categories given by identifier, concatenated in
    /// input order.
    fn nodes_by_category_ids(&self, categories: Vec<NodeID>) -> (r: Vec<NodeID>)
        requires
            self.inv(),
        ensures
            r@ == categories@.flat_map((|id: NodeID| members_of(*self, id))),
    {
        let ghost f = (|id: NodeID| members_of(*self, id));
        let mut r: Vec<NodeID> = Vec::new();
        let mut i: usize = 0;
        proof {
            assert(categories@.take(0) =~= Seq::<NodeID>::empty());
            assert(categories@.take(0).flat_map(f) =~= Seq::<NodeID>::empty()) by {
                assert(categories@.take(0).map_values(f) =~= Seq::<Seq<NodeID>>::empty());
broadcast use vstd::seq_lib::group_seq_properties;
            };
        }
        while i < categories.len()
            invariant
                self.inv(),
                i <= categories@.len(),
                f == (|id: NodeID| members_of(*self, id)),
                r@ == categories@.take(i as int).flat_map(f),
            decreases categories@.len() - i,
        {
            let mut part = self.nodes_by_category_id(categories[i]);
            proof {
                assert(part@ == f(categories@[i as int]));
                categories@.lemma_flat_map_take_append(f, i as int);
            }
            r.append(&mut part);
            i = i + 1;
        }
        proof {
            assert(categories@.take(categories@.len() as int) =~= categories@);
        }
        r
    }
}

/// A [`Graph`] plus a name registry for category nodes.
#[derive(Debug)]
pub struct CategorizedGraph<N, E> {
    graph: Graph<N, E>,
    categories: Vec<(String, NodeID)>,
}

impl<N, E> CategorizedGraph<N, E> {
    /// A fresh, empty categorized graph.
    pub fn new() -> (g: CategorizedGraph<N, E>)
        ensures
            g.inv(),
            g.nodes_map() =~= Map::<NodeID, Node<N>>::empty(),
            g.edges_map() =~= Map::<EdgeID, Edge<E>>::empty(),
            g.categories_map() =~= Map::<Seq<char>, NodeID>::empty(),
            g.node_slots() == 0,
            g.edge_slots() == 0,
            forall|id: NodeID| !g.node_settled(id),
            forall|id: EdgeID| !g.edge_settled(id),
            g.consistent(),
    {
        let g = CategorizedGraph { graph: Graph::new(), categories: Vec::new() };
        proof {
            assert(g.categories_map() =~= Map::<Seq<char>, NodeID>::empty());
        }
        g
    }

    /// How many categories are registered.
    pub fn category_count(&self) -> (n: usize)
        requires
            self.inv(),
        ensures
            n == self.categories_map().dom().len(),
    {
        proof {
            self.lemma_cats_card();
        }
        self.categories.len()
    }

    /// How many edges the graph holds.
    pub fn edge_count(&self) -> (n: usize)
        requires
            self.inv(),
        ensures
            n == self.edges_map().dom().len(),
    {
        self.graph.edge_count()
    }

    spec fn cats_unique(self) -> bool {
        forall|j1: int, j2: int|
            0 <= j1 < j2 < self.categories@.len() ==> self.categories@[j1].0@
                != self.categories@[j2].0@
    }

    proof fn lemma_cats_card(&self)
        requires
            self.cats_unique(),
        ensures
            self.categories_map().dom().finite(),
            self.categories_map().dom().len() == self.categories@.len(),
        decreases self.categories@.len(),
    {
        lemma_cats_card_rec(self.categories@);
    }

    /// Find the index of a name in the registry.
    fn find_category(&self, category_name: &str) -> (r: Option<usize>)
        requires
            self.inv(),
        ensures
            match r {
                Some(j) => {
                    &&& 0 <= j < self.categories@.len()
                    &&& self.categories@[j as int].0@ == category_name@
                    &&& self.categories_map().dom().contains(category_name@)
                    &&& self.categories_map()[category_name@] == self.categories@[j as int].1
                },
                None => !self.categories_map().dom().contains(category_name@),
            },
    {
        let wanted = category_name.to_owned();
        let mut i: usize = 0;
        while i < self.categories.len()
            invariant
                self.inv(),
                wanted@ == category_name@,
                i <= self.categories@.len(),
                forall|j: int| 0 <= j < i ==> (#[trigger] self.categories@[j]).0@ != category_name@,
            decreases self.categories@.len() - i,
        {
            if self.categories[i].0 == wanted {
                proof {
                    lemma_cats_map(self.categories@, category_name@);
                }
                return Some(i);
            }
            i = i + 1;
        }
        proof {
            lemma_cats_map(self.categories@, category_name@);
        }
        None
    }
}

proof fn lemma_cats_card_rec(s: Seq<(String, NodeID)>)
    requires
        forall|j1: int, j2: int| 0 <= j1 < j2 < s.len() ==> s[j1].0@ != s[j2].0@,
    ensures
        cats_map_of(s).dom().finite(),
        cats_map_of(s).dom().len() == s.len(),
    decreases s.len(),
{
    if s.len() == 0 {
        assert(cats_map_of(s).dom() =~= Set::<Seq<char>>::empty());
    } else {
        let pre = s.drop_last();
        assert(forall|j1: int, j2: int| 0 <= j1 < j2 < pre.len() ==> pre[j1].0@ != pre[j2].0@);
        lemma_cats_card_rec(pre);
        lemma_cats_map(pre, s.last().0@);
        assert(!cats_map_of(pre).dom().contains(s.last().0@)) by {
            if cats_map_of(pre).dom().contains(s.last().0@) {
                let j = choose|j: int| 0 <= j < pre.len() && (#[trigger] pre[j]).0@ == s.last().0@;
                assert(s[j].0@ == s[s.len() - 1].0@);
            }
        };
    }
}

impl<N, E> GraphInterface for CategorizedGraph<N, E> {
    type NodeData = N;

    type EdgeData = E;

    closed spec fn inv(&self) -> bool {
        self.graph.inv() && self.cats_unique()
    }

    closed spec fn nodes_map(&self) -> Map<NodeID, Node<N>> {
        self.graph.nodes_map()
    }

    closed spec fn edges_map(&self) -> Map<EdgeID, Edge<E>> {
        self.graph.edges_map()
    }

    closed spec fn node_settled(&self, id: NodeID) -> bool {
        self.graph.node_settled(id)
    }

    closed spec fn edge_settled(&self, id: EdgeID) -> bool {
        self.graph.edge_settled(id)
    }

    closed spec fn node_slots(&self) -> int {
        self.graph.node_slots()
    }

    closed spec fn edge_slots(&self) -> int {
        self.graph.edge_slots()
    }

    open spec fn settled_set(&self) -> Set<NodeID> {
        Set::new(|id: NodeID| self.node_settled(id))
    }

    open spec fn consistent(&self) -> bool {
        crate::interface::consistent_on(self.nodes_map(), self.edges_map(), self.settled_set())
    }

    proof fn lemma_inv(&self) {
        self.graph.lemma_inv();
        assert(self.settled_set() =~= Set::new(|id: NodeID| self.node_settled(id)));
        lemma_consistent_lift(*self);
    }

    fn node_count(&self) -> (n: usize) {
        self.graph.node_count()
    }

    fn nodes(&self) -> (r: Vec<NodeID>) {
        self.graph.nodes()
    }

    fn node<'a>(&'a self, id: NodeID) -> (r: Result<&'a Node<N>, GraphError>) {
        self.graph.node(id)
    }

    fn node_mut<'a>(&'a mut self, id: NodeID) -> (r: Result<&'a mut Node<N>, GraphError>) {
        proof {
            lemma_consistent_lift(*self);
        }
        self.graph.node_mut(id)
    }

    fn edge<'a>(&'a self, id: EdgeID) -> (r: Result<&'a Edge<E>, GraphError>) {
        self.graph.edge(id)
    }

    fn edge_mut<'a>(&'a mut self, id: EdgeID) -> (r: Result<&'a mut Edge<E>, GraphError>) {
        proof {
            lemma_consistent_lift(*self);
        }
        self.graph.edge_mut(id)
    }

    fn add_node(&mut self, data: N) -> (id: NodeID) {
        proof {
            lemma_consistent_lift(*self);
        }
        let id = self.graph.add_node(data);
        proof {
            lemma_consistent_lift(*self);
        }
        id
    }

    fn add_edge(&mut self, from: NodeID, to: NodeID, data: E) -> (id: EdgeID) {
        proof {
            lemma_consistent_lift(*self);
        }
        let id = self.graph.add_edge(from, to, data);
        proof {
            lemma_consistent_lift(*self);
        }
        id
    }

    fn remove_node(&mut self, id: NodeID) -> (r: Result<(), GraphError>) {
        proof {
            lemma_consistent_lift(*self);
        }
        let r = self.graph.remove_node(id);
        proof {
            lemma_consistent_lift(*self);
        }
        r
    }

    fn remove_edge(&mut self, id: EdgeID) -> (r: Result<(), GraphError>) {
        proof {
            lemma_consistent_lift(*self);
        }
        let r = self.graph.remove_edge(id);
        proof {
            lemma_consistent_lift(*self);
        }
        r
    }
}

/// A categorized graph is consistent exactly when its core graph is: the two
/// views coincide.
proof fn lemma_consistent_lift<N, E>(g: CategorizedGraph<N, E>)
    ensures
        g.consistent() == g.graph.consistent(),
{
    assert(g.settled_set() =~= g.graph.settled_set());
    assert(g.consistent() == crate::interface::consistent_on(
        g.graph.nodes_map(),
        g.graph.edges_map(),
        g.graph.settled_set(),
    ));
}

impl<N, E> Categorized for CategorizedGraph<N, E> {
    closed spec fn categories_map(&self) -> Map<Seq<char>, NodeID> {
        cats_map_of(self.categories@)
    }

    fn category_id_by_name(&self, category_name: &str) -> (r: Option<NodeID>) {
        match self.find_category(category_name) {
            Some(j) => Some(self.categories[j].1),
            None => None,
        }
    }

    fn insert_category_id_by_name(&mut self, category_name: &str, category_id: NodeID) {
        let ghost cats0 = self.categories@;
        proof {
            lemma_consistent_lift(*self);
        }
        let owned = category_name.to_owned();
        match self.find_category(category_name) {
            Some(j) => {
                let entry = (owned, category_id);
                vstd::std_specs::core::index_set(&mut self.categories, j, entry);
                proof {
                    lemma_cats_replace(cats0, self.categories@, j as int, category_name@);
                    lemma_consistent_lift(*self);
                }
            },
            None => {
                self.categories.push((owned, category_id));
                proof {
                    assert(self.categories@.drop_last() =~= cats0);
                    lemma_cats_map(cats0, category_name@);
                    assert forall|j1: int, j2: int|
                        0 <= j1 < j2 < self.categories@.len() implies self.categories@[j1].0@
                        != self.categories@[j2].0@ by {
                        if j2 == self.categories@.len() - 1 {
                            assert(cats0[j1].0@ != category_name@);
                        } else {
                            assert(cats0[j1].0@ != cats0[j2].0@);
                        }
                    };
                    lemma_consistent_lift(*self);
                }
            },
        }
    }

    fn add_to_category_by_id(&mut self, category_id: NodeID, nodes: Vec<NodeID>) -> (r: Result<
        (),
        CategorizedGraphError,
    >) where E: Default + Clone, N: Clone {
        proof {
            lemma_consistent_lift(*self);
        }
        match self.graph.node(category_id) {
            Err(e) => {
                let mut msg = String::new();
                push_decimal(&mut msg, category_id.to_u64());
                return Err(CategorizedGraphError::CategoryNotFound(msg));
            },
            Ok(n) => {},
        }
        let mut pairs: Vec<(NodeID, NodeID)> = Vec::new();
        let mut i: usize = 0;
        while i < nodes.len()
            invariant
                i <= nodes@.len(),
                pairs@.len() == i,
                forall|j: int|
                    0 <= j < i ==> #[trigger] pairs@[j] == (category_id, nodes@[j]),
            decreases nodes@.len() - i,
        {
            pairs.push((category_id, nodes[i]));
            i = i + 1;
        }
        let ghost pre = *self;
        let eids = self.graph.add_edges(pairs.as_slice());
        proof {
            lemma_consistent_lift(pre);
            lemma_consistent_lift(*self);
            pre.lemma_inv();
            pre.graph.lemma_inv();
            assert forall|j: int| 0 <= j < nodes@.len() implies has_edge_between(
                *self,
                category_id,
                #[trigger] nodes@[j],
            ) by {
                assert(pairs@[j] == (category_id, nodes@[j]));
                assert(self.edges_map().dom().contains(eids@[j]) && self.edges_map()[eids@[j]].from
                    == pairs@[j].0 && self.edges_map()[eids@[j]].to == pairs@[j].1);
            };
            assert(pairs@ =~= nodes@.map_values(|n2: NodeID| (category_id, n2)));
            assert forall|j: int| 0 <= j < eids@.len() implies self.edges_map().dom().contains(
                #[trigger] eids@[j],
            ) && self.edges_map()[eids@[j]].from == category_id && self.edges_map()[eids@[j]].to
                == nodes@[j] by {
                assert(pairs@[j] == (category_id, nodes@[j]));
            };
            assert(eids@.len() == nodes@.len() && (forall|j: int|
                0 <= j < eids@.len() ==> self.edges_map().dom().contains(#[trigger] eids@[j])
                    && self.edges_map()[eids@[j]].from == category_id && self.edges_map()[
                eids@[j]].to == nodes@[j]) && (forall|m: NodeID|
                #[trigger] pre.nodes_map().dom().contains(m) ==> self.nodes_map()[m].connections@
                    == conns_after_adds(
                    m,
                    pre.nodes_map()[m].connections@,
                    (nodes@.map_values(|n2: NodeID| (category_id, n2))),
                    eids@,
                )));
        }
        Ok(())
    }

    fn add_to_category(&mut self, category_name: &str, nodes: Vec<NodeID>) -> (r: NodeID) where
        E: Default + Clone,
        N: Default + Clone,
    {
        let existing = self.category_id_by_name(category_name);
        match existing {
            Some(category_node) => {
                let ghost pre = *self;
                let res = self.add_to_category_by_id(category_node, nodes);
                proof {
                    let eids = choose|eids: Seq<EdgeID>|
                        #[trigger] eids.len() == nodes@.len() && (forall|j: int|
                            0 <= j < eids.len() ==> self.edges_map().dom().contains(
                                #[trigger] eids[j],
                            ) && self.edges_map()[eids[j]].from == category_node
                                && self.edges_map()[eids[j]].to == nodes@[j]) && (forall|
                            m: NodeID,
                        |
                            #[trigger] pre.nodes_map().dom().contains(m) ==> self.nodes_map()[
                            m].connections@ == conns_after_adds(
                                m,
                                pre.nodes_map()[m].connections@,
                                (nodes@.map_values(|n2: NodeID| (category_node, n2))),
                                eids,
                            ));
                    assert(eids.len() == nodes@.len() && (forall|j: int|
                        0 <= j < eids.len() ==> self.edges_map().dom().contains(#[trigger] eids[j])
                            && self.edges_map()[eids[j]].from == category_node
                            && self.edges_map()[eids[j]].to == nodes@[j])
                        && self.nodes_map()[category_node].connections@ == conns_after_adds(
                        category_node,
                        pre.nodes_map()[category_node].connections@,
                        (nodes@.map_values(|n2: NodeID| (category_node, n2))),
                        eids,
                    ));
                }
                category_node
            },
            None => {
                let d: N = Default::default();
                let ghost pre_add = *self;
                let category_node = self.graph.add_node(d);
                proof {
                    lemma_consistent_lift(pre_add);
                    lemma_consistent_lift(*self);
                }
                let ghost mid = *self;
                let res = self.add_to_category_by_id(category_node, nodes);
                proof {
                    assert(res is Ok);
                }
                let ghost mid2 = *self;
                self.insert_category_id_by_name(category_name, category_node);
                proof {
                    assert forall|id: NodeID| #[trigger] old(self).node_settled(id) implies
                        self.node_settled(id) by {
                        assert(pre_add.node_settled(id));
                        assert(mid.node_settled(id));
                        assert(mid2.node_settled(id));
                    };
                    assert(self.nodes_map().dom().contains(category_node)) by {
                        assert(mid.nodes_map().dom().contains(category_node));
                        assert(mid2.nodes_map().dom().contains(category_node));
                    };
                    assert forall|m: NodeID|
                        #[trigger] old(self).nodes_map().dom().contains(m) implies self.nodes_map(
                    ).dom().contains(m) && self.nodes_map()[m].id == old(self).nodes_map()[m].id
                        && self.nodes_map()[m].data == old(self).nodes_map()[m].data by {
                        assert(mid.nodes_map().dom().contains(m) && mid.nodes_map()[m].id == old(self).nodes_map()[m].id && mid.nodes_map()[m].data == old(self).nodes_map()[
                        m].data);
                        assert(mid2.nodes_map().dom().contains(m));
                    };
                    assert(self.nodes_map().dom() =~= old(self).nodes_map().dom().insert(
                        category_node,
                    ));
                    let eids = choose|eids: Seq<EdgeID>|
                        #[trigger] eids.len() == nodes@.len() && (forall|j: int|
                            0 <= j < eids.len() ==> mid2.edges_map().dom().contains(
                                #[trigger] eids[j],
                            ) && mid2.edges_map()[eids[j]].from == category_node
                                && mid2.edges_map()[eids[j]].to == nodes@[j]) && (forall|
                            m: NodeID,
                        |
                            #[trigger] mid.nodes_map().dom().contains(m) ==> mid2.nodes_map()[
                            m].connections@ == conns_after_adds(
                                m,
                                mid.nodes_map()[m].connections@,
                                (nodes@.map_values(|n2: NodeID| (category_node, n2))),
                                eids,
                            ));
                    assert(mid.nodes_map()[category_node].connections@ == Seq::<EdgeID>::empty());
                    assert(eids.len() == nodes@.len() && (forall|j: int|
                        0 <= j < eids.len() ==> self.edges_map().dom().contains(#[trigger] eids[j])
                            && self.edges_map()[eids[j]].from == category_node
                            && self.edges_map()[eids[j]].to == nodes@[j])
                        && self.nodes_map()[category_node].connections@ == conns_after_adds(
                        category_node,
                        Seq::<EdgeID>::empty(),
                        (nodes@.map_values(|n2: NodeID| (category_node, n2))),
                        eids,
                    ));
                    assert forall|j: int| 0 <= j < nodes@.len() implies has_edge_between(
                        *self,
                        category_node,
                        #[trigger] nodes@[j],
                    ) by {
                        assert(self.edges_map().dom().contains(eids[j]));
                    };
                }
                category_node
            },
        }
    }

    fn create_category(&mut self, category: &str, nodes: Vec<NodeID>, data: N) -> (r: Result<
        NodeID,
        CategorizedGraphError,
    >) where E: Default + Clone, N: Default + Clone {
        if self.category_exists(category) {
            return Err(CategorizedGraphError::CategoryAlreadyExists(category.to_owned()));
        }
        let ghost pre_add = *self;
        let category_node = self.graph.add_node(data);
        proof {
            lemma_consistent_lift(pre_add);
            lemma_consistent_lift(*self);
        }
        let ghost mid = *self;
        let other = self.add_to_category(category, nodes);
        proof {
            assert(self.nodes_map().dom().contains(category_node)) by {
                assert(mid.nodes_map().dom().contains(category_node));
            };
            assert(self.nodes_map()[category_node].data == data) by {
                assert(mid.nodes_map()[category_node].data == data);
            };
            let reg = self.categories_map()[category@];
            assert(reg == other);
            let pairs = (nodes@.map_values(|n2: NodeID| (other, n2)));
            let eids = choose|eids: Seq<EdgeID>|
                #[trigger] eids.len() == nodes@.len() && (forall|j: int|
                    0 <= j < eids.len() ==> self.edges_map().dom().contains(#[trigger] eids[j])
                        && self.edges_map()[eids[j]].from == other && self.edges_map()[eids[j]].to
                        == nodes@[j]) && self.nodes_map()[other].connections@ == conns_after_adds(
                    other,
                    (if mid.categories_map().dom().contains(category@) {
                        mid.nodes_map()[other].connections@
                    } else {
                        Seq::<EdgeID>::empty()
                    }),
                    pairs,
                    eids,
                );
            assert(!mid.categories_map().dom().contains(category@));
            assert(!mid.node_settled(other));
            assert forall|j: int| 0 <= j < pairs.len() implies (#[trigger] pairs[j]).0 == other
                && pairs[j].1 != other by {
                assert(old(self).node_settled(nodes@[j]));
                assert(mid.node_settled(nodes@[j]));
            };
            crate::interface::lemma_conns_after_adds_all_from(
                other,
                Seq::<EdgeID>::empty(),
                pairs,
                eids,
            );
            assert(self.nodes_map()[other].connections@ =~= eids);
        }
        Ok(category_node)
    }

    fn all_categories(&self) -> (r: Vec<(String, NodeID)>) {
        let mut r: Vec<(String, NodeID)> = Vec::new();
        let mut i: usize = 0;
        while i < self.categories.len()
            invariant
                self.inv(),
                i <= self.categories@.len(),
                r@.len() == i,
                forall|j: int|
                    0 <= j < i ==> #[trigger] r@[j].0@ == self.categories@[j].0@ && r@[j].1
                        == self.categories@[j].1,
            decreases self.categories@.len() - i,
        {
            let ghost prev_r = r@;
            let name = self.categories[i].0.clone();
            proof {
                assert(name@ == self.categories@[i as int].0@);
            }
            let id = self.categories[i].1;
            r.push((name, id));
            proof {
                assert forall|j: int| 0 <= j < i + 1 implies #[trigger] r@[j].0@
                    == self.categories@[j].0@ && r@[j].1 == self.categories@[j].1 by {
                    if j < i {
                        assert(r@[j] == prev_r[j]);
                    } else {
                        assert(r@[j] == (name, id));
                    }
                };
            }
            i = i + 1;
        }
        proof {
            assert forall|j: int| 0 <= j < r@.len() implies self.categories_map().dom().contains(
                (#[trigger] r@[j]).0@,
            ) && self.categories_map()[r@[j].0@] == r@[j].1 by {
                lemma_cats_map(self.categories@, r@[j].0@);
                assert(self.categories@[j].0@ == r@[j].0@);
            };
            assert forall|name: Seq<char>|
                #[trigger] self.categories_map().dom().contains(name) implies exists|j: int|
                0 <= j < r@.len() && (#[trigger] r@[j]).0@ == name by {
                lemma_cats_map(self.categories@, name);
                let j = choose|j: int|
                    0 <= j < self.categories@.len() && (#[trigger] self.categories@[j]).0@ == name;
                assert(r@[j].0@ == name);
            };
        }
        r
    }

    fn category(&self, category: &str) -> (r: Option<&Node<N>>) {
        match self.find_category(category) {
            Some(j) => {
                let id = self.categories[j].1;
                match self.node(id) {
                    Ok(n) => Some(n),
                    Err(e) => {
                        proof {
                            assert(false);
                        }
                        None
                    },
                }
            },
            None => None,
        }
    }

    fn nodes_by_category_id(&self, category: NodeID) -> (r: Vec<NodeID>) {
        let node = match self.node(category) {
            Ok(n) => n,
            Err(e) => {
                proof {
                    assert(members_of(*self, category) =~= Seq::<NodeID>::empty());
                }
                return Vec::new();
            },
        };
        proof {
            self.lemma_inv();
        }
        let mut r: Vec<NodeID> = Vec::new();
        let mut i: usize = 0;
        while i < node.connections.len()
            invariant
                self.inv(),
                self.nodes_map().dom().contains(category),
                node == self.nodes_map()[category],
                i <= node.connections@.len(),
                r@.len() == i,
                forall|j: int|
                    0 <= j < i ==> #[trigger] r@[j] == self.edges_map()[self.nodes_map()[
                    category].connections@[j]].to,
            decreases node.connections@.len() - i,
        {
            let eid = node.connections[i];
            proof {
                self.lemma_inv();
                assert(self.edges_map().dom().contains(node.connections@[i as int]));
            }
            match self.edge(eid) {
                Ok(e) => {
                    r.push(e.to);
                },
                Err(e) => {
                    proof {
                        assert(false);
                    }
                },
            }
            i = i + 1;
        }
        proof {
            assert(r@ =~= members_of(*self, category));
        }
        r
    }
}

} // verus!
