//! A doubly linked list over a [`SlotArena`]: better cache behaviour than a
//! pointer-chained list, and the arena's generation checks solve the ABA
//! problem for item handles.
//!
//! The verified view of the list is the sequence of its values, front to
//! back; every operation states how it transforms that sequence.

use crate::slot_arena::{SlotArena, SlotKey};
use vstd::prelude::*;

verus! {

/// A generation-checked handle to an item in a [`LinkedList`].
#[derive(Clone, Copy, PartialEq, Eq, Hash, PartialOrd, Ord, Debug, Structural)]
pub struct LinkedListIndex(pub SlotKey);

/// One cell of the list: its own handle, the value, and the neighbours.
#[derive(Debug)]
pub struct LinkedListItem<T> {
    pub index: LinkedListIndex,
    pub value: T,
    pub next_index: Option<LinkedListIndex>,
    pub prev_index: Option<LinkedListIndex>,
}

/// A doubly linked list with O(1) push, pop and insert at either end, and
/// forward and backward traversal from any handle.
pub struct LinkedList<T> {
    pub head: Option<LinkedListIndex>,
    pub tail: Option<LinkedListIndex>,
    items: SlotArena<LinkedListItem<T>>,
    order: Ghost<Seq<SlotKey>>,
}

impl<T> LinkedList<T> {
    /// The values of the list, front to back.
    pub closed spec fn values(self) -> Seq<T> {
        self.order@.map_values(|k: SlotKey| self.items.contents()[k].value)
    }

    /// Whether `i` is the handle of a live item of this list.
    pub closed spec fn contains_index(self, i: LinkedListIndex) -> bool {
        self.order@.contains(i.0)
    }

    /// The position of the item with handle `i`.
    pub closed spec fn pos_of(self, i: LinkedListIndex) -> int {
        self.order@.index_of(i.0)
    }

    /// The handle of the item at position `p`.
    pub closed spec fn index_at(self, p: int) -> LinkedListIndex {
        LinkedListIndex(self.order@[p])
    }

    /// How many slots the backing arena has ever allocated.
    pub closed spec fn slots(self) -> int {
        self.items.num_slots()
    }

    /// The handle of the first item, if any.
    pub closed spec fn spec_head(self) -> Option<LinkedListIndex> {
        self.head
    }

    /// The handle of the last item, if any.
    pub closed spec fn spec_tail(self) -> Option<LinkedListIndex> {
        self.tail
    }

    spec fn item_at(self, p: int) -> LinkedListItem<T> {
        self.items.contents()[self.order@[p]]
    }

    spec fn link_ok(self, p: int) -> bool {
        let it = self.item_at(p);
        &&& self.items.live(self.order@[p])
        &&& it.index == LinkedListIndex(self.order@[p])
        &&& it.next_index == (if p == self.order@.len() - 1 {
            Option::<LinkedListIndex>::None
        } else {
            Option::Some(self.index_at(p + 1))
        })
        &&& it.prev_index == (if p == 0 {
            Option::<LinkedListIndex>::None
        } else {
            Option::Some(self.index_at(p - 1))
        })
    }

    /// The list's structural invariant: the ghost order is duplicate-free,
    /// every position's cell is live with correct neighbour links, every live
    /// cell is somewhere in the order, and head and tail cap the ends.
    pub closed spec fn wf(self) -> bool {
        &&& self.items.wf()
        &&& self.order@.no_duplicates()
        &&& forall|p: int| 0 <= p < self.order@.len() ==> #[trigger] self.link_ok(p)
        &&& forall|k: SlotKey| #[trigger] self.items.live(k) ==> self.order@.contains(k)
        &&& self.head == (if self.order@.len() == 0 {
            Option::<LinkedListIndex>::None
        } else {
            Option::Some(self.index_at(0))
        })
        &&& self.tail == (if self.order@.len() == 0 {
            Option::<LinkedListIndex>::None
        } else {
            Option::Some(self.index_at(self.order@.len() - 1))
        })
    }

    /// A handle's position is within the list and holds that handle.
    pub proof fn lemma_pos(self, i: LinkedListIndex)
        requires
            self.wf(),
            self.contains_index(i),
        ensures
            0 <= self.pos_of(i) < self.values().len(),
            self.index_at(self.pos_of(i)) == i,
    {
        broadcast use vstd::seq_lib::group_seq_properties;
        let p = self.order@.index_of(i.0);
    }

    /// A position holding a handle is that handle's position.
    proof fn lemma_pos_unique(self, i: LinkedListIndex, p: int)
        requires
            self.order@.no_duplicates(),
            0 <= p < self.order@.len(),
            self.order@[p] == i.0,
        ensures
            self.contains_index(i),
            self.pos_of(i) == p,
    {
        broadcast use vstd::seq_lib::group_seq_properties;
        assert(self.order@.contains(i.0)) by {
            assert(self.order@[p] == i.0);
        };
        let q = self.order@.index_of(i.0);
        if q != p {
            assert(self.order@[q] == self.order@[p]);
        }
    }

    /// The ends are the first and last positions: `head` holds the handle at
    /// position zero and `tail` the one at the final position, or both are
    /// `None` on an empty list.
    pub proof fn lemma_ends(self)
        requires
            self.wf(),
        ensures
            self.spec_head() == (if self.values().len() == 0 {
                Option::<LinkedListIndex>::None
            } else {
                Option::Some(self.index_at(0))
            }),
            self.spec_tail() == (if self.values().len() == 0 {
                Option::<LinkedListIndex>::None
            } else {
                Option::Some(self.index_at(self.values().len() - 1))
            }),
    {
        self.lemma_len();
    }

    /// Create a new empty list.
    pub fn new() -> (l: LinkedList<T>)
        ensures
            l.wf(),
            l.values() == Seq::<T>::empty(),
            l.spec_head() is None,
            l.spec_tail() is None,
            l.slots() == 0,
    {
        let l = LinkedList {
            head: None,
            tail: None,
            items: SlotArena::new(),
            order: Ghost(Seq::empty()),
        };
        proof {
            assert(l.values() =~= Seq::<T>::empty());
            assert forall|k: SlotKey| !(#[trigger] l.items.live(k)) by {
                assert(!l.items.settled(k));
            };
        }
        l
    }

    /// Get the number of items in the list.
    pub fn len(&self) -> (n: usize)
        requires
            self.wf(),
        ensures
            n == self.values().len(),
    {
        proof {
            self.lemma_len();
        }
        self.items.len()
    }

    proof fn lemma_len(self)
        requires
            self.wf(),
        ensures
            self.items.contents().dom().len() == self.order@.len(),
            self.values().len() == self.order@.len(),
    {
        assert forall|k: SlotKey| self.order@.to_set().contains(k) implies
            self.items.contents().dom().contains(k) by {
            let p = choose|p: int| 0 <= p < self.order@.len() && self.order@[p] == k;
            assert(self.link_ok(p));
        };
        assert(self.items.contents().dom() =~= self.order@.to_set());
        self.order@.unique_seq_to_set();
    }

    /// Get an item of the list by handle; a stale or foreign handle yields
    /// nothing.
    pub fn get(&self, index: LinkedListIndex) -> (r: Option<&LinkedListItem<T>>)
        requires
            self.wf(),
        ensures
            match r {
                Some(it) => {
                    let p = self.pos_of(index);
                    &&& self.contains_index(index)
                    &&& 0 <= p < self.values().len()
                    &&& it.index == index
                    &&& it.value == self.values()[p]
                    &&& it.next_index == (if p == self.values().len() - 1 {
                        Option::<LinkedListIndex>::None
                    } else {
                        Option::Some(self.index_at(p + 1))
                    })
                    &&& it.prev_index == (if p == 0 {
                        Option::<LinkedListIndex>::None
                    } else {
                        Option::Some(self.index_at(p - 1))
                    })
                },
                None => !self.contains_index(index),
            },
    {
        let r = self.items.get(index.0);
        proof {
            match r {
                Some(it) => {
                    assert(self.order@.contains(index.0));
                    self.lemma_pos(index);
                    assert(self.link_ok(self.pos_of(index)));
                },
                None => {
                    if self.contains_index(index) {
                        self.lemma_pos(index);
                        assert(self.link_ok(self.pos_of(index)));
                    }
                },
            }
        }
        r
    }


    /// Get an item for in-place mutation. Mutating anything but `value`
    /// through the returned reference forfeits the list's invariant.
    pub fn get_mut(&mut self, index: LinkedListIndex) -> (r: Option<&mut LinkedListItem<T>>)
        requires
            old(self).wf(),
        ensures
            match r {
                Some(it) => {
                    let p = old(self).pos_of(index);
                    &&& old(self).contains_index(index)
                    &&& 0 <= p < old(self).values().len()
                    &&& it.index == index
                    &&& it.value == old(self).values()[p]
                    &&& final(self).spec_head() == old(self).spec_head()
                    &&& final(self).spec_tail() == old(self).spec_tail()
                    &&& (final(it).index == it.index && final(it).next_index == it.next_index
                        && final(it).prev_index == it.prev_index) ==> {
                        &&& final(self).wf()
                        &&& final(self).values() == old(self).values().update(
                            p,
                            final(it).value,
                        )
                        &&& forall|i2: LinkedListIndex|
                            final(self).contains_index(i2) <==> old(self).contains_index(i2)
                    }
                },
                None => {
                    &&& !old(self).contains_index(index)
                    &&& *final(self) == *old(self)
                },
            },
    {
        proof {
            broadcast use vstd::seq_lib::group_seq_properties;
            if self.contains_index(index) {
                self.lemma_pos(index);
                let p = self.pos_of(index);
                assert(self.link_ok(p));
                let ord = self.order@;
                let ki = index.0;
                let cell = self.items.contents()[ki];
                assert forall|l2: LinkedList<T>|
                    (l2.order@ == ord && l2.head == self.head && l2.tail == self.tail
                        && l2.items.wf() && (forall|k2: SlotKey|
                        l2.items.live(k2) <==> self.items.live(k2)) && (forall|k2: SlotKey|
                        self.items.live(k2) && k2 != ki ==> l2.items.contents()[k2]
                            == self.items.contents()[k2]) && l2.items.contents()[ki].index
                        == cell.index && l2.items.contents()[ki].next_index == cell.next_index
                        && l2.items.contents()[ki].prev_index == cell.prev_index) implies (l2.wf()
                    && l2.values() =~= self.values().update(p, l2.items.contents()[ki].value)) by {
                    assert forall|q: int| 0 <= q < ord.len() implies #[trigger] l2.link_ok(q) by {
                        assert(self.link_ok(q));
                        if ord[q] != ki {
                            assert(l2.items.contents()[ord[q]] == self.items.contents()[ord[q]]);
                        } else {
                            assert(q == p);
                        }
                    };
                    assert forall|k3: SlotKey| #[trigger] l2.items.live(k3) implies
                        l2.order@.contains(k3) by {
                        assert(self.items.live(k3));
                    };
                    assert forall|q: int| 0 <= q < ord.len() implies #[trigger] l2.values()[q]
                        == self.values().update(p, l2.items.contents()[ki].value)[q] by {
                        assert(self.link_ok(q));
                        if ord[q] != ki {
                            assert(l2.items.contents()[ord[q]] == self.items.contents()[ord[q]]);
                        } else {
                            assert(q == p);
                        }
                    };
                };
            }
        }
        match self.items.get_mut(index.0) {
            Some(it) => Some(it),
            None => None,
        }
    }

    /// Get the item after the one with the given handle, for in-place
    /// mutation of its value. Mutating anything but `value` through the
    /// returned reference forfeits the list's invariant.
    pub fn next_of_mut(&mut self, index: LinkedListIndex) -> (r: Option<&mut LinkedListItem<T>>)
        requires
            old(self).wf(),
        ensures
            match r {
                Some(it) => {
                    let p = old(self).pos_of(index);
                    &&& old(self).contains_index(index)
                    &&& 0 <= p < old(self).values().len() - 1
                    &&& it.index == old(self).index_at(p + 1)
                    &&& it.value == old(self).values()[p + 1]
                    &&& final(self).spec_head() == old(self).spec_head()
                    &&& final(self).spec_tail() == old(self).spec_tail()
                    &&& (final(it).index == it.index && final(it).next_index == it.next_index
                        && final(it).prev_index == it.prev_index) ==> {
                        &&& final(self).wf()
                        &&& final(self).values() == old(self).values().update(
                            p + 1,
                            final(it).value,
                        )
                        &&& forall|i2: LinkedListIndex|
                            final(self).contains_index(i2) <==> old(self).contains_index(i2)
                    }
                },
                None => {
                    &&& !old(self).contains_index(index) || old(self).pos_of(index) == old(self).values().len() - 1
                    &&& *final(self) == *old(self)
                },
            },
    {
        let nxt = match self.items.get(index.0) {
            Some(it) => it.next_index,
            None => {
                proof {
                    if self.contains_index(index) {
                        self.lemma_pos(index);
                        assert(self.link_ok(self.pos_of(index)));
                    }
                }
                None
            },
        };
        match nxt {
            None => {
                proof {
                    if self.contains_index(index) {
                        self.lemma_pos(index);
                        assert(self.link_ok(self.pos_of(index)));
                    }
                }
                None
            },
            Some(n) => {
                proof {
                    self.lemma_pos(index);
                    let p = self.pos_of(index);
                    assert(self.link_ok(p));
                    assert(self.link_ok(p + 1));
                    assert(self.order@[p + 1] == n.0);
                    self.lemma_pos_unique(n, p + 1);
                }
                self.get_mut(n)
            },
        }
    }

    /// Get the item before the one with the given handle, for in-place
    /// mutation of its value. Mutating anything but `value` through the
    /// returned reference forfeits the list's invariant.
    pub fn prev_of_mut(&mut self, index: LinkedListIndex) -> (r: Option<&mut LinkedListItem<T>>)
        requires
            old(self).wf(),
        ensures
            match r {
                Some(it) => {
                    let p = old(self).pos_of(index);
                    &&& old(self).contains_index(index)
                    &&& 0 < p < old(self).values().len()
                    &&& it.index == old(self).index_at(p - 1)
                    &&& it.value == old(self).values()[p - 1]
                    &&& final(self).spec_head() == old(self).spec_head()
                    &&& final(self).spec_tail() == old(self).spec_tail()
                    &&& (final(it).index == it.index && final(it).next_index == it.next_index
                        && final(it).prev_index == it.prev_index) ==> {
                        &&& final(self).wf()
                        &&& final(self).values() == old(self).values().update(
                            p - 1,
                            final(it).value,
                        )
                        &&& forall|i2: LinkedListIndex|
                            final(self).contains_index(i2) <==> old(self).contains_index(i2)
                    }
                },
                None => {
                    &&& !old(self).contains_index(index) || old(self).pos_of(index) == 0
                    &&& *final(self) == *old(self)
                },
            },
    {
        let prv = match self.items.get(index.0) {
            Some(it) => it.prev_index,
            None => {
                proof {
                    if self.contains_index(index) {
                        self.lemma_pos(index);
                        assert(self.link_ok(self.pos_of(index)));
                    }
                }
                None
            },
        };
        match prv {
            None => {
                proof {
                    if self.contains_index(index) {
                        self.lemma_pos(index);
                        assert(self.link_ok(self.pos_of(index)));
                    }
                }
                None
            },
            Some(pv) => {
                proof {
                    self.lemma_pos(index);
                    let p = self.pos_of(index);
                    assert(self.link_ok(p));
                    assert(self.link_ok(p - 1));
                    assert(self.order@[p - 1] == pv.0);
                    self.lemma_pos_unique(pv, p - 1);
                }
                self.get_mut(pv)
            },
        }
    }

    /// The item after the item with the given handle, if both exist.
    pub fn next_of(&self, index: LinkedListIndex) -> (r: Option<&LinkedListItem<T>>)
        requires
            self.wf(),
        ensures
            match r {
                Some(it) => {
                    let p = self.pos_of(index);
                    &&& self.contains_index(index)
                    &&& p + 1 < self.values().len()
                    &&& it.index == self.index_at(p + 1)
                    &&& it.value == self.values()[p + 1]
                },
                None => !self.contains_index(index) || self.pos_of(index) == self.values().len()
                    - 1,
            },
    {
        match self.get(index) {
            None => None,
            Some(it) => {
                match it.next_index {
                    None => None,
                    Some(n) => {
                        proof {
                            self.lemma_pos(index);
                            assert(self.link_ok(self.pos_of(index) + 1));
                        }
                        let r = self.items.get(n.0);
                        proof {
                            assert(r is Some);
                        }
                        r
                    },
                }
            },
        }
    }

    /// The item before the item with the given handle, if both exist.
    pub fn prev_of(&self, index: LinkedListIndex) -> (r: Option<&LinkedListItem<T>>)
        requires
            self.wf(),
        ensures
            match r {
                Some(it) => {
                    let p = self.pos_of(index);
                    &&& self.contains_index(index)
                    &&& 0 < p < self.values().len()
                    &&& it.index == self.index_at(p - 1)
                    &&& it.value == self.values()[p - 1]
                },
                None => !self.contains_index(index) || self.pos_of(index) == 0,
            },
    {
        match self.get(index) {
            None => None,
            Some(it) => {
                match it.prev_index {
                    None => None,
                    Some(pv) => {
                        proof {
                            self.lemma_pos(index);
                            assert(self.link_ok(self.pos_of(index) - 1));
                        }
                        let r = self.items.get(pv.0);
                        proof {
                            assert(r is Some);
                        }
                        r
                    },
                }
            },
        }
    }

    /// Point the cell `k` at a new successor; everything else stays.
    fn set_next_at(items: &mut SlotArena<LinkedListItem<T>>, k: SlotKey, v: Option<
        LinkedListIndex,
    >)
        requires
            old(items).wf(),
            old(items).live(k),
        ensures
            final(items).wf(),
            final(items).num_slots() == old(items).num_slots(),
            final(items).next_key() == old(items).next_key(),
            forall|k2: SlotKey| final(items).live(k2) <==> old(items).live(k2),
            forall|k2: SlotKey| final(items).dead(k2) <==> old(items).dead(k2),
            forall|k2: SlotKey|
                old(items).live(k2) && k2 != k ==> final(items).contents()[k2] == old(
                    items,
                ).contents()[k2],
            final(items).contents()[k].index == old(items).contents()[k].index,
            final(items).contents()[k].value == old(items).contents()[k].value,
            final(items).contents()[k].prev_index == old(items).contents()[k].prev_index,
            final(items).contents()[k].next_index == v,
    {
        match items.get_mut(k) {
            Some(it) => {
                it.next_index = v;
            },
            None => {},
        }
    }

    /// Point the cell `k` at a new predecessor; everything else stays.
    fn set_prev_at(items: &mut SlotArena<LinkedListItem<T>>, k: SlotKey, v: Option<
        LinkedListIndex,
    >)
        requires
            old(items).wf(),
            old(items).live(k),
        ensures
            final(items).wf(),
            final(items).num_slots() == old(items).num_slots(),
            final(items).next_key() == old(items).next_key(),
            forall|k2: SlotKey| final(items).live(k2) <==> old(items).live(k2),
            forall|k2: SlotKey| final(items).dead(k2) <==> old(items).dead(k2),
            forall|k2: SlotKey|
                old(items).live(k2) && k2 != k ==> final(items).contents()[k2] == old(
                    items,
                ).contents()[k2],
            final(items).contents()[k].index == old(items).contents()[k].index,
            final(items).contents()[k].value == old(items).contents()[k].value,
            final(items).contents()[k].next_index == old(items).contents()[k].next_index,
            final(items).contents()[k].prev_index == v,
    {
        match items.get_mut(k) {
            Some(it) => {
                it.prev_index = v;
            },
            None => {},
        }
    }

    /// Add an item to the back of the list; returns its fresh handle.
    pub fn push_back(&mut self, value: T) -> (idx: LinkedListIndex)
        requires
            old(self).wf(),
            old(self).slots() < u32::MAX as int,
        ensures
            final(self).wf(),
            final(self).values() == old(self).values().push(value),
            !old(self).contains_index(idx),
            final(self).contains_index(idx),
            final(self).pos_of(idx) == old(self).values().len(),
            forall|p: int|
                0 <= p < old(self).values().len() ==> final(self).index_at(p) == old(self).index_at(p),
            forall|i: LinkedListIndex|
                old(self).contains_index(i) ==> final(self).contains_index(i) && final(self).pos_of(i) == old(self).pos_of(i),
            final(self).spec_tail() == Some(idx),
            final(self).spec_head() == (if old(self).values().len() == 0 {
                Some(idx)
            } else {
                old(self).spec_head()
            }),
            old(self).slots() <= final(self).slots() <= old(self).slots() + 1,
    {
        let ghost order0 = self.order@;
        let k = self.items.peek_next_key();
        let idx = LinkedListIndex(k);
        let old_tail = self.tail;
        let item = LinkedListItem { index: idx, value, next_index: None, prev_index: old_tail };
        let k2 = self.items.insert(item);
        let ghost g_ins = self.items;
        match old_tail {
            Some(t) => {
                proof {
                    assert(old(self).link_ok(order0.len() - 1));
                    assert(g_ins.live(t.0));
                }
                Self::set_next_at(&mut self.items, t.0, Some(idx));
            },
            None => {
                self.head = Some(idx);
            },
        }
        self.tail = Some(idx);
        proof {
            self.order@ = order0.push(k);
            let a = old(self).items;
            let c = self.items;
            assert forall|k3: SlotKey| #[trigger] c.live(k3) implies g_ins.live(k3) && (a.live(k3)
                || k3 == k) by {
                assert(g_ins.contents().dom().contains(k3));
            };
            assert forall|k3: SlotKey| a.live(k3) implies #[trigger] c.live(k3) && order0.contains(
                k3,
            ) by {
                assert(g_ins.live(k3));
            };
            // the fresh cell and the kept cells
            assert(c.contents()[k] == item) by {
                assert(g_ins.contents()[k] == item);
                if old_tail is Some {
                    let t = old_tail->0;
                    assert(a.live(t.0));
                }
            };
            assert forall|k3: SlotKey| a.live(k3) implies #[trigger] c.contents()[k3].value
                == a.contents()[k3].value && c.contents()[k3].index == a.contents()[k3].index
                && c.contents()[k3].prev_index == a.contents()[k3].prev_index && (
            (old_tail is Some && k3 == (old_tail->0).0) || c.contents()[k3] == a.contents()[
            k3]) by {
                assert(g_ins.contents()[k3] == a.contents()[k3]);
            };
            assert forall|p: int| 0 <= p < self.order@.len() implies #[trigger] self.link_ok(
                p,
            ) by {
                if p < order0.len() {
                    assert(old(self).link_ok(p));
                    assert(self.order@[p] == order0[p]);
                    if p < order0.len() - 1 {
                        assert(order0[p] != order0[order0.len() - 1]);
                        assert(c.contents()[order0[p]] == a.contents()[order0[p]]);
                    }
                } else {
                    assert(self.order@[p] == k);
                }
            };
            assert forall|k3: SlotKey| #[trigger] self.items.live(k3) implies self.order@.contains(
                k3,
            ) by {
                if k3 == k {
                    assert(self.order@[self.order@.len() - 1] == k);
                } else {
                    assert(a.live(k3));
                    let p = choose|p: int| 0 <= p < order0.len() && order0[p] == k3;
                    assert(self.order@[p] == k3);
                }
            };
            assert(self.order@.no_duplicates()) by {
                assert forall|p1: int, p2: int|
                    0 <= p1 < p2 < self.order@.len() implies self.order@[p1] != self.order@[p2] by {
                    if p2 == self.order@.len() - 1 {
                        assert(old(self).link_ok(p1));
                        assert(a.live(order0[p1]));
                    }
                };
            };
            assert(self.values() =~= old(self).values().push(value)) by {
                assert forall|p: int| 0 <= p < self.values().len() implies self.values()[p]
                    == old(self).values().push(value)[p] by {
                    if p < order0.len() {
                        assert(old(self).link_ok(p));
                        assert(c.contents()[order0[p]].value == a.contents()[order0[p]].value);
                    }
                };
            };
            assert(self.order@[self.order@.len() - 1] == k);
            broadcast use vstd::seq_lib::group_seq_properties;
            assert(self.pos_of(idx) == order0.len()) by {
                let q = self.order@.index_of(k);
                assert(self.order@.contains(k)) by {
                    assert(self.order@[self.order@.len() - 1] == k);
                };
                if q < order0.len() {
                    assert(old(self).link_ok(q));
                    assert(a.live(order0[q]));
                }
            };
            assert forall|i: LinkedListIndex| old(self).contains_index(i) implies final(self).contains_index(i) && final(self).pos_of(i) == old(self).pos_of(i) by {
                old(self).lemma_pos(i);
                let p = old(self).pos_of(i);
                assert(order0[p] == i.0);
                assert(self.order@[p] == i.0);
                self.lemma_pos_unique(i, p);
            };
            assert(!old(self).contains_index(idx)) by {
                if order0.contains(k) {
                    let p = choose|p: int| 0 <= p < order0.len() && order0[p] == k;
                    assert(old(self).link_ok(p));
                    assert(a.live(k));
                }
            };
        }
        idx
    }

    /// Push an item to the front of the list; returns its fresh handle.
    pub fn push_front(&mut self, value: T) -> (idx: LinkedListIndex)
        requires
            old(self).wf(),
            old(self).slots() < u32::MAX as int,
        ensures
            final(self).wf(),
            final(self).values() == seq![value] + old(self).values(),
            !old(self).contains_index(idx),
            final(self).contains_index(idx),
            final(self).pos_of(idx) == 0,
            forall|p: int|
                0 <= p < old(self).values().len() ==> final(self).index_at(p + 1) == old(self).index_at(p),
            forall|i: LinkedListIndex|
                old(self).contains_index(i) ==> final(self).contains_index(i) && final(self).pos_of(i) == old(self).pos_of(i) + 1,
            final(self).spec_head() == Some(idx),
            final(self).spec_tail() == (if old(self).values().len() == 0 {
                Some(idx)
            } else {
                old(self).spec_tail()
            }),
            old(self).slots() <= final(self).slots() <= old(self).slots() + 1,
    {
        let ghost order0 = self.order@;
        let k = self.items.peek_next_key();
        let idx = LinkedListIndex(k);
        let old_head = self.head;
        let item = LinkedListItem { index: idx, value, next_index: old_head, prev_index: None };
        let k2 = self.items.insert(item);
        let ghost g_ins = self.items;
        match old_head {
            Some(h) => {
                proof {
                    assert(old(self).link_ok(0));
                    assert(g_ins.live(h.0));
                }
                Self::set_prev_at(&mut self.items, h.0, Some(idx));
            },
            None => {
                self.tail = Some(idx);
            },
        }
        self.head = Some(idx);
        proof {
            self.order@ = seq![k] + order0;
            let a = old(self).items;
            let c = self.items;
            assert forall|k3: SlotKey| #[trigger] c.live(k3) implies g_ins.live(k3) && (a.live(k3)
                || k3 == k) by {
                assert(g_ins.contents().dom().contains(k3));
            };
            assert forall|k3: SlotKey| a.live(k3) implies #[trigger] c.live(k3) && order0.contains(
                k3,
            ) by {
                assert(g_ins.live(k3));
            };
            assert(c.contents()[k] == item) by {
                assert(g_ins.contents()[k] == item);
                if old_head is Some {
                    let h = old_head->0;
                    assert(a.live(h.0));
                }
            };
            assert forall|k3: SlotKey| a.live(k3) implies #[trigger] c.contents()[k3].value
                == a.contents()[k3].value && c.contents()[k3].index == a.contents()[k3].index
                && c.contents()[k3].next_index == a.contents()[k3].next_index && (
            (old_head is Some && k3 == (old_head->0).0) || c.contents()[k3] == a.contents()[
            k3]) by {
                assert(g_ins.contents()[k3] == a.contents()[k3]);
            };
            assert forall|p: int| 0 <= p < self.order@.len() implies #[trigger] self.link_ok(
                p,
            ) by {
                if p == 0 {
                    assert(self.order@[0] == k);
                } else {
                    assert(old(self).link_ok(p - 1));
                    assert(self.order@[p] == order0[p - 1]);
                    if p > 1 {
                        assert(order0[p - 1] != order0[0]);
                        assert(c.contents()[order0[p - 1]] == a.contents()[order0[p - 1]]);
                    }
                }
            };
            assert forall|k3: SlotKey| #[trigger] self.items.live(k3) implies self.order@.contains(
                k3,
            ) by {
                if k3 == k {
                    assert(self.order@[0] == k);
                } else {
                    assert(a.live(k3));
                    let p = choose|p: int| 0 <= p < order0.len() && order0[p] == k3;
                    assert(self.order@[p + 1] == k3);
                }
            };
            assert(self.order@.no_duplicates()) by {
                assert forall|p1: int, p2: int|
                    0 <= p1 < p2 < self.order@.len() implies self.order@[p1] != self.order@[p2] by {
                    if p1 == 0 {
                        assert(old(self).link_ok(p2 - 1));
                        assert(a.live(order0[p2 - 1]));
                    } else {
                        assert(order0[p1 - 1] != order0[p2 - 1]);
                    }
                };
            };
            assert(self.values() =~= seq![value] + old(self).values()) by {
                assert forall|p: int| 0 <= p < self.values().len() implies self.values()[p] == (
                seq![value] + old(self).values())[p] by {
                    if p > 0 {
                        assert(old(self).link_ok(p - 1));
                        assert(c.contents()[order0[p - 1]].value == a.contents()[order0[p
                            - 1]].value);
                    }
                };
            };
            broadcast use vstd::seq_lib::group_seq_properties;
            assert(self.pos_of(idx) == 0) by {
                assert(self.order@.contains(k)) by {
                    assert(self.order@[0] == k);
                };
                let q = self.order@.index_of(k);
                if q > 0 {
                    assert(old(self).link_ok(q - 1));
                    assert(a.live(order0[q - 1]));
                }
            };
            assert forall|i: LinkedListIndex| old(self).contains_index(i) implies final(self).contains_index(i) && final(self).pos_of(i) == old(self).pos_of(i) + 1 by {
                old(self).lemma_pos(i);
                let p = old(self).pos_of(i);
                assert(order0[p] == i.0);
                assert(self.order@[p + 1] == i.0);
                self.lemma_pos_unique(i, p + 1);
            };
            assert(!old(self).contains_index(idx)) by {
                if order0.contains(k) {
                    let p = choose|p: int| 0 <= p < order0.len() && order0[p] == k;
                    assert(old(self).link_ok(p));
                    assert(a.live(k));
                }
            };
        }
        idx
    }

    /// Remove the last item of the list and return its value, if any.
    pub fn pop_back(&mut self) -> (r: Option<T>)
        requires
            old(self).wf(),
        ensures
            final(self).wf(),
            match r {
                Some(v) => {
                    &&& old(self).values().len() > 0
                    &&& v == old(self).values().last()
                    &&& final(self).values() == old(self).values().drop_last()
                    &&& forall|p: int|
                        0 <= p < final(self).values().len() ==> final(self).index_at(p) == old(self).index_at(p)
                    &&& final(self).spec_tail() == (if old(self).values().len() == 1 {
                        Option::<LinkedListIndex>::None
                    } else {
                        Option::Some(old(self).index_at(old(self).values().len() - 2))
                    })
                    &&& final(self).spec_head() == (if old(self).values().len() == 1 {
                        Option::<LinkedListIndex>::None
                    } else {
                        old(self).spec_head()
                    })
                },
                None => {
                    &&& old(self).values().len() == 0
                    &&& *final(self) == *old(self)
                },
            },
    {
        let old_tail = match self.tail {
            None => {
                return None;
            },
            Some(t) => t,
        };
        let ghost order0 = self.order@;
        proof {
            assert(old(self).link_ok(order0.len() - 1));
        }
        let item = match self.items.remove(old_tail.0) {
            Some(it) => it,
            None => {
                proof {
                    assert(false);
                }
                return None;
            },
        };
        let ghost g_rem = self.items;
        self.tail = item.prev_index;
        match item.prev_index {
            Some(pv) => {
                proof {
                    assert(old(self).link_ok(order0.len() - 2));
                    assert(order0[order0.len() - 2] != order0[order0.len() - 1]);
                    assert(g_rem.live(pv.0));
                }
                Self::set_next_at(&mut self.items, pv.0, None);
            },
            None => {
                self.head = None;
            },
        }
        proof {
            self.order@ = order0.drop_last();
            let a = old(self).items;
            let c = self.items;
            let kt = order0[order0.len() - 1];
            assert forall|k3: SlotKey| #[trigger] c.live(k3) implies a.live(k3) && k3 != kt by {
                assert(g_rem.live(k3));
                assert(g_rem.contents().dom().contains(k3));
            };
            assert forall|k3: SlotKey| a.live(k3) && k3 != kt implies #[trigger] c.live(k3) by {
                assert(g_rem.live(k3));
            };
            assert forall|k3: SlotKey| a.live(k3) && k3 != kt implies #[trigger] c.contents()[
            k3].value == a.contents()[k3].value && c.contents()[k3].index == a.contents()[
            k3].index && c.contents()[k3].prev_index == a.contents()[k3].prev_index && ((
            item.prev_index is Some && k3 == (item.prev_index->0).0) || c.contents()[k3]
                == a.contents()[k3]) by {
                assert(g_rem.contents()[k3] == a.contents()[k3]);
            };
            assert forall|p: int| 0 <= p < self.order@.len() implies #[trigger] self.link_ok(
                p,
            ) by {
                assert(old(self).link_ok(p));
                assert(self.order@[p] == order0[p]);
                assert(order0[p] != kt);
                if p < self.order@.len() - 1 {
                    assert(order0[p] != order0[order0.len() - 2]);
                    assert(c.contents()[order0[p]] == a.contents()[order0[p]]);
                }
            };
            assert forall|k3: SlotKey| #[trigger] self.items.live(k3) implies self.order@.contains(
                k3,
            ) by {
                assert(a.live(k3));
                let p = choose|p: int| 0 <= p < order0.len() && order0[p] == k3;
                assert(p != order0.len() - 1);
                assert(self.order@[p] == k3);
            };
            assert(self.values() =~= old(self).values().drop_last()) by {
                assert forall|p: int| 0 <= p < self.values().len() implies self.values()[p]
                    == old(self).values().drop_last()[p] by {
                    assert(old(self).link_ok(p));
                    assert(order0[p] != kt);
                    assert(c.contents()[order0[p]].value == a.contents()[order0[p]].value);
                };
            };
        }
        Some(item.value)
    }

    /// Remove the first item of the list and return its value, if any.
    pub fn pop_front(&mut self) -> (r: Option<T>)
        requires
            old(self).wf(),
        ensures
            final(self).wf(),
            match r {
                Some(v) => {
                    &&& old(self).values().len() > 0
                    &&& v == old(self).values().first()
                    &&& final(self).values() == old(self).values().drop_first()
                    &&& forall|p: int|
                        0 <= p < final(self).values().len() ==> final(self).index_at(p) == old(self).index_at(p + 1)
                    &&& final(self).spec_head() == (if old(self).values().len() == 1 {
                        Option::<LinkedListIndex>::None
                    } else {
                        Option::Some(old(self).index_at(1))
                    })
                    &&& final(self).spec_tail() == (if old(self).values().len() == 1 {
                        Option::<LinkedListIndex>::None
                    } else {
                        old(self).spec_tail()
                    })
                },
                None => {
                    &&& old(self).values().len() == 0
                    &&& *final(self) == *old(self)
                },
            },
    {
        let old_head = match self.head {
            None => {
                return None;
            },
            Some(h) => h,
        };
        let ghost order0 = self.order@;
        proof {
            assert(old(self).link_ok(0));
        }
        let item = match self.items.remove(old_head.0) {
            Some(it) => it,
            None => {
                proof {
                    assert(false);
                }
                return None;
            },
        };
        let ghost g_rem = self.items;
        self.head = item.next_index;
        match item.next_index {
            Some(nx) => {
                proof {
                    assert(old(self).link_ok(1));
                    assert(order0[1] != order0[0]);
                    assert(g_rem.live(nx.0));
                }
                Self::set_prev_at(&mut self.items, nx.0, None);
            },
            None => {
                self.tail = None;
            },
        }
        proof {
            self.order@ = order0.drop_first();
            let a = old(self).items;
            let c = self.items;
            let kh = order0[0];
            assert forall|k3: SlotKey| #[trigger] c.live(k3) implies a.live(k3) && k3 != kh by {
                assert(g_rem.live(k3));
                assert(g_rem.contents().dom().contains(k3));
            };
            assert forall|k3: SlotKey| a.live(k3) && k3 != kh implies #[trigger] c.live(k3) by {
                assert(g_rem.live(k3));
            };
            assert forall|k3: SlotKey| a.live(k3) && k3 != kh implies #[trigger] c.contents()[
            k3].value == a.contents()[k3].value && c.contents()[k3].index == a.contents()[
            k3].index && c.contents()[k3].next_index == a.contents()[k3].next_index && ((
            item.next_index is Some && k3 == (item.next_index->0).0) || c.contents()[k3]
                == a.contents()[k3]) by {
                assert(g_rem.contents()[k3] == a.contents()[k3]);
            };
            assert forall|p: int| 0 <= p < self.order@.len() implies #[trigger] self.link_ok(
                p,
            ) by {
                assert(old(self).link_ok(p + 1));
                assert(self.order@[p] == order0[p + 1]);
                assert(order0[p + 1] != kh);
                if p > 0 {
                    assert(order0[p + 1] != order0[1]);
                    assert(c.contents()[order0[p + 1]] == a.contents()[order0[p + 1]]);
                }
            };
            assert forall|k3: SlotKey| #[trigger] self.items.live(k3) implies self.order@.contains(
                k3,
            ) by {
                assert(a.live(k3));
                let p = choose|p: int| 0 <= p < order0.len() && order0[p] == k3;
                assert(p != 0);
                assert(self.order@[p - 1] == k3);
            };
            assert(self.values() =~= old(self).values().drop_first()) by {
                assert forall|p: int| 0 <= p < self.values().len() implies self.values()[p]
                    == old(self).values().drop_first()[p] by {
                    assert(old(self).link_ok(p + 1));
                    assert(order0[p + 1] != kh);
                    assert(c.contents()[order0[p + 1]].value == a.contents()[order0[p + 1]].value);
                };
            };
        }
        Some(item.value)
    }


    /// Insert an item after the one with handle `index`; returns the new
    /// item's fresh handle.
    pub fn insert_after(&mut self, index: LinkedListIndex, value: T) -> (idx: LinkedListIndex)
        requires
            old(self).wf(),
            old(self).contains_index(index),
            old(self).slots() < u32::MAX as int,
        ensures
            final(self).wf(),
            final(self).values() == old(self).values().take(old(self).pos_of(index) + 1)
                + seq![value] + old(self).values().skip(old(self).pos_of(index) + 1),
            !old(self).contains_index(idx),
            final(self).contains_index(idx),
            final(self).pos_of(idx) == old(self).pos_of(index) + 1,
            final(self).index_at(old(self).pos_of(index) + 1) == idx,
            forall|p: int|
                0 <= p <= old(self).pos_of(index) ==> final(self).index_at(p) == old(self).index_at(p),
            forall|p: int|
                old(self).pos_of(index) < p < old(self).values().len() ==> final(self).index_at(
                    p + 1,
                ) == old(self).index_at(p),
            forall|i: LinkedListIndex|
                old(self).contains_index(i) ==> final(self).contains_index(i) && final(self).pos_of(i) == old(self).pos_of(i) + (if old(self).pos_of(i) <= old(self).pos_of(
                    index,
                ) {
                    0int
                } else {
                    1int
                }),
    {
        let ghost order0 = self.order@;
        proof {
            self.lemma_pos(index);
            assert(self.link_ok(self.pos_of(index)));
        }
        let ghost pos = self.pos_of(index);
        let nxt = match self.items.get(index.0) {
            Some(it) => it.next_index,
            None => {
                proof {
                    assert(false);
                }
                None
            },
        };
        let k = self.items.peek_next_key();
        let idx = LinkedListIndex(k);
        let item = LinkedListItem { index: idx, value, next_index: nxt, prev_index: Some(index) };
        let k2 = self.items.insert(item);
        let ghost g_ins = self.items;
        match nxt {
            Some(nx) => {
                proof {
                    assert(old(self).link_ok(pos + 1));
                    assert(g_ins.live(nx.0));
                }
                Self::set_prev_at(&mut self.items, nx.0, Some(idx));
            },
            None => {
                self.tail = Some(idx);
            },
        }
        let ghost g_mid = self.items;
        proof {
            assert(g_mid.live(index.0)) by {
                assert(g_ins.live(index.0));
            };
        }
        Self::set_next_at(&mut self.items, index.0, Some(idx));
        proof {
            self.order@ = order0.take(pos + 1) + seq![k] + order0.skip(pos + 1);
            let a = old(self).items;
            let c = self.items;
            let ki = index.0;
            assert(self.order@.len() == order0.len() + 1);
            assert forall|p: int| 0 <= p < self.order@.len() implies #[trigger] self.order@[p] == (
            if p <= pos {
                order0[p]
            } else if p == pos + 1 {
                k
            } else {
                order0[p - 1]
            }) by {};
            assert forall|k3: SlotKey| #[trigger] c.live(k3) implies (a.live(k3) || k3 == k) by {
                assert(g_mid.live(k3) && g_ins.live(k3));
                assert(g_ins.contents().dom().contains(k3));
            };
            assert forall|k3: SlotKey| a.live(k3) implies #[trigger] c.live(k3) by {
                assert(g_ins.live(k3) && g_mid.live(k3));
            };
            // which cells changed, and how little
            assert(c.contents()[k].index == idx && c.contents()[k].value == value
                && c.contents()[k].prev_index == Some(index) && c.contents()[k].next_index
                == nxt) by {
                assert(g_ins.contents()[k] == item);
                if nxt is Some {
                    let nx = nxt->0;
                    assert(a.live(nx.0));
                    assert(g_mid.contents()[k] == item);
                } else {
                    assert(g_mid.contents()[k] == item);
                }
                assert(ki != k) by {
                    assert(a.live(ki));
                };
            };
            assert(c.contents()[ki].next_index == Some(idx) && c.contents()[ki].value
                == a.contents()[ki].value && c.contents()[ki].index == a.contents()[ki].index
                && c.contents()[ki].prev_index == a.contents()[ki].prev_index) by {
                assert(g_ins.contents()[ki] == a.contents()[ki]);
                if nxt is Some {
                    let nx = nxt->0;
                    assert(old(self).link_ok(pos + 1));
                    assert(order0[pos + 1] != order0[pos]);
                    assert(g_mid.contents()[ki] == g_ins.contents()[ki]);
                } else {
                    assert(g_mid.contents()[ki] == g_ins.contents()[ki]);
                }
            };
            if nxt is Some {
                let nxk = order0[pos + 1];
                assert(old(self).link_ok(pos + 1));
                assert((nxt->0).0 == nxk);
                assert(c.contents()[nxk].prev_index == Some(idx) && c.contents()[nxk].value
                    == a.contents()[nxk].value && c.contents()[nxk].index == a.contents()[
                nxk].index && c.contents()[nxk].next_index == a.contents()[nxk].next_index) by {
                    assert(g_ins.contents()[nxk] == a.contents()[nxk]);
                    assert(nxk != ki);
                    assert(g_mid.contents()[nxk].prev_index == Some(idx));
                    assert(g_mid.contents()[nxk].value == a.contents()[nxk].value
                        && g_mid.contents()[nxk].index == a.contents()[nxk].index
                        && g_mid.contents()[nxk].next_index == a.contents()[nxk].next_index);
                    assert(c.contents()[nxk] == g_mid.contents()[nxk]);
                };
            }
            assert forall|k3: SlotKey|
                a.live(k3) && k3 != ki && (nxt is None || k3 != (nxt->0).0) implies
                #[trigger] c.contents()[k3] == a.contents()[k3] by {
                assert(g_ins.contents()[k3] == a.contents()[k3]);
                assert(g_mid.contents()[k3] == g_ins.contents()[k3]);
            };
            assert forall|p: int| 0 <= p < self.order@.len() implies #[trigger] self.link_ok(
                p,
            ) by {
                broadcast use vstd::seq_lib::group_seq_properties;
                if p <= pos - 1 {
                    assert(old(self).link_ok(p));
                    assert(order0[p] != ki && (nxt is None || order0[p] != (nxt->0).0));
                } else if p == pos {
                } else if p == pos + 1 {
                } else if p == pos + 2 {
                    assert(old(self).link_ok(pos + 1));
                } else {
                    assert(old(self).link_ok(p - 1));
                    assert(order0[p - 1] != ki && (nxt is None || order0[p - 1] != (
                    nxt->0).0));
                }
            };
            assert forall|k3: SlotKey| #[trigger] self.items.live(k3) implies self.order@.contains(
                k3,
            ) by {
                if k3 == k {
                    assert(self.order@[pos + 1] == k);
                } else {
                    assert(a.live(k3));
                    let p = choose|p: int| 0 <= p < order0.len() && order0[p] == k3;
                    if p <= pos {
                        assert(self.order@[p] == k3);
                    } else {
                        assert(self.order@[p + 1] == k3);
                    }
                }
            };
            assert(self.order@.no_duplicates()) by {
                assert forall|p1: int, p2: int|
                    0 <= p1 < p2 < self.order@.len() implies self.order@[p1] != self.order@[p2] by {
                    if p2 == pos + 1 {
                        assert(old(self).link_ok(if p1 <= pos { p1 } else { p1 - 1 }));
                    } else if p1 == pos + 1 {
                        assert(old(self).link_ok(p2 - 1));
                    }
                };
            };
            assert(self.values() =~= old(self).values().take(pos + 1) + seq![value] + old(
                self,
            ).values().skip(pos + 1)) by {
                assert forall|p: int| 0 <= p < self.values().len() implies self.values()[p] == (
                old(self).values().take(pos + 1) + seq![value] + old(self).values().skip(
                    pos + 1,
                ))[p] by {
                    if p <= pos {
                        assert(old(self).link_ok(p));
                        assert(c.contents()[order0[p]].value == a.contents()[order0[p]].value);
                    } else if p > pos + 1 {
                        assert(old(self).link_ok(p - 1));
                        assert(c.contents()[order0[p - 1]].value == a.contents()[order0[p
                            - 1]].value);
                    }
                };
            };
            assert(!old(self).contains_index(idx)) by {
                if order0.contains(k) {
                    let p = choose|p: int| 0 <= p < order0.len() && order0[p] == k;
                    assert(old(self).link_ok(p));
                    assert(a.live(k));
                }
            };
            broadcast use vstd::seq_lib::group_seq_properties;
            assert(final(self).pos_of(idx) == pos + 1) by {
                assert(self.order@.contains(k)) by {
                    assert(self.order@[pos + 1] == k);
                };
                let q = self.order@.index_of(k);
                if q != pos + 1 {
                    assert(order0.contains(k)) by {
                        if q <= pos {
                            assert(order0[q] == k);
                        } else {
                            assert(order0[q - 1] == k);
                        }
                    };
                    let p = choose|p: int| 0 <= p < order0.len() && order0[p] == k;
                    assert(old(self).link_ok(p));
                    assert(a.live(k));
                }
            };
            assert forall|i: LinkedListIndex| old(self).contains_index(i) implies final(self).contains_index(i) && final(self).pos_of(i) == old(self).pos_of(i) + (if old(self).pos_of(i) <= pos {
                0int
            } else {
                1int
            }) by {
                old(self).lemma_pos(i);
                let p = old(self).pos_of(i);
                assert(order0[p] == i.0);
                if p <= pos {
                    assert(self.order@[p] == i.0);
                    self.lemma_pos_unique(i, p);
                } else {
                    assert(self.order@[p + 1] == i.0);
                    self.lemma_pos_unique(i, p + 1);
                }
            };
        }
        idx
    }


    /// Insert an item before the one with handle `index`; returns the new
    /// item's fresh handle.
    pub fn insert_before(&mut self, index: LinkedListIndex, value: T) -> (idx: LinkedListIndex)
        requires
            old(self).wf(),
            old(self).contains_index(index),
            old(self).slots() < u32::MAX as int,
        ensures
            final(self).wf(),
            final(self).values() == old(self).values().take(old(self).pos_of(index)) + seq![value]
                + old(self).values().skip(old(self).pos_of(index)),
            !old(self).contains_index(idx),
            final(self).contains_index(idx),
            final(self).pos_of(idx) == old(self).pos_of(index),
            final(self).index_at(old(self).pos_of(index)) == idx,
            forall|p: int|
                0 <= p < old(self).pos_of(index) ==> final(self).index_at(p) == old(self).index_at(
                    p,
                ),
            forall|p: int|
                old(self).pos_of(index) <= p < old(self).values().len() ==> final(self).index_at(
                    p + 1,
                ) == old(self).index_at(p),
            forall|i: LinkedListIndex|
                old(self).contains_index(i) ==> final(self).contains_index(i) && final(self).pos_of(i) == old(self).pos_of(i) + (if old(self).pos_of(i) < old(self).pos_of(
                    index,
                ) {
                    0int
                } else {
                    1int
                }),
    {
        let ghost order0 = self.order@;
        proof {
            self.lemma_pos(index);
            assert(self.link_ok(self.pos_of(index)));
        }
        let ghost pos = self.pos_of(index);
        let prv = match self.items.get(index.0) {
            Some(it) => it.prev_index,
            None => {
                proof {
                    assert(false);
                }
                None
            },
        };
        let k = self.items.peek_next_key();
        let idx = LinkedListIndex(k);
        let item = LinkedListItem { index: idx, value, next_index: Some(index), prev_index: prv };
        let k2 = self.items.insert(item);
        let ghost g_ins = self.items;
        match prv {
            Some(pv) => {
                proof {
                    assert(old(self).link_ok(pos - 1));
                    assert(g_ins.live(pv.0));
                }
                Self::set_next_at(&mut self.items, pv.0, Some(idx));
            },
            None => {
                self.head = Some(idx);
            },
        }
        let ghost g_mid = self.items;
        proof {
            assert(g_mid.live(index.0)) by {
                assert(g_ins.live(index.0));
            };
        }
        Self::set_prev_at(&mut self.items, index.0, Some(idx));
        proof {
            self.order@ = order0.take(pos) + seq![k] + order0.skip(pos);
            let a = old(self).items;
            let c = self.items;
            let ki = index.0;
            assert(self.order@.len() == order0.len() + 1);
            assert forall|p: int| 0 <= p < self.order@.len() implies #[trigger] self.order@[p] == (
            if p <= pos - 1 {
                order0[p]
            } else if p == pos {
                k
            } else {
                order0[p - 1]
            }) by {};
            assert forall|k3: SlotKey| #[trigger] c.live(k3) implies (a.live(k3) || k3 == k) by {
                assert(g_mid.live(k3) && g_ins.live(k3));
                assert(g_ins.contents().dom().contains(k3));
            };
            assert forall|k3: SlotKey| a.live(k3) implies #[trigger] c.live(k3) by {
                assert(g_ins.live(k3) && g_mid.live(k3));
            };
            assert(c.contents()[k].index == idx && c.contents()[k].value == value
                && c.contents()[k].next_index == Some(index) && c.contents()[k].prev_index
                == prv) by {
                assert(g_ins.contents()[k] == item);
                if prv is Some {
                    let pv = prv->0;
                    assert(a.live(pv.0));
                    assert(g_mid.contents()[k] == item);
                } else {
                    assert(g_mid.contents()[k] == item);
                }
                assert(ki != k) by {
                    assert(a.live(ki));
                };
            };
            assert(c.contents()[ki].prev_index == Some(idx) && c.contents()[ki].value
                == a.contents()[ki].value && c.contents()[ki].index == a.contents()[ki].index
                && c.contents()[ki].next_index == a.contents()[ki].next_index) by {
                assert(g_ins.contents()[ki] == a.contents()[ki]);
                if prv is Some {
                    let pv = prv->0;
                    assert(old(self).link_ok(pos - 1));
                    assert(order0[pos - 1] != order0[pos]);
                    assert(g_mid.contents()[ki] == g_ins.contents()[ki]);
                } else {
                    assert(g_mid.contents()[ki] == g_ins.contents()[ki]);
                }
            };
            if prv is Some {
                let pvk = order0[pos - 1];
                assert(old(self).link_ok(pos - 1));
                assert((prv->0).0 == pvk);
                assert(c.contents()[pvk].next_index == Some(idx) && c.contents()[pvk].value
                    == a.contents()[pvk].value && c.contents()[pvk].index == a.contents()[
                pvk].index && c.contents()[pvk].prev_index == a.contents()[pvk].prev_index) by {
                    assert(g_ins.contents()[pvk] == a.contents()[pvk]);
                    assert(pvk != ki);
                    assert(g_mid.contents()[pvk].next_index == Some(idx));
                    assert(g_mid.contents()[pvk].value == a.contents()[pvk].value
                        && g_mid.contents()[pvk].index == a.contents()[pvk].index
                        && g_mid.contents()[pvk].prev_index == a.contents()[pvk].prev_index);
                    assert(c.contents()[pvk] == g_mid.contents()[pvk]);
                };
            }
            assert forall|k3: SlotKey|
                a.live(k3) && k3 != ki && (prv is None || k3 != (prv->0).0) implies
                #[trigger] c.contents()[k3] == a.contents()[k3] by {
                assert(g_ins.contents()[k3] == a.contents()[k3]);
                assert(g_mid.contents()[k3] == g_ins.contents()[k3]);
            };
            assert forall|p: int| 0 <= p < self.order@.len() implies #[trigger] self.link_ok(
                p,
            ) by {
                broadcast use vstd::seq_lib::group_seq_properties;
                if p <= pos - 2 {
                    assert(old(self).link_ok(p));
                    assert(order0[p] != ki && (prv is None || order0[p] != (prv->0).0));
                } else if p == pos - 1 {
                    assert(old(self).link_ok(pos - 1));
                } else if p == pos {
                } else if p == pos + 1 {
                } else {
                    assert(old(self).link_ok(p - 1));
                    assert(order0[p - 1] != ki && (prv is None || order0[p - 1] != (
                    prv->0).0));
                }
            };
            assert forall|k3: SlotKey| #[trigger] self.items.live(k3) implies self.order@.contains(
                k3,
            ) by {
                if k3 == k {
                    assert(self.order@[pos] == k);
                } else {
                    assert(a.live(k3));
                    let p = choose|p: int| 0 <= p < order0.len() && order0[p] == k3;
                    if p <= pos - 1 {
                        assert(self.order@[p] == k3);
                    } else {
                        assert(self.order@[p + 1] == k3);
                    }
                }
            };
            assert(self.order@.no_duplicates()) by {
                assert forall|p1: int, p2: int|
                    0 <= p1 < p2 < self.order@.len() implies self.order@[p1] != self.order@[p2] by {
                    if p2 == pos {
                        assert(old(self).link_ok(if p1 <= pos - 1 { p1 } else { p1 - 1 }));
                    } else if p1 == pos {
                        assert(old(self).link_ok(p2 - 1));
                    }
                };
            };
            assert(self.values() =~= old(self).values().take(pos) + seq![value] + old(
                self,
            ).values().skip(pos)) by {
                assert forall|p: int| 0 <= p < self.values().len() implies self.values()[p] == (
                old(self).values().take(pos) + seq![value] + old(self).values().skip(pos))[p] by {
                    if p <= pos - 1 {
                        assert(old(self).link_ok(p));
                        assert(c.contents()[order0[p]].value == a.contents()[order0[p]].value);
                    } else if p > pos {
                        assert(old(self).link_ok(p - 1));
                        assert(c.contents()[order0[p - 1]].value == a.contents()[order0[p
                            - 1]].value);
                    }
                };
            };
            assert(!old(self).contains_index(idx)) by {
                if order0.contains(k) {
                    let p = choose|p: int| 0 <= p < order0.len() && order0[p] == k;
                    assert(old(self).link_ok(p));
                    assert(a.live(k));
                }
            };
            broadcast use vstd::seq_lib::group_seq_properties;
            assert(final(self).pos_of(idx) == pos) by {
                assert(self.order@.contains(k)) by {
                    assert(self.order@[pos] == k);
                };
                let q = self.order@.index_of(k);
                if q != pos {
                    assert(order0.contains(k)) by {
                        if q <= pos - 1 {
                            assert(order0[q] == k);
                        } else {
                            assert(order0[q - 1] == k);
                        }
                    };
                    let p = choose|p: int| 0 <= p < order0.len() && order0[p] == k;
                    assert(old(self).link_ok(p));
                    assert(a.live(k));
                }
            };
            assert forall|i: LinkedListIndex| old(self).contains_index(i) implies final(self).contains_index(i) && final(self).pos_of(i) == old(self).pos_of(i) + (if old(self).pos_of(i) < pos {
                0int
            } else {
                1int
            }) by {
                old(self).lemma_pos(i);
                let p = old(self).pos_of(i);
                assert(order0[p] == i.0);
                if p <= pos - 1 {
                    assert(self.order@[p] == i.0);
                    self.lemma_pos_unique(i, p);
                } else {
                    assert(self.order@[p + 1] == i.0);
                    self.lemma_pos_unique(i, p + 1);
                }
            };
            assert(final(self).index_at(pos) == idx);
        }
        idx
    }

    /// Remove an item from the list by handle and return its value.
    pub fn remove(&mut self, index: LinkedListIndex) -> (v: T)
        requires
            old(self).wf(),
            old(self).contains_index(index),
        ensures
            final(self).wf(),
            v == old(self).values()[old(self).pos_of(index)],
            final(self).values() == old(self).values().take(old(self).pos_of(index)) + old(
                self,
            ).values().skip(old(self).pos_of(index) + 1),
            !final(self).contains_index(index),
            forall|p: int|
                0 <= p < old(self).pos_of(index) ==> final(self).index_at(p) == old(self).index_at(
                    p,
                ),
            forall|p: int|
                old(self).pos_of(index) <= p < old(self).values().len() - 1 ==> final(self).index_at(p) == old(self).index_at(p + 1),
            forall|i: LinkedListIndex|
                old(self).contains_index(i) && i != index ==> final(self).contains_index(i)
                    && final(self).pos_of(i) == old(self).pos_of(i) - (if old(self).pos_of(i)
                    < old(self).pos_of(index) {
                    0int
                } else {
                    1int
                }),
    {
        let ghost order0 = self.order@;
        proof {
            self.lemma_pos(index);
            assert(self.link_ok(self.pos_of(index)));
        }
        let ghost pos = self.pos_of(index);
        let item = match self.items.remove(index.0) {
            Some(it) => it,
            None => {
                proof {
                    assert(false);
                }
                vstd::pervasive::unreached()
            },
        };
        let ghost g_rem = self.items;
        match item.prev_index {
            Some(pv) => {
                proof {
                    assert(old(self).link_ok(pos - 1));
                    assert(order0[pos - 1] != order0[pos]);
                    assert(g_rem.live(pv.0));
                }
                Self::set_next_at(&mut self.items, pv.0, item.next_index);
            },
            None => {
                self.head = item.next_index;
            },
        }
        let ghost g_mid = self.items;
        match item.next_index {
            Some(nx) => {
                proof {
                    assert(old(self).link_ok(pos + 1));
                    assert(order0[pos + 1] != order0[pos]);
                    assert(g_mid.live(nx.0)) by {
                        assert(g_rem.live(nx.0));
                    };
                }
                Self::set_prev_at(&mut self.items, nx.0, item.prev_index);
            },
            None => {
                self.tail = item.prev_index;
            },
        }
        proof {
            self.order@ = order0.take(pos) + order0.skip(pos + 1);
            let a = old(self).items;
            let c = self.items;
            let ki = index.0;
            assert(self.order@.len() == order0.len() - 1);
            assert forall|p: int| 0 <= p < self.order@.len() implies #[trigger] self.order@[p] == (
            if p <= pos - 1 {
                order0[p]
            } else {
                order0[p + 1]
            }) by {};
            assert forall|k3: SlotKey| #[trigger] c.live(k3) implies a.live(k3) && k3 != ki by {
                assert(g_mid.live(k3) && g_rem.live(k3));
                assert(g_rem.contents().dom().contains(k3));
            };
            assert forall|k3: SlotKey| a.live(k3) && k3 != ki implies #[trigger] c.live(k3) by {
                assert(g_rem.live(k3) && g_mid.live(k3));
            };
            if item.prev_index is Some {
                let pvk = order0[pos - 1];
                assert(old(self).link_ok(pos - 1));
                assert((item.prev_index->0).0 == pvk);
                assert(c.contents()[pvk].next_index == item.next_index && c.contents()[pvk].value
                    == a.contents()[pvk].value && c.contents()[pvk].index == a.contents()[
                pvk].index && c.contents()[pvk].prev_index == a.contents()[pvk].prev_index) by {
                    assert(g_rem.contents()[pvk] == a.contents()[pvk]);
                    if item.next_index is Some {
                        assert(old(self).link_ok(pos + 1));
                        assert(order0[pos + 1] != order0[pos - 1]);
                        assert(c.contents()[pvk] == g_mid.contents()[pvk]);
                    } else {
                        assert(c.contents()[pvk] == g_mid.contents()[pvk]);
                    }
                };
            }
            if item.next_index is Some {
                let nxk = order0[pos + 1];
                assert(old(self).link_ok(pos + 1));
                assert((item.next_index->0).0 == nxk);
                assert(c.contents()[nxk].prev_index == item.prev_index && c.contents()[nxk].value
                    == a.contents()[nxk].value && c.contents()[nxk].index == a.contents()[
                nxk].index && c.contents()[nxk].next_index == a.contents()[nxk].next_index) by {
                    assert(g_rem.contents()[nxk] == a.contents()[nxk]);
                    if item.prev_index is Some {
                        assert(order0[pos + 1] != order0[pos - 1]);
                        assert(g_mid.contents()[nxk] == g_rem.contents()[nxk]);
                    } else {
                        assert(g_mid.contents()[nxk] == g_rem.contents()[nxk]);
                    }
                };
            }
            assert forall|k3: SlotKey|
                a.live(k3) && k3 != ki && (item.prev_index is None || k3 != (
                item.prev_index->0).0) && (item.next_index is None || k3 != (
                item.next_index->0).0) implies #[trigger] c.contents()[k3] == a.contents()[
            k3] by {
                assert(g_rem.contents()[k3] == a.contents()[k3]);
                assert(g_mid.contents()[k3] == g_rem.contents()[k3]);
            };
            assert forall|p: int| 0 <= p < self.order@.len() implies #[trigger] self.link_ok(
                p,
            ) by {
                broadcast use vstd::seq_lib::group_seq_properties;
                if p <= pos - 2 {
                    assert(old(self).link_ok(p));
                    assert(order0[p] != ki && (item.prev_index is None || order0[p] != (
                    item.prev_index->0).0) && (item.next_index is None || order0[p] != (
                    item.next_index->0).0));
                } else if p == pos - 1 {
                    assert(old(self).link_ok(pos - 1));
                    if pos + 1 < order0.len() {
                        assert(old(self).link_ok(pos + 1));
                    }
                } else if p == pos {
                    assert(old(self).link_ok(pos + 1));
                    if pos > 0 {
                        assert(old(self).link_ok(pos - 1));
                    }
                } else {
                    assert(old(self).link_ok(p + 1));
                    assert(order0[p + 1] != ki && (item.prev_index is None || order0[p + 1] != (
                    item.prev_index->0).0) && (item.next_index is None || order0[p + 1] != (
                    item.next_index->0).0));
                }
            };
            assert forall|k3: SlotKey| #[trigger] self.items.live(k3) implies self.order@.contains(
                k3,
            ) by {
                assert(a.live(k3));
                let p = choose|p: int| 0 <= p < order0.len() && order0[p] == k3;
                assert(p != pos);
                if p <= pos - 1 {
                    assert(self.order@[p] == k3);
                } else {
                    assert(self.order@[p - 1] == k3);
                }
            };
            assert(self.order@.no_duplicates()) by {
                assert forall|p1: int, p2: int|
                    0 <= p1 < p2 < self.order@.len() implies self.order@[p1] != self.order@[p2] by {};
            };
            assert(self.values() =~= old(self).values().take(pos) + old(self).values().skip(
                pos + 1,
            )) by {
                assert forall|p: int| 0 <= p < self.values().len() implies self.values()[p] == (
                old(self).values().take(pos) + old(self).values().skip(pos + 1))[p] by {
                    if p <= pos - 1 {
                        assert(old(self).link_ok(p));
                        assert(c.contents()[order0[p]].value == a.contents()[order0[p]].value);
                    } else {
                        assert(old(self).link_ok(p + 1));
                        assert(c.contents()[order0[p + 1]].value == a.contents()[order0[p
                            + 1]].value);
                    }
                };
            };
            assert(!final(self).contains_index(index)) by {
                if self.order@.contains(ki) {
                    let p = choose|p: int| 0 <= p < self.order@.len() && self.order@[p] == ki;
                }
            };
            assert forall|i: LinkedListIndex|
                old(self).contains_index(i) && i != index implies final(self).contains_index(i)
                && final(self).pos_of(i) == old(self).pos_of(i) - (if old(self).pos_of(i) < pos {
                0int
            } else {
                1int
            }) by {
                old(self).lemma_pos(i);
                let p = old(self).pos_of(i);
                assert(order0[p] == i.0);
                assert(p != pos);
                if p <= pos - 1 {
                    assert(self.order@[p] == i.0);
                    self.lemma_pos_unique(i, p);
                } else {
                    assert(self.order@[p - 1] == i.0);
                    self.lemma_pos_unique(i, p - 1);
                }
            };
        }
        item.value
    }


    /// Push many items to the back of the list, in order. Returns the handles
    /// of the new items.
    pub fn extend(&mut self, values: Vec<T>) -> (r: Vec<LinkedListIndex>)
        requires
            old(self).wf(),
            old(self).slots() + values@.len() <= u32::MAX as int,
        ensures
            final(self).wf(),
            final(self).values() == old(self).values() + values@,
            r@.len() == values@.len(),
            forall|j: int|
                0 <= j < r@.len() ==> final(self).contains_index(#[trigger] r@[j]) && !old(self).contains_index(r@[j]) && final(self).pos_of(r@[j]) == old(self).values().len()
                    + j,
            forall|p: int|
                0 <= p < old(self).values().len() ==> final(self).index_at(p) == old(self).index_at(p),
            forall|i: LinkedListIndex|
                old(self).contains_index(i) ==> final(self).contains_index(i) && final(self).pos_of(i) == old(self).pos_of(i),
    {
        let ghost vals = values@;
        let mut rest = values;
        let mut r: Vec<LinkedListIndex> = Vec::new();
        proof {
            assert(old(self).values() + vals.take(0) =~= old(self).values());
        }
        while rest.len() > 0
            invariant
                self.wf(),
                rest@.len() + r@.len() == vals.len(),
                rest@ == vals.skip(r@.len() as int),
                self.values() == old(self).values() + vals.take(r@.len() as int),
                self.slots() <= old(self).slots() + r@.len(),
                old(self).slots() + vals.len() <= u32::MAX as int,
                forall|j: int|
                    0 <= j < r@.len() ==> self.contains_index(#[trigger] r@[j]) && !old(self).contains_index(r@[j]) && self.pos_of(r@[j]) == old(self).values().len() + j,
                forall|p: int|
                    0 <= p < old(self).values().len() ==> self.index_at(p) == old(self).index_at(
                        p,
                    ),
                forall|i: LinkedListIndex|
                    old(self).contains_index(i) ==> self.contains_index(i) && self.pos_of(i)
                        == old(self).pos_of(i),
            decreases rest@.len(),
        {
            let ghost done = r@.len() as int;
            let ghost prev_self = *self;
            let ghost prev_r = r@;
            let v = rest.remove(0);
            proof {
                assert(rest@ =~= vals.skip(done + 1));
                assert(v == vals[done]);
            }
            let idx = self.push_back(v);
            r.push(idx);
            proof {
                assert(vals.take(done + 1) =~= vals.take(done).push(vals[done]));
                assert(self.values() =~= old(self).values() + vals.take(done + 1));
                assert forall|j: int| 0 <= j < r@.len() implies self.contains_index(
                    #[trigger] r@[j],
                ) && !old(self).contains_index(r@[j]) && self.pos_of(r@[j]) == old(self).values().len() + j by {
                    if j < prev_r.len() {
                        assert(r@[j] == prev_r[j]);
                        assert(prev_self.contains_index(r@[j]) && prev_self.pos_of(r@[j]) == old(self).values().len() + j);
                        prev_self.lemma_pos(r@[j]);
                        self.lemma_pos_unique(r@[j], old(self).values().len() + j);
                    } else {
                        assert(r@[j] == idx);
                    }
                };
                assert forall|i: LinkedListIndex| old(self).contains_index(i) implies
                    self.contains_index(i) && self.pos_of(i) == old(self).pos_of(i) by {
                    assert(prev_self.contains_index(i) && prev_self.pos_of(i) == old(self).pos_of(
                        i,
                    ));
                    prev_self.lemma_pos(i);
                    self.lemma_pos_unique(i, old(self).pos_of(i));
                };
            }
        }
        proof {
            assert(vals.take(vals.len() as int) =~= vals);
        }
        r
    }

    /// Push many items to the front of the list; each lands in front of the
    /// previous, so the block ends up reversed. Returns the new handles.
    pub fn push_front_many(&mut self, values: Vec<T>) -> (r: Vec<LinkedListIndex>)
        requires
            old(self).wf(),
            old(self).slots() + values@.len() <= u32::MAX as int,
        ensures
            final(self).wf(),
            final(self).values() == values@.reverse() + old(self).values(),
            r@.len() == values@.len(),
            forall|j: int|
                0 <= j < r@.len() ==> final(self).contains_index(#[trigger] r@[j]) && !old(self).contains_index(r@[j]) && final(self).pos_of(r@[j]) == values@.len() - 1 - j,
            forall|p: int|
                0 <= p < old(self).values().len() ==> final(self).index_at(p + values@.len())
                    == old(self).index_at(p),
            forall|i: LinkedListIndex|
                old(self).contains_index(i) ==> final(self).contains_index(i) && final(self).pos_of(i) == old(self).pos_of(i) + values@.len(),
    {
        let ghost vals = values@;
        let mut rest = values;
        let mut r: Vec<LinkedListIndex> = Vec::new();
        proof {
            assert(vals.take(0).reverse() =~= Seq::<T>::empty());
            assert(vals.take(0).reverse() + old(self).values() =~= old(self).values());
        }
        while rest.len() > 0
            invariant
                self.wf(),
                rest@.len() + r@.len() == vals.len(),
                rest@ == vals.skip(r@.len() as int),
                self.values() == vals.take(r@.len() as int).reverse() + old(self).values(),
                self.slots() <= old(self).slots() + r@.len(),
                old(self).slots() + vals.len() <= u32::MAX as int,
                forall|j: int|
                    0 <= j < r@.len() ==> self.contains_index(#[trigger] r@[j]) && !old(self).contains_index(r@[j]) && self.pos_of(r@[j]) == r@.len() - 1 - j,
                forall|p: int|
                    0 <= p < old(self).values().len() ==> self.index_at(p + r@.len()) == old(self).index_at(p),
                forall|i: LinkedListIndex|
                    old(self).contains_index(i) ==> self.contains_index(i) && self.pos_of(i)
                        == old(self).pos_of(i) + r@.len(),
            decreases rest@.len(),
        {
            let ghost done = r@.len() as int;
            let ghost prev_self = *self;
            let ghost prev_r = r@;
            let v = rest.remove(0);
            proof {
                assert(rest@ =~= vals.skip(done + 1));
                assert(v == vals[done]);
            }
            let idx = self.push_front(v);
            r.push(idx);
            proof {
                assert(vals.take(done + 1).reverse() =~= seq![vals[done]] + vals.take(
                    done,
                ).reverse());
                assert(self.values() =~= vals.take(done + 1).reverse() + old(self).values());
                assert forall|j: int| 0 <= j < r@.len() implies self.contains_index(
                    #[trigger] r@[j],
                ) && !old(self).contains_index(r@[j]) && self.pos_of(r@[j]) == r@.len() - 1
                    - j by {
                    if j < prev_r.len() {
                        assert(r@[j] == prev_r[j]);
                        assert(prev_self.contains_index(r@[j]) && prev_self.pos_of(r@[j]) == done
                            - 1 - j);
                        prev_self.lemma_pos(r@[j]);
                        assert(self.index_at(done - 1 - j + 1) == prev_self.index_at(done - 1 - j));
                        self.lemma_pos_unique(r@[j], done - j);
                    } else {
                        assert(r@[j] == idx);
                    }
                };
                assert forall|i: LinkedListIndex| old(self).contains_index(i) implies
                    self.contains_index(i) && self.pos_of(i) == old(self).pos_of(i) + r@.len() by {
                    assert(prev_self.contains_index(i) && prev_self.pos_of(i) == old(self).pos_of(
                        i,
                    ) + done);
                    prev_self.lemma_pos(i);
                    assert(self.index_at(old(self).pos_of(i) + done + 1) == prev_self.index_at(
                        old(self).pos_of(i) + done,
                    ));
                    self.lemma_pos_unique(i, old(self).pos_of(i) + done + 1);
                };
                assert forall|p: int| 0 <= p < old(self).values().len() implies self.index_at(
                    p + r@.len(),
                ) == old(self).index_at(p) by {
                    assert(self.index_at(p + done + 1) == prev_self.index_at(p + done));
                };
            }
        }
        proof {
            assert(vals.take(vals.len() as int) =~= vals);
        }
        r
    }

    /// Move every item of `other` to the back of this list, first to last.
    /// `other` is empty afterwards; the moved items get fresh handles in this
    /// list, which are returned.
    pub fn extend_back(&mut self, other: &mut LinkedList<T>) -> (r: Vec<LinkedListIndex>)
        requires
            old(self).wf(),
            old(other).wf(),
            old(self).slots() + old(other).values().len() <= u32::MAX as int,
        ensures
            final(self).wf(),
            final(other).wf(),
            final(self).values() == old(self).values() + old(other).values(),
            final(other).values() == Seq::<T>::empty(),
            r@.len() == old(other).values().len(),
            forall|j: int|
                0 <= j < r@.len() ==> final(self).contains_index(#[trigger] r@[j]) && !old(self).contains_index(r@[j]) && final(self).pos_of(r@[j]) == old(self).values().len()
                    + j,
            forall|p: int|
                0 <= p < old(self).values().len() ==> final(self).index_at(p) == old(self).index_at(p),
            forall|i: LinkedListIndex|
                old(self).contains_index(i) ==> final(self).contains_index(i) && final(self).pos_of(i) == old(self).pos_of(i),
            forall|i: LinkedListIndex| !final(other).contains_index(i),
    {
        let ghost vals = other.values();
        let mut r: Vec<LinkedListIndex> = Vec::new();
        proof {
            assert(old(self).values() + vals.take(0) =~= old(self).values());
            assert(vals.skip(0) =~= vals);
        }
        loop
            invariant
                self.wf(),
                other.wf(),
                vals == old(other).values(),
                r@.len() <= vals.len(),
                other.values() == vals.skip(r@.len() as int),
                self.values() == old(self).values() + vals.take(r@.len() as int),
                self.slots() <= old(self).slots() + r@.len(),
                old(self).slots() + vals.len() <= u32::MAX as int,
                forall|j: int|
                    0 <= j < r@.len() ==> self.contains_index(#[trigger] r@[j]) && !old(self).contains_index(r@[j]) && self.pos_of(r@[j]) == old(self).values().len() + j,
                forall|p: int|
                    0 <= p < old(self).values().len() ==> self.index_at(p) == old(self).index_at(
                        p,
                    ),
                forall|i: LinkedListIndex|
                    old(self).contains_index(i) ==> self.contains_index(i) && self.pos_of(i)
                        == old(self).pos_of(i),
            decreases other.values().len(),
        {
            let ghost done = r@.len() as int;
            let ghost prev_self = *self;
            let ghost prev_r = r@;
            match other.pop_front() {
                None => {
                    proof {
                        assert(vals.skip(done) =~= Seq::<T>::empty());
                        assert(done == vals.len());
                        assert(vals.take(vals.len() as int) =~= vals);
                        other.lemma_len();
                        assert forall|i: LinkedListIndex| !final(other).contains_index(i) by {
                            if other.order@.contains(i.0) {
                                let p = choose|p: int|
                                    0 <= p < other.order@.len() && other.order@[p] == i.0;
                            }
                        };
                    }
                    return r;
                },
                Some(v) => {
                    proof {
                        assert(v == vals.skip(done).first());
                        assert(v == vals[done]);
                        assert(vals.skip(done).drop_first() =~= vals.skip(done + 1));
                    }
                    let idx = self.push_back(v);
                    r.push(idx);
                    proof {
                        assert(vals.take(done + 1) =~= vals.take(done).push(vals[done]));
                        assert(self.values() =~= old(self).values() + vals.take(done + 1));
                        assert forall|j: int| 0 <= j < r@.len() implies self.contains_index(
                            #[trigger] r@[j],
                        ) && !old(self).contains_index(r@[j]) && self.pos_of(r@[j]) == old(self).values().len() + j by {
                            if j < prev_r.len() {
                                assert(r@[j] == prev_r[j]);
                                assert(prev_self.contains_index(r@[j]) && prev_self.pos_of(r@[j])
                                    == old(self).values().len() + j);
                                prev_self.lemma_pos(r@[j]);
                                self.lemma_pos_unique(r@[j], old(self).values().len() + j);
                            } else {
                                assert(r@[j] == idx);
                            }
                        };
                        assert forall|i: LinkedListIndex| old(self).contains_index(i) implies
                            self.contains_index(i) && self.pos_of(i) == old(self).pos_of(i) by {
                            assert(prev_self.contains_index(i) && prev_self.pos_of(i) == old(self).pos_of(i));
                            prev_self.lemma_pos(i);
                            self.lemma_pos_unique(i, old(self).pos_of(i));
                        };
                    }
                },
            }
        }
    }

    /// The handles from `start` to the back of the list, following the
    /// forward links. A stale or foreign handle yields itself alone.
    pub fn iter_next_index(&self, start: LinkedListIndex) -> (r: Vec<LinkedListIndex>)
        requires
            self.wf(),
        ensures
            self.contains_index(start) ==> {
                &&& r@.len() == self.values().len() - self.pos_of(start)
                &&& forall|j: int|
                    0 <= j < r@.len() ==> #[trigger] r@[j] == self.index_at(self.pos_of(start) + j)
            },
            !self.contains_index(start) ==> r@ == seq![start],
    {
        let mut r: Vec<LinkedListIndex> = Vec::new();
        r.push(start);
        let ghost p0 = self.pos_of(start);
        let mut cur = start;
        proof {
            if self.contains_index(start) {
                self.lemma_pos(start);
                assert(self.link_ok(self.pos_of(start)));
                self.lemma_len();
            }
            assert(r@ =~= seq![start]);
        }
        if !self.items.get(cur.0).is_some() {
            return r;
        }
        loop
            invariant
                self.wf(),
                self.contains_index(start),
                self.contains_index(cur),
                p0 == self.pos_of(start),
                r@.len() >= 1,
                self.pos_of(cur) == p0 + r@.len() - 1,
                r@[r@.len() - 1] == cur,
                forall|j: int|
                    0 <= j < r@.len() ==> #[trigger] r@[j] == self.index_at(p0 + j),
            decreases self.values().len() - self.pos_of(cur),
        {
            proof {
                self.lemma_pos(cur);
                assert(self.link_ok(self.pos_of(cur)));
            }
            let it = match self.items.get(cur.0) {
                Some(it) => it,
                None => {
                    proof {
                        assert(false);
                    }
                    return r;
                },
            };
            match it.next_index {
                None => {
                    proof {
                        self.lemma_len();
                    }
                    return r;
                },
                Some(n) => {
                    proof {
                        assert(self.link_ok(self.pos_of(cur) + 1));
                        assert(self.order@[self.pos_of(cur) + 1] == n.0);
                        broadcast use vstd::seq_lib::group_seq_properties;
                    }
                    cur = n;
                    r.push(cur);
                    proof {
                        let q = self.order@.index_of(cur.0);
                        assert(self.order@.contains(cur.0));
                    }
                },
            }
        }
    }

    /// The handles from `start` to the front of the list, following the
    /// backward links. A stale or foreign handle yields itself alone.
    pub fn iter_prev_index(&self, start: LinkedListIndex) -> (r: Vec<LinkedListIndex>)
        requires
            self.wf(),
        ensures
            self.contains_index(start) ==> {
                &&& r@.len() == self.pos_of(start) + 1
                &&& forall|j: int|
                    0 <= j < r@.len() ==> #[trigger] r@[j] == self.index_at(self.pos_of(start) - j)
            },
            !self.contains_index(start) ==> r@ == seq![start],
    {
        let mut r: Vec<LinkedListIndex> = Vec::new();
        r.push(start);
        let ghost p0 = self.pos_of(start);
        let mut cur = start;
        proof {
            if self.contains_index(start) {
                self.lemma_pos(start);
                assert(self.link_ok(self.pos_of(start)));
                self.lemma_len();
            }
            assert(r@ =~= seq![start]);
        }
        if !self.items.get(cur.0).is_some() {
            return r;
        }
        loop
            invariant
                self.wf(),
                self.contains_index(start),
                self.contains_index(cur),
                p0 == self.pos_of(start),
                r@.len() >= 1,
                self.pos_of(cur) == p0 - r@.len() + 1,
                r@[r@.len() - 1] == cur,
                forall|j: int|
                    0 <= j < r@.len() ==> #[trigger] r@[j] == self.index_at(p0 - j),
            decreases self.pos_of(cur),
        {
            proof {
                self.lemma_pos(cur);
                assert(self.link_ok(self.pos_of(cur)));
            }
            let it = match self.items.get(cur.0) {
                Some(it) => it,
                None => {
                    proof {
                        assert(false);
                    }
                    return r;
                },
            };
            match it.prev_index {
                None => {
                    return r;
                },
                Some(pv) => {
                    proof {
                        assert(self.link_ok(self.pos_of(cur) - 1));
                        assert(self.order@[self.pos_of(cur) - 1] == pv.0);
                        broadcast use vstd::seq_lib::group_seq_properties;
                    }
                    cur = pv;
                    r.push(cur);
                    proof {
                        let q = self.order@.index_of(cur.0);
                        assert(self.order@.contains(cur.0));
                    }
                },
            }
        }
    }
}

} // verus!
