//! A generation-checked slot arena: bulk-owned storage that issues an opaque
//! key for every inserted value.
//!
//! Each slot carries a version counter. A key remembers the version at which
//! its slot was occupied; removing the value bumps the slot's version, so the
//! old key can never resolve again and no later key ever equals it. This is
//! what makes identifiers stable: reuse of the underlying slot is invisible
//! to holders of old keys.

use vstd::prelude::*;

verus! {

/// A key issued by a [`SlotArena`]: the slot's position plus the version at
/// which the slot was occupied.
#[derive(Clone, Copy, PartialEq, Eq, Hash, PartialOrd, Ord, Debug, Structural)]
pub struct SlotKey {
    pub idx: u32,
    pub version: u32,
}

#[derive(Debug)]
struct Slot<V> {
    version: u32,
    value: Option<V>,
}

/// Generation-checked storage. `insert` returns a fresh [`SlotKey`]; `get`,
/// `get_mut` and `remove` resolve a key only while its value is still stored.
#[derive(Debug)]
pub struct SlotArena<V> {
    slots: Vec<Slot<V>>,
    free: Vec<u32>,
    count: usize,
}

/// How many slots of `s` are occupied.
spec fn occupied_count<V>(s: Seq<Slot<V>>) -> nat
    decreases s.len(),
{
    if s.len() == 0 {
        0
    } else {
        occupied_count(s.drop_last()) + if s.last().value is Some {
            1nat
        } else {
            0nat
        }
    }
}

/// The set of keys that currently resolve in `s`.
spec fn live_set<V>(s: Seq<Slot<V>>) -> Set<SlotKey> {
    Set::new(
        |k: SlotKey|
            (k.idx as int) < s.len() && s[k.idx as int].version == k.version && s[k.idx
                as int].value is Some,
    )
}

proof fn lemma_occupied_count_le_len<V>(s: Seq<Slot<V>>)
    ensures
        occupied_count(s) <= s.len(),
    decreases s.len(),
{
    if s.len() > 0 {
        lemma_occupied_count_le_len(s.drop_last());
    }
}

proof fn lemma_live_set_card<V>(s: Seq<Slot<V>>)
    requires
        s.len() <= u32::MAX,
    ensures
        live_set(s).finite(),
        live_set(s).len() == occupied_count(s),
    decreases s.len(),
{
    if s.len() == 0 {
        assert(live_set(s) =~= Set::<SlotKey>::empty());
    } else {
        let pre = s.drop_last();
        lemma_live_set_card(pre);
        if s.last().value is Some {
            let k = SlotKey { idx: (s.len() - 1) as u32, version: s.last().version };
            assert(live_set(s) =~= live_set(pre).insert(k));
            assert(!live_set(pre).contains(k));
        } else {
            assert(live_set(s) =~= live_set(pre));
        }
    }
}

impl<V> SlotArena<V> {
    /// How many slots the arena has ever allocated (occupied or not).
    pub closed spec fn num_slots(self) -> int {
        self.slots@.len() as int
    }

    /// `k` currently resolves to a stored value.
    pub closed spec fn live(self, k: SlotKey) -> bool {
        &&& (k.idx as int) < self.slots@.len()
        &&& self.slots@[k.idx as int].version == k.version
        &&& self.slots@[k.idx as int].value is Some
    }

    /// `k` can never resolve again, nor be issued again: its slot has moved
    /// past `k`'s version, or sits retired at the final version.
    pub closed spec fn dead(self, k: SlotKey) -> bool {
        &&& (k.idx as int) < self.slots@.len()
        &&& {
            ||| k.version < self.slots@[k.idx as int].version
            ||| (k.version == self.slots@[k.idx as int].version && self.slots@[k.idx
                as int].value is None && k.version == u32::MAX)
        }
    }

    /// Every key the arena has issued is either live or dead; a key is never
    /// both.
    pub open spec fn settled(self, k: SlotKey) -> bool {
        self.live(k) || self.dead(k)
    }

    pub closed spec fn value_at(self, k: SlotKey) -> V
        recommends
            self.live(k),
    {
        self.slots@[k.idx as int].value->Some_0
    }

    /// The arena as a map from live keys to their stored values.
    pub open spec fn contents(self) -> Map<SlotKey, V> {
        Map::new(|k: SlotKey| self.live(k), |k: SlotKey| self.value_at(k))
    }

    /// The key the next `insert` will return.
    pub closed spec fn next_key(self) -> SlotKey {
        if self.free@.len() > 0 {
            SlotKey {
                idx: self.free@.last(),
                version: self.slots@[self.free@.last() as int].version,
            }
        } else {
            SlotKey { idx: self.slots@.len() as u32, version: 0 }
        }
    }

    pub closed spec fn wf(self) -> bool {
        &&& self.slots@.len() <= u32::MAX
        &&& forall|i: int|
            0 <= i < self.slots@.len() ==> (#[trigger] self.slots@[i].value is Some
                ==> self.slots@[i].version < u32::MAX)
        &&& forall|j: int|
            0 <= j < self.free@.len() ==> {
                let f = #[trigger] self.free@[j];
                &&& (f as int) < self.slots@.len()
                &&& self.slots@[f as int].value is None
                &&& self.slots@[f as int].version < u32::MAX
            }
        &&& forall|j1: int, j2: int|
            0 <= j1 < j2 < self.free@.len() ==> self.free@[j1] != self.free@[j2]
        &&& self.count as nat == occupied_count(self.slots@)
    }

    /// A dead key never resolves: it is not live and lookups miss it.
    /// Together with the freshness clause of `insert` — every issued key
    /// differs from every dead key — a reused slot can never be confused
    /// with its earlier occupant.
    pub proof fn lemma_dead_never_resolves(self, k: SlotKey)
        requires
            self.dead(k),
        ensures
            !self.live(k),
            !self.contents().dom().contains(k),
    {
    }

    /// Two currently-valid keys for the same slot are the same key.
    pub proof fn lemma_live_same_slot(self, k1: SlotKey, k2: SlotKey)
        requires
            self.live(k1),
            self.live(k2),
            k1.idx == k2.idx,
        ensures
            k1 == k2,
    {
    }

    /// The contents map is finite, and no larger than the slot population.
    pub proof fn lemma_card(self)
        requires
            self.wf(),
        ensures
            self.contents().dom().finite(),
            self.contents().dom().len() <= self.num_slots(),
    {
        lemma_live_set_card(self.slots@);
        lemma_occupied_count_le_len(self.slots@);
        assert(self.contents().dom() =~= live_set(self.slots@));
    }

    proof fn lemma_card_internal(self)
        requires
            self.wf(),
        ensures
            self.contents().dom().finite(),
            self.contents().dom().len() == occupied_count(self.slots@),
    {
        lemma_live_set_card(self.slots@);
        assert(self.contents().dom() =~= live_set(self.slots@));
    }

    pub fn new() -> (a: Self)
        ensures
            a.wf(),
            a.contents() == Map::<SlotKey, V>::empty(),
            a.num_slots() == 0,
            forall|k: SlotKey| !a.settled(k),
    {
        let a = SlotArena { slots: Vec::new(), free: Vec::new(), count: 0 };
        proof {
            assert(a.contents() =~= Map::<SlotKey, V>::empty());
        }
        a
    }

    /// How many values are stored.
    pub fn len(&self) -> (n: usize)
        requires
            self.wf(),
        ensures
            n == self.contents().dom().len(),
    {
        proof {
            self.lemma_card_internal();
        }
        self.count
    }

    /// The key that `insert` is about to issue.
    pub fn peek_next_key(&self) -> (k: SlotKey)
        requires
            self.wf(),
        ensures
            k == self.next_key(),
    {
        if self.free.len() > 0 {
            let f = self.free[self.free.len() - 1];
            SlotKey { idx: f, version: self.slots[f as usize].version }
        } else {
            SlotKey { idx: self.slots.len() as u32, version: 0 }
        }
    }

    /// Store `v` and issue a key for it. The key is fresh: it differs from
    /// every key that is or ever was resolvable — reusing a freed slot can
    /// never reissue an old key, because the slot's version has moved on.
    pub fn insert(&mut self, v: V) -> (k: SlotKey)
        requires
            old(self).wf(),
            old(self).num_slots() < u32::MAX,
        ensures
            final(self).wf(),
            k == old(self).next_key(),
            final(self).live(k),
            !old(self).settled(k),
            forall|k2: SlotKey| old(self).live(k2) ==> final(self).live(k2) && k2 != k,
            forall|k2: SlotKey| old(self).dead(k2) ==> final(self).dead(k2) && k2 != k,
            final(self).contents() == old(self).contents().insert(k, v),
            old(self).num_slots() <= final(self).num_slots() <= old(self).num_slots() + 1,
    {
        proof {
            lemma_occupied_count_le_len(self.slots@);
        }
        let k: SlotKey;
        match self.free.pop() {
            Some(f) => {
                let slot = &mut self.slots[f as usize];
                let version = slot.version;
                slot.value = Some(v);
                k = SlotKey { idx: f, version };
            },
            None => {
                k = SlotKey { idx: self.slots.len() as u32, version: 0 };
                self.slots.push(Slot { version: 0, value: Some(v) });
            },
        }
        self.count = self.count + 1;
        proof {
            let s_old = old(self).slots@;
            let s_new = self.slots@;
            if old(self).free@.len() > 0 {
                assert(s_new =~= s_old.update(k.idx as int, s_new[k.idx as int]));
                lemma_occupied_count_update(s_old, k.idx as int, s_new[k.idx as int]);
            } else {
                assert(s_new.drop_last() =~= s_old);
            }
            assert(self.contents() =~= old(self).contents().insert(k, v));
        }
        k
    }

    /// Resolve `k` if it is still valid. A stale or foreign key yields
    /// `None`; it never resolves to an unrelated value.
    pub fn get(&self, k: SlotKey) -> (r: Option<&V>)
        ensures
            match r {
                Some(v) => self.live(k) && *v == self.contents()[k],
                None => !self.live(k),
            },
    {
        let i = k.idx as usize;
        if i < self.slots.len() {
            let slot = &self.slots[i];
            if slot.version == k.version {
                slot.value.as_ref()
            } else {
                None
            }
        } else {
            None
        }
    }

    /// Resolve `k` for in-place mutation of the stored value. Only the value
    /// behind `k` can change; keys, liveness and the population stay as they
    /// were.
    pub fn get_mut(&mut self, k: SlotKey) -> (r: Option<&mut V>)
        requires
            old(self).wf(),
        ensures
            match r {
                Some(v) => {
                    &&& old(self).live(k)
                    &&& *v == old(self).contents()[k]
                    &&& final(self).wf()
                    &&& final(self).contents() =~= old(self).contents().insert(k, *final(v))
                    &&& forall|k2: SlotKey| final(self).live(k2) <==> old(self).live(k2)
                    &&& forall|k2: SlotKey| final(self).dead(k2) <==> old(self).dead(k2)
                    &&& final(self).num_slots() == old(self).num_slots()
                    &&& final(self).next_key() == old(self).next_key()
                },
                None => {
                    &&& !old(self).live(k)
                    &&& *final(self) == *old(self)
                },
            },
    {
        let i = k.idx as usize;
        if i < self.slots.len() {
            let hit = {
                let slot = &self.slots[i];
                slot.version == k.version && slot.value.is_some()
            };
            if hit {
                proof {
                    assert forall|sl: Slot<V>|
                        occupied_count(#[trigger] self.slots@.update(i as int, sl))
                            == occupied_count(self.slots@) + (if sl.value is Some {
                            1int
                        } else {
                            0int
                        }) - 1int by {
                        lemma_occupied_count_update(self.slots@, i as int, sl);
                    };
                }
                let slot = &mut self.slots[i];
                match &mut slot.value {
                    Some(v) => Some(v),
                    None => None,
                }
            } else {
                None
            }
        } else {
            None
        }
    }

    /// Remove the value behind `k` and return it. On success `k` becomes dead
    /// for good: it will never resolve again and will never be issued again.
    pub fn remove(&mut self, k: SlotKey) -> (r: Option<V>)
        requires
            old(self).wf(),
        ensures
            final(self).wf(),
            final(self).num_slots() == old(self).num_slots(),
            match r {
                Some(v) => {
                    &&& old(self).live(k)
                    &&& v == old(self).contents()[k]
                    &&& final(self).dead(k)
                    &&& final(self).contents() == old(self).contents().remove(k)
                    &&& forall|k2: SlotKey| old(self).live(k2) && k2 != k ==> final(self).live(k2)
                    &&& forall|k2: SlotKey| old(self).dead(k2) ==> final(self).dead(k2)
                },
                None => {
                    &&& !old(self).live(k)
                    &&& *final(self) == *old(self)
                },
            },
    {
        let i = k.idx as usize;
        if i < self.slots.len() {
            let found = {
                let slot = &self.slots[i];
                slot.version == k.version && slot.value.is_some()
            };
            if found {
                proof {
                    lemma_occupied_count_at(self.slots@, i as int);
                }
                let slot = &mut self.slots[i];
                let mut taken: Option<V> = None;
                core::mem::swap(&mut slot.value, &mut taken);
                slot.version = slot.version + 1;
                let new_version = slot.version;
                if new_version < u32::MAX {
                    self.free.push(k.idx);
                }
                self.count = self.count - 1;
                proof {
                    let s_old = old(self).slots@;
                    let s_new = self.slots@;
                    assert(s_new =~= s_old.update(k.idx as int, s_new[k.idx as int]));
                    lemma_occupied_count_update(s_old, k.idx as int, s_new[k.idx as int]);
                    assert(self.contents() =~= old(self).contents().remove(k));
                }
                match taken {
                    Some(v) => Some(v),
                    None => None,  // unreachable: the slot was checked occupied
                }
            } else {
                None
            }
        } else {
            None
        }
    }

    /// Every currently-valid key, each exactly once, in slot order.
    pub fn keys(&self) -> (r: Vec<SlotKey>)
        requires
            self.wf(),
        ensures
            r@.no_duplicates(),
            forall|j: int| 0 <= j < r@.len() ==> self.live(#[trigger] r@[j]),
            forall|k: SlotKey| self.live(k) ==> r@.contains(k),
            r@.len() == self.contents().dom().len(),
    {
        let mut r: Vec<SlotKey> = Vec::new();
        let mut i: usize = 0;
        while i < self.slots.len()
            invariant
                self.wf(),
                i <= self.slots@.len(),
                forall|j: int|
                    0 <= j < r@.len() ==> self.live(#[trigger] r@[j]) && (r@[j].idx as int) < i,
                forall|k: SlotKey| self.live(k) && (k.idx as int) < i ==> r@.contains(k),
                forall|j1: int, j2: int| 0 <= j1 < j2 < r@.len() ==> r@[j1].idx != r@[j2].idx,
            decreases self.slots@.len() - i,
        {
            let slot = &self.slots[i];
            if slot.value.is_some() {
                let k = SlotKey { idx: i as u32, version: slot.version };
                let ghost prev = r@;
                r.push(k);
                proof {
                    assert forall|k2: SlotKey|
                        self.live(k2) && (k2.idx as int) < i + 1 implies r@.contains(k2) by {
                        if (k2.idx as int) < i {
                            let j = choose|j: int| 0 <= j < prev.len() && prev[j] == k2;
                            assert(r@[j] == k2);
                        } else {
                            assert(k2 == k);
                            assert(r@[r@.len() - 1] == k);
                        }
                    };
                }
            }
            i = i + 1;
        }
        proof {
            assert(r@.no_duplicates());
            self.lemma_card_internal();
            lemma_live_set_card(self.slots@);
            assert(r@.to_set() =~= live_set(self.slots@));
            r@.unique_seq_to_set();
            assert(self.contents().dom() =~= live_set(self.slots@));
        }
        r
    }
}

/// Updating one slot changes the occupied count by the difference at that
/// slot alone.
proof fn lemma_occupied_count_update<V>(s: Seq<Slot<V>>, i: int, slot: Slot<V>)
    requires
        0 <= i < s.len(),
    ensures
        occupied_count(s.update(i, slot)) == occupied_count(s) + (if slot.value is Some {
            1int
        } else {
            0int
        }) - (if s[i].value is Some {
            1int
        } else {
            0int
        }),
    decreases s.len(),
{
    let s2 = s.update(i, slot);
    if i == s.len() - 1 {
        assert(s2.drop_last() =~= s.drop_last());
    } else {
        assert(s2.drop_last() =~= s.drop_last().update(i, slot));
        lemma_occupied_count_update(s.drop_last(), i, slot);
    }
}

/// An occupied slot contributes to the occupied count.
proof fn lemma_occupied_count_at<V>(s: Seq<Slot<V>>, i: int)
    requires
        0 <= i < s.len(),
        s[i].value is Some,
    ensures
        occupied_count(s) >= 1,
    decreases s.len(),
{
    if i < s.len() - 1 {
        lemma_occupied_count_at(s.drop_last(), i);
    }
}

} // verus!
