//! A growable store of values addressed by stable slot indices.
//!
//! A value keeps the index it was given on insertion until it is removed.
//! Vacated slots are remembered and handed out again before the store grows.

use vstd::prelude::*;

verus! {

/// A reference to a slot, or nothing.
pub type Link = Option<usize>;

/// The link to the slot at position `k` of `order`, or nothing where `order`
/// has no such position.
pub open spec fn link_to(order: Seq<usize>, k: int) -> Link {
    if 0 <= k < order.len() {
        Some(order[k])
    } else {
        None
    }
}

/// Slot store. Its view is the map from occupied indices to the values held there.
pub struct Arena<N> {
    slots: Vec<Option<N>>,
    free: Vec<usize>,
}

impl<N> View for Arena<N> {
    type V = Map<usize, N>;

    closed spec fn view(&self) -> Map<usize, N> {
        Map::new(
            |i: usize| i < self.slots@.len() && self.slots@[i as int] is Some,
            |i: usize| self.slots@[i as int]->0,
        )
    }
}

/// The occupied slots among the first `n`.
spec fn occupied_below<N>(slots: Seq<Option<N>>, n: nat) -> Set<usize> {
    Set::new(|i: usize| i < n && slots[i as int] is Some)
}

/// The vacant slots among the first `n`.
spec fn vacant_below<N>(slots: Seq<Option<N>>, n: nat) -> Set<usize> {
    Set::new(|i: usize| i < n && slots[i as int] is None)
}

/// Each of the first `n` slots is either occupied or vacant.
proof fn lemma_count_slots<N>(slots: Seq<Option<N>>, n: nat)
    requires
        n <= slots.len() <= usize::MAX,
    ensures
        occupied_below(slots, n).finite(),
        vacant_below(slots, n).finite(),
        occupied_below(slots, n).len() + vacant_below(slots, n).len() == n,
    decreases n,
{
    if n == 0 {
        assert(occupied_below(slots, n) =~= Set::<usize>::empty());
        assert(vacant_below(slots, n) =~= Set::<usize>::empty());
    } else {
        let m = (n - 1) as nat;
        lemma_count_slots(slots, m);
        if slots[m as int] is Some {
            assert(occupied_below(slots, n) =~= occupied_below(slots, m).insert(m as usize));
            assert(vacant_below(slots, n) =~= vacant_below(slots, m));
        } else {
            assert(occupied_below(slots, n) =~= occupied_below(slots, m));
            assert(vacant_below(slots, n) =~= vacant_below(slots, m).insert(m as usize));
        }
    }
}

impl<N> Arena<N> {
    /// The free list names every vacant slot exactly once, and nothing else.
    pub closed spec fn well_formed(&self) -> bool {
        &&& self.free@.no_duplicates()
        &&& forall|k: int|
            0 <= k < self.free@.len() ==> {
                &&& (#[trigger] self.free@[k]) < self.slots@.len()
                &&& self.slots@[self.free@[k] as int] is None
            }
        &&& forall|i: usize|
            i < self.slots@.len() && self.slots@[i as int] is None
                ==> #[trigger] self.free@.contains(i)
    }

    /// Number of slots the store has allocated so far, occupied or vacant.
    pub closed spec fn slot_count(&self) -> nat {
        self.slots@.len()
    }

    /// Number of vacant slots awaiting reuse.
    pub closed spec fn vacant_count(&self) -> nat {
        self.free@.len()
    }

    /// Returns a store without slots.
    pub fn new() -> (arena: Self)
        ensures
            arena.well_formed(),
            arena@ == Map::<usize, N>::empty(),
            arena.slot_count() == 0,
            arena.vacant_count() == 0,
    {
        let arena = Arena { slots: Vec::new(), free: Vec::new() };
        assert(arena@ =~= Map::<usize, N>::empty());
        arena
    }

    /// Stores `node` in a vacant slot, growing the store only when none is vacant,
    /// and returns the slot's index.
    pub fn insert(&mut self, node: N) -> (i: usize)
        requires
            old(self).well_formed(),
        ensures
            final(self).well_formed(),
            !old(self)@.dom().contains(i),
            i < final(self).slot_count(),
            final(self)@ == old(self)@.insert(i, node),
            old(self).vacant_count() > 0 ==> {
                &&& final(self).slot_count() == old(self).slot_count()
                &&& final(self).vacant_count() == old(self).vacant_count() - 1
            },
            old(self).vacant_count() == 0 ==> {
                &&& final(self).slot_count() == old(self).slot_count() + 1
                &&& final(self).vacant_count() == 0
            },
    {
        let i = match self.free.pop() {
            Some(i) => {
                self.slots[i] = Some(node);
                i
            },
            None => {
                self.slots.push(Some(node));
                self.slots.len() - 1
            },
        };
        proof {
            let free_before = old(self).free@;
            assert forall|j: usize| j < self.slots@.len() && self.slots@[j as int] is None
            implies #[trigger] self.free@.contains(j) by {
                assert(free_before.contains(j));
                let k = choose|k: int| 0 <= k < free_before.len() && free_before[k] == j;
                assert(self.free@[k] == j);
            }
            assert(self@ =~= old(self)@.insert(i, node));
        }
        i
    }

    /// Takes the value out of slot `i` and marks the slot vacant.
    pub fn remove(&mut self, i: usize) -> (node: N)
        requires
            old(self).well_formed(),
            old(self)@.dom().contains(i),
        ensures
            final(self).well_formed(),
            node == old(self)@[i],
            final(self)@ == old(self)@.remove(i),
            final(self).slot_count() == old(self).slot_count(),
            final(self).vacant_count() == old(self).vacant_count() + 1,
    {
        let node = self.slots[i].take().unwrap();
        self.free.push(i);
        proof {
            let free_before = old(self).free@;
            assert forall|j: usize| j < self.slots@.len() && self.slots@[j as int] is None
            implies #[trigger] self.free@.contains(j) by {
                if j == i {
                    assert(self.free@[free_before.len() as int] == i);
                } else {
                    assert(free_before.contains(j));
                    let k = choose|k: int| 0 <= k < free_before.len() && free_before[k] == j;
                    assert(self.free@[k] == j);
                }
            }
            assert(self@ =~= old(self)@.remove(i));
        }
        node
    }

    /// Shared access to the value in slot `i`.
    pub fn get(&self, i: usize) -> (node: &N)
        requires
            self@.dom().contains(i),
        ensures
            *node == self@[i],
    {
        self.slots[i].as_ref().unwrap()
    }

    /// Exclusive access to the value in slot `i`; the slot keeps whatever the
    /// caller leaves behind the returned reference.
    pub fn get_mut(&mut self, i: usize) -> (node: &mut N)
        requires
            old(self).well_formed(),
            old(self)@.dom().contains(i),
        ensures
            *node == old(self)@[i],
            final(self).well_formed(),
            final(self)@ == old(self)@.insert(i, *final(node)),
            final(self).slot_count() == old(self).slot_count(),
            final(self).vacant_count() == old(self).vacant_count(),
    {
        let node = self.slots[i].as_mut().unwrap();
        node
    }

    /// Every slot is either occupied or vacant: no slot is lost, and the
    /// occupied ones all lie below the slot count.
    pub proof fn lemma_every_slot_accounted_for(&self)
        requires
            self.well_formed(),
        ensures
            self@.dom().finite(),
            self@.dom().len() + self.vacant_count() == self.slot_count(),
            forall|i: usize| self@.dom().contains(i) ==> i < self.slot_count(),
    {
        let slots = self.slots@;
        let free = self.free@;
        assert(slots.len() == self.slots.len());
        lemma_count_slots(slots, slots.len());
        assert(self@.dom() =~= occupied_below(slots, slots.len()));
        assert(free.to_set() =~= vacant_below(slots, slots.len()));
        free.unique_seq_to_set();
    }
}

} // verus!
