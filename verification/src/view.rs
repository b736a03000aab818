//! What a free-list pool holds, and the laws of its three operations.

use vstd::prelude::*;
use vstd::set_lib::{lemma_int_range, lemma_len_subset, lemma_set_disjoint_lens, set_int_range};

verus! {

/// The mathematical content of a free-list pool: what each slot holds, and
/// the order in which the free slots will be handed out.
pub struct PoolView<T> {
    /// `slots[i]` is `Some(v)` while slot `i` is filled with `v`, and `None`
    /// while it is free.
    pub slots: Seq<Option<T>>,
    /// The free slots, the next one to be handed out first.
    pub free: Seq<int>,
}

impl<T> PoolView<T> {
    /// A pool of `capacity` slots, none of them filled, handed out in
    /// ascending order.
    pub open spec fn fresh(capacity: nat) -> Self {
        PoolView {
            slots: Seq::new(capacity, |i: int| None::<T>),
            free: Seq::new(capacity, |i: int| i),
        }
    }

    /// The number of slots.
    pub open spec fn capacity(self) -> nat {
        self.slots.len()
    }

    /// Slot `i` exists and is filled.
    pub open spec fn is_live(self, i: int) -> bool {
        0 <= i < self.slots.len() && self.slots[i] is Some
    }

    /// The indices of the filled slots.
    pub open spec fn live(self) -> Set<int> {
        Set::new(|i: int| self.is_live(i))
    }

    /// No slot is free.
    pub open spec fn is_full(self) -> bool {
        self.free.len() == 0
    }

    /// The pool after `value` went into the first free slot.
    pub open spec fn allocate(self, value: T) -> Self
        recommends
            !self.is_full(),
    {
        PoolView {
            slots: self.slots.update(self.free[0], Some(value)),
            free: self.free.skip(1),
        }
    }

    /// The pool after slot `i` was given back: it is free again, and the
    /// first to be handed out.
    pub open spec fn release(self, i: int) -> Self
        recommends
            self.is_live(i),
    {
        PoolView { slots: self.slots.update(i, None), free: seq![i] + self.free }
    }

    /// The pool after `value` was stored in the filled slot `i`.
    pub open spec fn write(self, i: int, value: T) -> Self
        recommends
            self.is_live(i),
    {
        PoolView { slots: self.slots.update(i, Some(value)), free: self.free }
    }

    /// Every slot is either filled or listed as free, never both, and no
    /// slot is listed twice.
    pub open spec fn partitioned(self) -> bool {
        &&& self.free.no_duplicates()
        &&& forall|k: int| 0 <= k < self.free.len() ==> 0 <= #[trigger] self.free[k] < self.slots.len()
        &&& forall|i: int|
            0 <= i < self.slots.len() ==> (#[trigger] self.slots[i] is None <==> self.free.contains(i))
    }
}

/// A slot is listed in `free` without its first member exactly when it is
/// listed in `free` and is not that first member.
pub proof fn lemma_skip_first(free: Seq<int>, i: int)
    requires
        free.no_duplicates(),
        free.len() > 0,
    ensures
        free.skip(1).contains(i) <==> free.contains(i) && i != free[0],
        free.skip(1).no_duplicates(),
{
    let rest = free.skip(1);
    if rest.contains(i) {
        let k = choose|k: int| 0 <= k < rest.len() && rest[k] == i;
        assert(free[k + 1] == i);
    }
    if free.contains(i) && i != free[0] {
        let k = choose|k: int| 0 <= k < free.len() && free[k] == i;
        assert(rest[k - 1] == i);
    }
}

/// A slot is listed in `free` with `first` put in front exactly when it is
/// listed in `free` or is `first`.
pub proof fn lemma_put_first(free: Seq<int>, first: int, i: int)
    requires
        free.no_duplicates(),
        !free.contains(first),
    ensures
        (seq![first] + free).contains(i) <==> free.contains(i) || i == first,
        (seq![first] + free).no_duplicates(),
{
    let longer = seq![first] + free;
    assert(longer[0] == first);
    if longer.contains(i) && i != first {
        let k = choose|k: int| 0 <= k < longer.len() && longer[k] == i;
        assert(free[k - 1] == i);
    }
    if free.contains(i) {
        let k = choose|k: int| 0 <= k < free.len() && free[k] == i;
        assert(longer[k + 1] == i);
    }
    assert forall|a: int, b: int| 0 <= a < longer.len() && 0 <= b < longer.len() && a != b implies longer[a]
        != longer[b] by {
        if a > 0 {
            assert(longer[a] == free[a - 1]);
        }
        if b > 0 {
            assert(longer[b] == free[b - 1]);
        }
    }
}

impl<T> PoolView<T> {
    /// A pool that was just built is partitioned.
    pub proof fn lemma_fresh_partitioned(capacity: nat)
        ensures
            Self::fresh(capacity).partitioned(),
            Self::fresh(capacity).live() =~= Set::<int>::empty(),
    {
        let fresh = Self::fresh(capacity);
        assert forall|i: int| 0 <= i < fresh.slots.len() implies fresh.free.contains(i) by {
            assert(fresh.free[i] == i);
        }
    }

    /// An allocation that finds a free slot keeps the pool partitioned, and
    /// the slot it fills was free before.
    pub proof fn lemma_allocate_partitioned(self, value: T)
        requires
            self.partitioned(),
            !self.is_full(),
        ensures
            self.allocate(value).partitioned(),
            !self.is_live(self.free[0]),
            self.allocate(value).live() =~= self.live().insert(self.free[0]),
    {
        let after = self.allocate(value);
        let slot = self.free[0];
        assert(self.free.contains(slot));
        assert forall|i: int| 0 <= i < after.slots.len() implies (#[trigger] after.slots[i] is None
            <==> after.free.contains(i)) by {
            lemma_skip_first(self.free, i);
            assert(self.slots[i] is None <==> self.free.contains(i));
        }
        lemma_skip_first(self.free, slot);
        assert forall|k: int| 0 <= k < after.free.len() implies 0 <= #[trigger] after.free[k]
            < after.slots.len() by {
            assert(after.free[k] == self.free[k + 1]);
        }
        assert(self.slots[slot] is None);
    }

    /// A release keeps the pool partitioned, and makes room in it.
    pub proof fn lemma_release_partitioned(self, i: int)
        requires
            self.partitioned(),
            self.is_live(i),
        ensures
            self.release(i).partitioned(),
            !self.release(i).is_full(),
            self.release(i).live() =~= self.live().remove(i),
    {
        let after = self.release(i);
        assert(!self.free.contains(i)) by {
            assert(self.slots[i] is None <==> self.free.contains(i));
        }
        assert forall|j: int| 0 <= j < after.slots.len() implies (#[trigger] after.slots[j] is None
            <==> after.free.contains(j)) by {
            lemma_put_first(self.free, i, j);
            assert(self.slots[j] is None <==> self.free.contains(j));
        }
        lemma_put_first(self.free, i, i);
        assert forall|k: int| 0 <= k < after.free.len() implies 0 <= #[trigger] after.free[k]
            < after.slots.len() by {
            if k > 0 {
                assert(after.free[k] == self.free[k - 1]);
            }
        }
    }

    /// A write through a handle keeps the pool partitioned.
    pub proof fn lemma_write_partitioned(self, i: int, value: T)
        requires
            self.partitioned(),
            self.is_live(i),
        ensures
            self.write(i, value).partitioned(),
            self.write(i, value).live() =~= self.live(),
    {
        let after = self.write(i, value);
        assert forall|j: int| 0 <= j < after.slots.len() implies (#[trigger] after.slots[j] is None
            <==> after.free.contains(j)) by {
            assert(self.slots[j] is None <==> self.free.contains(j));
        }
    }

    /// In a partitioned pool the filled slots and the free slots add up to
    /// the capacity: there are never more filled slots than the pool has
    /// slots, and the pool is full exactly when every slot is filled.
    pub proof fn lemma_live_count(self)
        requires
            self.partitioned(),
        ensures
            self.live().finite(),
            self.live().len() + self.free.len() == self.capacity(),
            self.live().len() <= self.capacity(),
            self.is_full() <==> self.live().len() == self.capacity(),
    {
        let all = set_int_range(0, self.capacity() as int);
        let free = self.free.to_set();
        lemma_int_range(0, self.capacity() as int);
        assert(self.live().subset_of(all));
        lemma_len_subset(self.live(), all);
        self.free.unique_seq_to_set();
        assert(free.finite());
        assert(self.live().disjoint(free)) by {
            assert forall|i: int| self.live().contains(i) implies !free.contains(i) by {
                assert(self.slots[i] is None <==> self.free.contains(i));
            }
        }
        assert(self.live() + free =~= all) by {
            assert forall|i: int| all.contains(i) implies (self.live() + free).contains(i) by {
                assert(self.slots[i] is None <==> self.free.contains(i));
            }
            assert forall|i: int| free.contains(i) implies all.contains(i) by {
                let k = choose|k: int| 0 <= k < self.free.len() && self.free[k] == i;
                assert(0 <= self.free[k] < self.slots.len());
            }
        }
        lemma_set_disjoint_lens(self.live(), free);
    }

    /// A slot that was given back can be allocated again: the pool has
    /// room, and the next allocation fills that very slot.
    pub proof fn lemma_reclaimed(self, i: int, value: T)
        requires
            self.partitioned(),
            self.is_live(i),
        ensures
            !self.release(i).is_full(),
            self.release(i).free[0] == i,
            self.release(i).allocate(value).slots == self.slots.update(i, Some(value)),
            self.release(i).allocate(value).free == self.free,
    {
        let after = self.release(i).allocate(value);
        assert(after.slots =~= self.slots.update(i, Some(value)));
        assert(after.free =~= self.free);
    }
}

} // verus!
