//! One pool presented as several independent shards.
//!
//! Every shard is a pool of its own with its own free list.  A thread asks
//! for a proxy, which binds it to the shard that the fewest proxies are bound
//! to, and then allocates through the proxy from that shard only: a shard
//! that is full fails the allocation even while other shards have room.

use crate::error::{check_capacity, PoolError};
use crate::lockfree;
use crate::usage::{assign, counts_of, lock_table, new_table, table_shards, unassign, UsageTable};
use crate::view::PoolView;
use vstd::prelude::*;

verus! {

/// A proxy bound to one shard of an [`Allocator`].
pub struct AllocatorRef {
    index: usize,
}

impl AllocatorRef {
    /// The shard that this proxy is bound to.
    pub closed spec fn shard(&self) -> int {
        self.index as int
    }

    /// The shard that this proxy is bound to.
    pub fn index(&self) -> (index: usize)
        ensures
            index == self.shard(),
    {
        self.index
    }

    /// Allocates from the shard that this proxy is bound to.
    pub fn box_it<T>(&self, allocator: &mut Allocator<T>, value: T) -> (made: Result<
        Box<T>,
        PoolError,
    >)
        requires
            old(allocator).wf(),
        ensures
            final(allocator).wf(),
            match made {
                Ok(handle) => {
                    &&& !old(allocator)@.is_full(self.shard())
                    &&& handle.shard() == self.shard()
                    &&& handle.slot() == old(allocator)@.shards[self.shard()].free[0]
                    &&& final(allocator)@ == old(allocator)@.allocate(self.shard(), value)
                },
                Err(error) => {
                    &&& error == PoolError::ResourceExhausted
                    &&& old(allocator)@.is_full(self.shard())
                    &&& final(allocator)@ == old(allocator)@
                },
            },
    {
        allocator.box_it_with_index(value, self.index)
    }

    /// Gives the proxy back: with the usage table locked, the count of its
    /// shard goes down by one.
    pub fn drop<T>(self, allocator: &Allocator<T>) {
        let mut guard = lock_table(&allocator.indices);
        let _ = unassign(counts_of(&mut guard), self.index);
    }
}

/// An owned handle to one filled slot of one shard of an [`Allocator`].
pub struct Box<T> {
    shard: usize,
    inner: lockfree::Box<T>,
}

impl<T> Box<T> {
    /// The shard that the slot belongs to.
    pub closed spec fn shard(&self) -> int {
        self.shard as int
    }

    /// The slot, counted within its shard.
    pub closed spec fn slot(&self) -> int {
        self.inner.slot()
    }

    /// Read access to the value in this handle's slot.
    pub fn deref<'a>(&self, allocator: &'a Allocator<T>) -> (value: &'a T)
        requires
            allocator.wf(),
            allocator@.is_live(self.shard(), self.slot()),
        ensures
            allocator@.shards[self.shard()].slots[self.slot()] == Some(*value),
    {
        self.inner.deref(&allocator.shards[self.shard])
    }

    /// Write access to the value in this handle's slot.  What the caller
    /// leaves behind the reference is what the slot holds afterwards;
    /// nothing else changes.
    pub fn deref_mut<'a>(&mut self, allocator: &'a mut Allocator<T>) -> (value: &'a mut T)
        requires
            old(allocator).wf(),
            old(allocator)@.is_live(old(self).shard(), old(self).slot()),
        ensures
            final(self).shard() == old(self).shard(),
            final(self).slot() == old(self).slot(),
            old(allocator)@.shards[old(self).shard()].slots[old(self).slot()] == Some(*value),
            final(allocator).wf(),
            final(allocator)@ == old(allocator)@.write(
                old(self).shard(),
                old(self).slot(),
                *final(value),
            ),
    {
        allocator.get_mut(&mut self.inner, self.shard)
    }

    /// Gives the slot back to its shard: its value is destroyed, and the
    /// slot becomes the first of its shard to be handed out again.
    pub fn drop(self, allocator: &mut Allocator<T>)
        requires
            old(allocator).wf(),
            old(allocator)@.is_live(self.shard(), self.slot()),
        ensures
            final(allocator).wf(),
            final(allocator)@ == old(allocator)@.release(self.shard(), self.slot()),
    {
        let Box { shard, inner } = self;
        inner.drop(&mut allocator.shards[shard]);
        assert(allocator@.shards =~= old(allocator)@.release(shard as int, inner.slot()).shards);
    }
}

/// The mathematical content of a sharded pool: the content of every shard.
pub struct ShardsView<T> {
    pub shards: Seq<PoolView<T>>,
}

impl<T> ShardsView<T> {
    /// Slot `slot` of shard `shard` exists and is filled.
    pub open spec fn is_live(self, shard: int, slot: int) -> bool {
        0 <= shard < self.shards.len() && self.shards[shard].is_live(slot)
    }

    /// Shard `shard` does not exist or has no free slot.
    pub open spec fn is_full(self, shard: int) -> bool {
        !(0 <= shard < self.shards.len()) || self.shards[shard].is_full()
    }

    /// The pool after `value` went into the first free slot of shard
    /// `shard`.
    pub open spec fn allocate(self, shard: int, value: T) -> Self
        recommends
            !self.is_full(shard),
    {
        ShardsView { shards: self.shards.update(shard, self.shards[shard].allocate(value)) }
    }

    /// The pool after slot `slot` of shard `shard` was given back.
    pub open spec fn release(self, shard: int, slot: int) -> Self {
        ShardsView { shards: self.shards.update(shard, self.shards[shard].release(slot)) }
    }

    /// The pool after `value` was stored in the filled slot `slot` of shard
    /// `shard`.
    pub open spec fn write(self, shard: int, slot: int, value: T) -> Self {
        ShardsView { shards: self.shards.update(shard, self.shards[shard].write(slot, value)) }
    }
}

/// A pool of a fixed number of slots, split into shards.
pub struct Allocator<T> {
    shards: Vec<lockfree::Allocator<T>>,
    indices: UsageTable,
}

impl<T> View for Allocator<T> {
    type V = ShardsView<T>;

    closed spec fn view(&self) -> ShardsView<T> {
        ShardsView { shards: Seq::new(self.shards@.len(), |i: int| self.shards@[i]@) }
    }
}

impl<T> Allocator<T> {
    /// The number of shards that the usage table counts proxies for.  In a
    /// well-formed pool that is the number of shards.
    pub closed spec fn shard_count(&self) -> nat {
        table_shards(self.indices)
    }

    /// The pool's invariant: there is a shard, every shard is well formed,
    /// and the usage table has one count per shard.
    pub closed spec fn wf(&self) -> bool {
        &&& 1 <= self.shards@.len() <= isize::MAX
        &&& forall|i: int| 0 <= i < self.shards@.len() ==> (#[trigger] self.shards@[i]).wf()
        &&& self.shard_count() == self.shards@.len()
    }

    /// In a well-formed pool every shard is partitioned, and the usage table
    /// has one count per shard.
    pub proof fn lemma_partitioned(&self)
        requires
            self.wf(),
        ensures
            1 <= self@.shards.len() <= isize::MAX,
            self.shard_count() == self@.shards.len(),
            forall|i: int| 0 <= i < self@.shards.len() ==> (#[trigger] self@.shards[i]).partitioned(),
    {
        assert forall|i: int| 0 <= i < self@.shards.len() implies (
        #[trigger] self@.shards[i]).partitioned() by {
            self.shards@[i].lemma_partitioned();
        }
    }

    /// `after` is this pool with `shard` in place of shard `index`.
    spec fn reshaped(&self, after: &Self, index: int, shard: lockfree::Allocator<T>) -> bool {
        &&& after.indices == self.indices
        &&& after.shards@.len() == self.shards@.len()
        &&& after.shards@[index] == shard
        &&& forall|i: int|
            0 <= i < self.shards@.len() && i != index ==> after.shards@[i] == self.shards@[i]
    }

    proof fn lemma_reshaped(&self, after: &Self, index: int, shard: lockfree::Allocator<T>)
        requires
            self.wf(),
            0 <= index < self.shards@.len(),
            self.reshaped(after, index, shard),
            shard.wf(),
        ensures
            after.wf(),
            after@.shards == self@.shards.update(index, shard@),
    {
        assert(after@.shards =~= self@.shards.update(index, shard@));
    }

    fn get_mut<'a>(&'a mut self, handle: &mut lockfree::Box<T>, shard: usize) -> (value: &'a mut T)
        requires
            old(self).wf(),
            old(self)@.is_live(shard as int, old(handle).slot()),
        ensures
            final(handle).slot() == old(handle).slot(),
            old(self).reshaped(final(self), shard as int, final(self).shards@[shard as int]),
            old(self)@.shards[shard as int].slots[old(handle).slot()] == Some(*value),
            final(self).wf(),
            final(self)@ == old(self)@.write(shard as int, old(handle).slot(), *final(value)),
    {
        proof {
            let before = *self;
            assert forall|after: &Self, part: lockfree::Allocator<T>| #[trigger]
                before.reshaped(after, shard as int, part) && part.wf() implies after.wf()
                && after@.shards == before@.shards.update(shard as int, part@) by {
                before.lemma_reshaped(after, shard as int, part);
            }
        }
        handle.deref_mut(&mut self.shards[shard])
    }

    /// Builds a pool of `capacity` slots: one shard per slot, each shard a
    /// pool of a single free slot, and no proxy bound to any of them.
    ///
    /// The capacity must be at least one and no more than the largest index
    /// that a signed machine word can hold.
    pub fn new(capacity: usize) -> (made: Result<Self, PoolError>)
        ensures
            match made {
                Ok(pool) => {
                    &&& 1 <= capacity <= isize::MAX
                    &&& pool.wf()
                    &&& pool@.shards == Seq::new(
                        capacity as nat,
                        |i: int| PoolView::<T>::fresh(1),
                    )
                },
                Err(error) => {
                    &&& error == PoolError::InvalidCapacity
                    &&& (capacity == 0 || capacity > isize::MAX)
                },
            },
    {
        Self::with_shards(capacity, 1)
    }

    /// Builds a pool of `shards` shards of `slots` free slots each, and no
    /// proxy bound to any of them.
    ///
    /// Both numbers must be at least one and no more than the largest index
    /// that a signed machine word can hold.
    pub fn with_shards(shards: usize, slots: usize) -> (made: Result<Self, PoolError>)
        ensures
            match made {
                Ok(pool) => {
                    &&& 1 <= shards <= isize::MAX
                    &&& 1 <= slots <= isize::MAX
                    &&& pool.wf()
                    &&& pool@.shards == Seq::new(
                        shards as nat,
                        |i: int| PoolView::<T>::fresh(slots as nat),
                    )
                },
                Err(error) => {
                    &&& error == PoolError::InvalidCapacity
                    &&& (shards == 0 || shards > isize::MAX || slots == 0 || slots > isize::MAX)
                },
            },
    {
        if let Err(error) = check_capacity(shards) {
            return Err(error);
        }
        if let Err(error) = check_capacity(slots) {
            return Err(error);
        }
        let mut pools: Vec<lockfree::Allocator<T>> = Vec::with_capacity(shards);
        let mut indices: Vec<u16> = Vec::with_capacity(shards);
        while pools.len() < shards
            invariant
                pools@.len() <= shards <= isize::MAX,
                indices@.len() == pools@.len(),
                1 <= slots <= isize::MAX,
                forall|i: int|
                    0 <= i < pools@.len() ==> (#[trigger] pools@[i]).wf() && pools@[i]@
                        == PoolView::<T>::fresh(slots as nat),
            decreases shards - pools@.len(),
        {
            match lockfree::Allocator::new(slots) {
                Ok(pool) => pools.push(pool),
                Err(_) => unreached(),
            }
            indices.push(0);
        }
        let pool = Self { shards: pools, indices: new_table(indices) };
        assert(pool@.shards =~= Seq::new(
            shards as nat,
            |i: int| PoolView::<T>::fresh(slots as nat),
        ));
        Ok(pool)
    }

    /// Whether the slot that `handle` names is a filled slot of this pool.
    pub fn holds(&self, handle: &Box<T>) -> (held: bool)
        ensures
            held == self@.is_live(handle.shard(), handle.slot()),
    {
        handle.shard < self.shards.len() && self.shards[handle.shard].holds(&handle.inner)
    }

    /// Allocates from the first shard.
    pub fn box_it(&mut self, value: T) -> (made: Result<Box<T>, PoolError>)
        requires
            old(self).wf(),
        ensures
            final(self).wf(),
            match made {
                Ok(handle) => {
                    &&& !old(self)@.is_full(0)
                    &&& handle.shard() == 0
                    &&& handle.slot() == old(self)@.shards[0].free[0]
                    &&& final(self)@ == old(self)@.allocate(0, value)
                },
                Err(error) => {
                    &&& error == PoolError::ResourceExhausted
                    &&& old(self)@.is_full(0)
                    &&& final(self)@ == old(self)@
                },
            },
    {
        self.box_it_with_index(value, 0)
    }

    /// Moves `value` into the first free slot of shard `index` and hands
    /// back the handle to it.  Fails, and changes nothing, exactly when
    /// there is no such shard or the shard has no free slot.
    pub fn box_it_with_index(&mut self, value: T, index: usize) -> (made: Result<Box<T>, PoolError>)
        requires
            old(self).wf(),
        ensures
            final(self).wf(),
            match made {
                Ok(handle) => {
                    &&& !old(self)@.is_full(index as int)
                    &&& handle.shard() == index
                    &&& handle.slot() == old(self)@.shards[index as int].free[0]
                    &&& final(self)@ == old(self)@.allocate(index as int, value)
                },
                Err(error) => {
                    &&& error == PoolError::ResourceExhausted
                    &&& old(self)@.is_full(index as int)
                    &&& final(self)@ == old(self)@
                },
            },
    {
        if index >= self.shards.len() {
            return Err(PoolError::ResourceExhausted);
        }
        match self.shards[index].box_it(value) {
            Ok(inner) => {
                assert(self@.shards =~= old(self)@.shards.update(
                    index as int,
                    old(self)@.shards[index as int].allocate(value),
                ));
                Ok(Box { shard: index, inner })
            },
            Err(error) => {
                assert(self@.shards =~= old(self)@.shards);
                Err(error)
            },
        }
    }

    /// Binds the calling thread to the shard that the fewest proxies are
    /// bound to, the first of them if several are used equally little.
    ///
    /// With the usage table locked, [`assign`] picks the shard and counts
    /// the proxy.  There is no proxy to hand out when [`assign`] finds no
    /// shard with room.
    ///
    /// Whatever the table holds when the lock is acquired, a proxy that is
    /// handed out is bound to one of the shards that the table counts for.
    pub fn thread_local(&self) -> (proxy: Option<AllocatorRef>)
        ensures
            proxy matches Some(bound) ==> bound.shard() < self.shard_count(),
    {
        let mut guard = lock_table(&self.indices);
        match assign(counts_of(&mut guard)) {
            Some(index) => Some(AllocatorRef { index }),
            None => None,
        }
    }
}

} // verus!
