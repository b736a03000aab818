//! The pool whose free list is a stack with a bare head index.
//!
//! The head and the per-slot links are read and written one cell at a time:
//! a load, a store, or a compare-and-exchange.  Allocation pops the head slot
//! with one exchange; release pushes the slot back with one store and one
//! exchange.  Both retry when the exchange finds another head than the one
//! they read.
//!
//! [`Allocator`] is the pool in the hands of one owner, who finds every head
//! as it was read.  [`cells`] holds the same free list in atomics, for
//! threads that share it, and [`interleaving`] proves what such threads can
//! and cannot do to it.

pub mod cells;
pub mod interleaving;

use crate::align128::Align128;
use crate::chain::{lemma_fresh_linked, lemma_linked_frame, lemma_linked_pop, lemma_linked_push};
use crate::chain::{fresh_links, linked, slot_of, INVALID_INDEX};
use crate::error::{check_capacity, PoolError};
use crate::view::PoolView;
use vstd::prelude::*;

verus! {

/// One storage cell: the link to the next free slot, and room for one value.
pub struct Slot<T> {
    pub next: Align128<isize>,
    pub data: Option<T>,
}

impl<T> Slot<T> {
    /// A cell without a value, linked to `next`.
    pub fn empty(next: isize) -> (slot: Self)
        ensures
            slot.next.0 == next,
            slot.data is None,
    {
        Self { next: Align128(next), data: None }
    }
}

/// The cells that the free list lives in: the head, and one link per slot.
pub struct Memory {
    pub free: int,
    pub next: Seq<int>,
}

impl Memory {
    /// The cells of a pool that was just built.
    pub open spec fn fresh(capacity: nat) -> Memory {
        Memory { free: 0, next: fresh_links(capacity) }
    }

    /// The cells after `link` was stored as the link of slot `index`.
    pub open spec fn store_next(self, index: int, link: int) -> Memory {
        Memory { free: self.free, next: self.next.update(index, link) }
    }

    /// Whether an exchange that expects `current` as the head goes through.
    pub open spec fn exchanges(self, current: int) -> bool {
        self.free == current
    }

    /// The cells after an allocation that nothing interfered with: the head
    /// has moved on to the link of the slot that it named.
    pub open spec fn pop(self) -> Memory {
        self.exchange(self.free, self.next[self.free])
    }

    /// The cells after a release of slot `index` that nothing interfered
    /// with: the slot is linked to the old head, and the head names it.
    pub open spec fn push(self, index: int) -> Memory {
        self.store_next(index, self.free).exchange(self.free, index)
    }

    /// The cells after an exchange of the head from `current` to `new` was
    /// tried.
    pub open spec fn exchange(self, current: int, new: int) -> Memory {
        if self.exchanges(current) {
            Memory { free: new, next: self.next }
        } else {
            self
        }
    }
}

/// An owned handle to one filled slot of an [`Allocator`].
pub struct Box<T> {
    index: usize,
    marker: core::marker::PhantomData<T>,
}

impl<T> Box<T> {
    /// The slot that this handle names.
    pub closed spec fn slot(&self) -> int {
        self.index as int
    }

    /// The slot that this handle names.
    pub fn index(&self) -> (index: usize)
        ensures
            index == self.slot(),
    {
        self.index
    }

    /// Read access to the value in this handle's slot.
    pub fn deref<'a>(&self, allocator: &'a Allocator<T>) -> (value: &'a T)
        requires
            allocator.wf(),
            allocator@.is_live(self.slot()),
        ensures
            allocator@.slots[self.slot()] == Some(*value),
    {
        allocator.get_ref(self.index)
    }

    /// Write access to the value in this handle's slot.  What the caller
    /// leaves behind the reference is what the slot holds afterwards;
    /// nothing else changes.
    pub fn deref_mut<'a>(&mut self, allocator: &'a mut Allocator<T>) -> (value: &'a mut T)
        requires
            old(allocator).wf(),
            old(allocator)@.is_live(old(self).slot()),
        ensures
            final(self).slot() == old(self).slot(),
            old(allocator)@.slots[old(self).slot()] == Some(*value),
            final(allocator).wf(),
            final(allocator)@ == old(allocator)@.write(old(self).slot(), *final(value)),
            final(allocator).memory() == old(allocator).memory(),
    {
        allocator.get_mut(self.index)
    }

    /// Gives the slot back: its value is destroyed, and the slot becomes
    /// the first in line to be handed out again.
    pub fn drop(self, allocator: &mut Allocator<T>)
        requires
            old(allocator).wf(),
            old(allocator)@.is_live(self.slot()),
        ensures
            final(allocator).wf(),
            final(allocator)@ == old(allocator)@.release(self.slot()),
            final(allocator).memory() == old(allocator).memory().push(self.slot()),
    {
        proof {
            old(allocator)@.lemma_release_partitioned(self.slot());
        }
        allocator.drop_in_place(self.index);
        allocator.deallocate(self.index);
    }
}

/// A pool of a fixed number of slots.
pub struct Allocator<T> {
    storage: Vec<Slot<T>>,
    free: isize,
    chain: Ghost<Seq<int>>,
}

impl<T> View for Allocator<T> {
    type V = PoolView<T>;

    closed spec fn view(&self) -> PoolView<T> {
        PoolView {
            slots: Seq::new(self.storage@.len(), |i: int| self.storage@[i].data),
            free: self.chain@,
        }
    }
}

impl<T> Allocator<T> {
    /// The head and the links as they stand.
    pub closed spec fn memory(&self) -> Memory {
        Memory {
            free: self.free as int,
            next: Seq::new(self.storage@.len(), |i: int| self.storage@[i].next.0 as int),
        }
    }

    /// Following the links from the head visits the free slots in the order
    /// of the view.
    spec fn threaded(&self) -> bool {
        &&& 1 <= self.storage@.len() <= isize::MAX
        &&& linked(self.memory().next, self.memory().free, self.chain@)
    }

    /// The pool's invariant: following the links from the head visits the
    /// free slots in the order of the view, and every slot is either on that
    /// list or filled.
    pub closed spec fn wf(&self) -> bool {
        &&& self.threaded()
        &&& self@.partitioned()
    }

    /// In a well-formed pool every slot is either filled or on the free
    /// list, and the free list is what the links spell out from the head.
    pub proof fn lemma_partitioned(&self)
        requires
            self.wf(),
        ensures
            self@.partitioned(),
            1 <= self@.capacity() <= isize::MAX,
            self.memory().next.len() == self@.capacity(),
            linked(self.memory().next, self.memory().free, self@.free),
    {
    }

    fn load_free(&self) -> (head: isize)
        ensures
            head == self.memory().free,
    {
        self.free
    }

    fn load_next(&self, index: usize) -> (next: isize)
        requires
            index < self@.capacity(),
        ensures
            next == self.memory().next[index as int],
    {
        self.storage[index].next.0
    }

    fn store_next(&mut self, index: usize, next: isize)
        requires
            index < old(self)@.capacity(),
        ensures
            final(self).memory() == old(self).memory().store_next(index as int, next as int),
            final(self)@ == old(self)@,
    {
        self.storage[index].next.0 = next;
        assert(self.memory().next =~= old(self).memory().next.update(index as int, next as int));
        assert(self@.slots =~= old(self)@.slots);
    }

    fn compare_exchange_free(&mut self, current: isize, new: isize) -> (found: Result<
        isize,
        isize,
    >)
        ensures
            final(self).memory() == old(self).memory().exchange(current as int, new as int),
            final(self)@ == old(self)@,
            found == if old(self).memory().exchanges(current as int) {
                Ok::<isize, isize>(current)
            } else {
                Err::<isize, isize>(old(self).free)
            },
    {
        if self.free == current {
            self.free = new;
            Ok(current)
        } else {
            Err(self.free)
        }
    }

    /// Builds a pool of `capacity` free slots, slot 0 first in line.
    ///
    /// The capacity must be at least one, and small enough that the end
    /// marker differs from every index.
    pub fn new(capacity: usize) -> (made: Result<Self, PoolError>)
        ensures
            match made {
                Ok(pool) => {
                    &&& 1 <= capacity <= isize::MAX
                    &&& pool.wf()
                    &&& pool@ == PoolView::<T>::fresh(capacity as nat)
                    &&& pool.memory() == Memory::fresh(capacity as nat)
                },
                Err(error) => {
                    &&& error == PoolError::InvalidCapacity
                    &&& (capacity == 0 || capacity > isize::MAX)
                },
            },
    {
        if let Err(error) = check_capacity(capacity) {
            return Err(error);
        }
        let mut storage: Vec<Slot<T>> = Vec::with_capacity(capacity);
        let mut next: usize = 1;
        while next < capacity
            invariant
                1 <= next <= capacity <= isize::MAX,
                storage@.len() == next - 1,
                forall|i: int|
                    0 <= i < storage@.len() ==> (#[trigger] storage@[i]).next.0 == i + 1
                        && storage@[i].data is None,
            decreases capacity - next,
        {
            storage.push(Slot::empty(next as isize));
            next += 1;
        }
        storage.push(Slot::empty(INVALID_INDEX));
        let pool = Self { storage, free: 0, chain: Ghost(Seq::new(capacity as nat, |i: int| i)) };
        proof {
            lemma_fresh_linked(capacity as nat);
            assert(pool.memory().next =~= fresh_links(capacity as nat));
            assert(pool@.slots =~= PoolView::<T>::fresh(capacity as nat).slots);
            assert forall|i: int| 0 <= i < pool@.slots.len() implies pool@.free.contains(i) by {
                assert(pool@.free[i] == i);
            }
        }
        Ok(pool)
    }

    /// Whether the slot that `handle` names is a filled slot of this pool.
    pub fn holds(&self, handle: &Box<T>) -> (held: bool)
        ensures
            held == self@.is_live(handle.slot()),
    {
        handle.index < self.storage.len() && self.storage[handle.index].data.is_some()
    }

    /// Moves `value` into the first free slot and hands back the handle to
    /// it.  Fails, and changes nothing, exactly when no slot is free.
    pub fn box_it(&mut self, value: T) -> (made: Result<Box<T>, PoolError>)
        requires
            old(self).wf(),
        ensures
            final(self).wf(),
            match made {
                Ok(handle) => {
                    &&& !old(self)@.is_full()
                    &&& handle.slot() == old(self)@.free[0]
                    &&& final(self)@ == old(self)@.allocate(value)
                    &&& final(self).memory() == old(self).memory().pop()
                },
                Err(error) => {
                    &&& error == PoolError::ResourceExhausted
                    &&& old(self)@.is_full()
                    &&& final(self)@ == old(self)@
                    &&& final(self).memory() == old(self).memory()
                },
            },
    {
        let mut head = self.load_free();
        // With the pool to itself, the exchange finds the head that was
        // read, so the first round ends the loop one way or the other.
        loop
            invariant
                self.wf(),
                self@ == old(self)@,
                self.memory() == old(self).memory(),
                head == self.memory().free,
            decreases 0int,
        {
            let index = match slot_of(head, self.storage.len()) {
                Some(index) => index,
                None => {
                    return Err(PoolError::ResourceExhausted);
                },
            };
            let next = self.load_next(index);
            match self.compare_exchange_free(head, next) {
                Ok(_) => {
                    self.write(index, value);
                    proof {
                        lemma_linked_pop(old(self).memory().next, head as int, self.chain@);
                        self.chain = Ghost(self.chain@.skip(1));
                        old(self)@.lemma_allocate_partitioned(value);
                    }
                    return Ok(Box { index, marker: core::marker::PhantomData });
                },
                Err(new_head) => {
                    head = new_head;
                },
            }
        }
    }

    /// Puts `value` into the storage of slot `index`.
    fn write(&mut self, index: usize, value: T)
        requires
            index < old(self)@.capacity(),
        ensures
            final(self).memory() == old(self).memory(),
            final(self)@ == old(self)@.write(index as int, value),
    {
        self.storage[index].data = Some(value);
        assert(self.memory().next =~= old(self).memory().next);
        assert(self@.slots =~= old(self)@.write(index as int, value).slots);
    }

    fn get_ref(&self, index: usize) -> (value: &T)
        requires
            self@.is_live(index as int),
        ensures
            self@.slots[index as int] == Some(*value),
    {
        match &self.storage[index].data {
            Some(value) => value,
            None => unreached(),
        }
    }

    /// `after` is this pool with `value` in place of the value of slot
    /// `index`.
    spec fn rewritten(&self, after: &Self, index: int, value: T) -> bool {
        &&& after.free == self.free
        &&& after.chain == self.chain
        &&& after.storage@.len() == self.storage@.len()
        &&& after.storage@[index].data == Some(value)
        &&& after.storage@[index].next == self.storage@[index].next
        &&& forall|i: int|
            0 <= i < self.storage@.len() && i != index ==> after.storage@[i] == self.storage@[i]
    }

    proof fn lemma_rewritten(&self, after: &Self, index: int, value: T)
        requires
            self.wf(),
            self@.is_live(index),
            self.rewritten(after, index, value),
        ensures
            after.wf(),
            after@ == self@.write(index, value),
            after.memory() == self.memory(),
    {
        assert(after.memory().next =~= self.memory().next);
        assert(after@.slots =~= self@.write(index, value).slots);
    }

    fn get_mut(&mut self, index: usize) -> (value: &mut T)
        requires
            old(self).wf(),
            old(self)@.is_live(index as int),
        ensures
            old(self).rewritten(final(self), index as int, *final(value)),
            old(self)@.slots[index as int] == Some(*value),
            final(self).wf(),
            final(self)@ == old(self)@.write(index as int, *final(value)),
            final(self).memory() == old(self).memory(),
    {
        proof {
            let before = *self;
            assert forall|after: &Self, value: T| #[trigger]
                before.rewritten(after, index as int, value) implies after.wf() && after@
                == before@.write(index as int, value) && after.memory() == before.memory() by {
                before.lemma_rewritten(after, index as int, value);
            }
        }
        match &mut self.storage[index].data {
            Some(value) => value,
            None => unreached(),
        }
    }

    /// Destroys the value in slot `index`.  The slot is then neither filled
    /// nor on the free list.
    fn drop_in_place(&mut self, index: usize)
        requires
            old(self).wf(),
            old(self)@.is_live(index as int),
        ensures
            final(self).threaded(),
            final(self)@.slots == old(self)@.slots.update(index as int, None),
            final(self)@.free == old(self)@.free,
            final(self).memory() == old(self).memory(),
    {
        self.storage[index].data = None;
        assert(self.memory().next =~= old(self).memory().next);
        assert(self@.slots =~= old(self)@.slots.update(index as int, None));
    }

    /// Links slot `index`, which is not on the free list, in front of it.
    fn deallocate(&mut self, index: usize)
        requires
            old(self).threaded(),
            index < old(self)@.capacity(),
            !old(self)@.free.contains(index as int),
        ensures
            final(self).threaded(),
            final(self)@.slots == old(self)@.slots,
            final(self)@.free == seq![index as int] + old(self)@.free,
            final(self).memory() == old(self).memory().push(index as int),
    {
        let mut head = self.load_free();
        // With the pool to itself, the exchange finds the head that was
        // read, so the first round ends the loop.
        loop
            invariant
                old(self).threaded(),
                index < old(self)@.capacity(),
                !old(self)@.free.contains(index as int),
                self@ == old(self)@,
                self.memory().free == old(self).memory().free,
                self.memory().next.len() == old(self).memory().next.len(),
                forall|i: int|
                    0 <= i < self.memory().next.len() && i != index ==> self.memory().next[i] == old(
                        self,
                    ).memory().next[i],
                head == self.memory().free,
            decreases 0int,
        {
            self.store_next(index, head);
            match self.compare_exchange_free(head, index as isize) {
                Ok(_) => {
                    proof {
                        lemma_linked_frame(
                            old(self).memory().next,
                            self.memory().next,
                            head as int,
                            self.chain@,
                        );
                        lemma_linked_push(
                            self.memory().next,
                            head as int,
                            self.chain@,
                            index as int,
                        );
                        self.chain = Ghost(seq![index as int] + self.chain@);
                        assert(self.memory().next =~= old(self).memory().push(index as int).next);
                    }
                    return ;
                },
                Err(new_head) => {
                    head = new_head;
                },
            }
        }
    }
}

} // verus!
