//! The pool whose free list sits behind one lock.
//!
//! A single lock guards the head of the free list; every slot has a lock of
//! its own, which the handle to the slot holds for as long as it lives.  The
//! order of acquisition is always the head first, then the slot.

use crate::chain::{lemma_fresh_linked, lemma_linked_frame, lemma_linked_pop, lemma_linked_push};
use crate::chain::{fresh_links, linked, INVALID_INDEX};
use crate::error::{check_capacity, PoolError};
use crate::mutex::{Mutex, MutexGuard};
use crate::view::PoolView;
use vstd::prelude::*;

verus! {

/// What a slot is: filled with a value, or free and linked to the next free
/// slot.
pub enum SlotInner<T> {
    Filled(T),
    Empty(isize),
}

/// One storage cell behind its own lock.
pub struct Slot<T> {
    inner: Mutex<SlotInner<T>>,
}

impl<T> View for Slot<T> {
    type V = SlotInner<T>;

    closed spec fn view(&self) -> SlotInner<T> {
        self.inner@
    }
}

impl<T> Slot<T> {
    /// Whether the slot's lock is taken.
    pub closed spec fn is_locked(&self) -> bool {
        self.inner.is_locked()
    }

    /// The link of a free slot; the end marker for a filled one.
    pub open spec fn link(&self) -> int {
        match self@ {
            SlotInner::Empty(next) => next as int,
            SlotInner::Filled(_) => INVALID_INDEX as int,
        }
    }

    /// The value of a filled slot.
    pub open spec fn content(&self) -> Option<T> {
        match self@ {
            SlotInner::Empty(_) => None,
            SlotInner::Filled(value) => Some(value),
        }
    }

    /// Whether the slot is taken.  The slot's lock says so: a handle holds
    /// it for as long as the slot is filled.
    fn is_filled(&self) -> (filled: bool)
        ensures
            filled == self.is_locked(),
    {
        self.inner.is_taken()
    }

    /// A free, unlocked slot linked to `next_free_slot_index`.
    pub fn new(next_free_slot_index: isize) -> (slot: Self)
        ensures
            slot@ == SlotInner::<T>::Empty(next_free_slot_index),
            !slot.is_locked(),
    {
        Self { inner: Mutex::new(SlotInner::Empty(next_free_slot_index)) }
    }
}

/// An owned handle to one filled slot of an [`Allocator`].  It holds the
/// lock of that slot.
pub struct Box<T> {
    inner: MutexGuard<SlotInner<T>>,
    index: usize,
}

impl<T> Box<T> {
    /// The slot that this handle names.
    pub closed spec fn slot(&self) -> int {
        self.index as int
    }

    /// The slot that this handle names.
    pub fn index(&self) -> (index: usize)
        ensures
            index == self.slot(),
    {
        self.index
    }

    /// Read access to the value in this handle's slot.
    pub fn deref<'a>(&self, allocator: &'a Allocator<T>) -> (value: &'a T)
        requires
            allocator.wf(),
            allocator@.is_live(self.slot()),
        ensures
            allocator@.slots[self.slot()] == Some(*value),
    {
        match self.inner.deref(&allocator.storage[self.index].inner) {
            SlotInner::Filled(value) => value,
            SlotInner::Empty(_) => unreached(),
        }
    }

    /// Write access to the value in this handle's slot.  What the caller
    /// leaves behind the reference is what the slot holds afterwards;
    /// nothing else changes.
    pub fn deref_mut<'a>(&mut self, allocator: &'a mut Allocator<T>) -> (value: &'a mut T)
        requires
            old(allocator).wf(),
            old(allocator)@.is_live(old(self).slot()),
        ensures
            final(self).slot() == old(self).slot(),
            old(allocator)@.slots[old(self).slot()] == Some(*value),
            final(allocator).wf(),
            final(allocator)@ == old(allocator)@.write(old(self).slot(), *final(value)),
    {
        allocator.get_mut(&mut self.inner, self.index)
    }

    /// Gives the slot back: under the head lock the slot becomes free and
    /// linked to the old head, and the head comes to name it; then both
    /// locks are released.  The slot is the first in line to be handed out
    /// again.
    pub fn drop(self, allocator: &mut Allocator<T>)
        requires
            old(allocator).wf(),
            old(allocator)@.is_live(self.slot()),
        ensures
            final(allocator).wf(),
            final(allocator)@ == old(allocator)@.release(self.slot()),
    {
        let Box { mut inner, index } = self;
        let mut free_guard = match allocator.free.try_lock() {
            Some(guard) => guard,
            None => unreached(),
        };
        let head = *free_guard.deref(&allocator.free);
        *inner.deref_mut(&mut allocator.storage[index].inner) = SlotInner::Empty(head);
        *free_guard.deref_mut(&mut allocator.free) = index as isize;
        inner.drop(&mut allocator.storage[index].inner);
        free_guard.drop(&mut allocator.free);
        proof {
            let chain = allocator.chain@;
            old(allocator)@.lemma_release_partitioned(index as int);
            lemma_linked_frame(old(allocator).links(), allocator.links(), head as int, chain);
            lemma_linked_push(allocator.links(), head as int, chain, index as int);
            allocator.chain = Ghost(seq![index as int] + chain);
            assert(allocator@.slots =~= old(allocator)@.release(index as int).slots);
        }
    }
}

/// A pool of a fixed number of slots.
pub struct Allocator<T> {
    storage: Vec<Slot<T>>,
    free: Mutex<isize>,
    chain: Ghost<Seq<int>>,
}

impl<T> View for Allocator<T> {
    type V = PoolView<T>;

    closed spec fn view(&self) -> PoolView<T> {
        PoolView {
            slots: Seq::new(self.storage@.len(), |i: int| self.storage@[i].content()),
            free: self.chain@,
        }
    }
}

impl<T> Allocator<T> {
    /// The index that the head names, or the end marker.
    pub closed spec fn head(&self) -> int {
        self.free@ as int
    }

    /// The link of every slot.
    pub closed spec fn links(&self) -> Seq<int> {
        Seq::new(self.storage@.len(), |i: int| self.storage@[i].link())
    }

    /// The pool's invariant: following the links from the head visits the
    /// free slots in the order of the view; every slot is either on that
    /// list or filled; a slot's lock is held exactly while it is filled; and
    /// the head lock is free.
    pub closed spec fn wf(&self) -> bool {
        &&& 1 <= self.storage@.len() <= isize::MAX
        &&& !self.free.is_locked()
        &&& linked(self.links(), self.head(), self.chain@)
        &&& self@.partitioned()
        &&& forall|i: int|
            0 <= i < self.storage@.len() ==> ((#[trigger] self.storage@[i]).is_locked()
                <==> self.storage@[i]@ is Filled)
    }

    /// In a well-formed pool every slot is either filled or on the free
    /// list, and the free list is what the links spell out from the head.
    pub proof fn lemma_partitioned(&self)
        requires
            self.wf(),
        ensures
            self@.partitioned(),
            1 <= self@.capacity() <= isize::MAX,
            self.links().len() == self@.capacity(),
            linked(self.links(), self.head(), self@.free),
    {
    }

    /// `after` is this pool with `value` in place of the value of the
    /// filled slot `index`.
    spec fn rewritten(&self, after: &Self, index: int, value: T) -> bool {
        &&& after.free == self.free
        &&& after.chain == self.chain
        &&& after.storage@.len() == self.storage@.len()
        &&& after.storage@[index]@ == SlotInner::Filled(value)
        &&& after.storage@[index].is_locked()
        &&& forall|i: int|
            0 <= i < self.storage@.len() && i != index ==> after.storage@[i] == self.storage@[i]
    }

    proof fn lemma_rewritten(&self, after: &Self, index: int, value: T)
        requires
            self.wf(),
            self@.is_live(index),
            self.rewritten(after, index, value),
        ensures
            after.wf(),
            after@ == self@.write(index, value),
    {
        assert(after.links() =~= self.links());
        assert(after@.slots =~= self@.write(index, value).slots);
    }

    fn get_mut<'a>(&'a mut self, guard: &mut MutexGuard<SlotInner<T>>, index: usize) -> (value:
        &'a mut T)
        requires
            old(self).wf(),
            old(self)@.is_live(index as int),
        ensures
            old(self).rewritten(final(self), index as int, *final(value)),
            old(self)@.slots[index as int] == Some(*value),
            final(self).wf(),
            final(self)@ == old(self)@.write(index as int, *final(value)),
    {
        proof {
            let before = *self;
            assert forall|after: &Self, value: T| #[trigger]
                before.rewritten(after, index as int, value) implies after.wf() && after@
                == before@.write(index as int, value) by {
                before.lemma_rewritten(after, index as int, value);
            }
            assert(self@.slots[index as int] is Some);
        }
        match guard.deref_mut(&mut self.storage[index].inner) {
            SlotInner::Filled(value) => value,
            SlotInner::Empty(_) => unreached(),
        }
    }

    /// Builds a pool of `capacity` free slots, slot 0 first in line.
    ///
    /// The capacity must be at least one, and small enough that the end
    /// marker differs from every index.
    pub fn new(capacity: usize) -> (made: Result<Self, PoolError>)
        ensures
            match made {
                Ok(pool) => {
                    &&& 1 <= capacity <= isize::MAX
                    &&& pool.wf()
                    &&& pool@ == PoolView::<T>::fresh(capacity as nat)
                    &&& pool.head() == 0
                    &&& pool.links() == fresh_links(capacity as nat)
                },
                Err(error) => {
                    &&& error == PoolError::InvalidCapacity
                    &&& (capacity == 0 || capacity > isize::MAX)
                },
            },
    {
        if let Err(error) = check_capacity(capacity) {
            return Err(error);
        }
        let mut storage: Vec<Slot<T>> = Vec::with_capacity(capacity);
        let mut next_free_slot_index: usize = 1;
        while next_free_slot_index < capacity
            invariant
                1 <= next_free_slot_index <= capacity <= isize::MAX,
                storage@.len() == next_free_slot_index - 1,
                forall|i: int|
                    0 <= i < storage@.len() ==> (#[trigger] storage@[i])@ == SlotInner::<T>::Empty(
                        (i + 1) as isize,
                    ) && !storage@[i].is_locked(),
            decreases capacity - next_free_slot_index,
        {
            storage.push(Slot::new(next_free_slot_index as isize));
            next_free_slot_index += 1;
        }
        storage.push(Slot::new(INVALID_INDEX));
        let pool = Self {
            storage,
            free: Mutex::new(0),
            chain: Ghost(Seq::new(capacity as nat, |i: int| i)),
        };
        proof {
            lemma_fresh_linked(capacity as nat);
            assert(pool.links() =~= fresh_links(capacity as nat));
            assert(pool@.slots =~= PoolView::<T>::fresh(capacity as nat).slots);
            assert forall|i: int| 0 <= i < pool@.slots.len() implies pool@.free.contains(i) by {
                assert(pool@.free[i] == i);
            }
        }
        Ok(pool)
    }

    /// Whether the slot that `handle` names is a filled slot of this pool.
    pub fn holds(&self, handle: &Box<T>) -> (held: bool)
        requires
            self.wf(),
        ensures
            held == self@.is_live(handle.slot()),
    {
        handle.index < self.storage.len() && self.storage[handle.index].is_filled()
    }

    /// Moves `value` into the first free slot and hands back the handle to
    /// it.  Fails, and changes nothing, exactly when no slot is free.
    ///
    /// The head lock is held while the head is read and moved on to the
    /// slot's link; the slot's lock is acquired before the head lock is
    /// released, and stays with the handle.
    pub fn box_it(&mut self, value: T) -> (made: Result<Box<T>, PoolError>)
        requires
            old(self).wf(),
        ensures
            final(self).wf(),
            match made {
                Ok(handle) => {
                    &&& !old(self)@.is_full()
                    &&& handle.slot() == old(self)@.free[0]
                    &&& final(self)@ == old(self)@.allocate(value)
                },
                Err(error) => {
                    &&& error == PoolError::ResourceExhausted
                    &&& old(self)@.is_full()
                    &&& final(self)@ == old(self)@
                },
            },
    {
        let mut free_guard = match self.free.try_lock() {
            Some(guard) => guard,
            None => unreached(),
        };
        let index = *free_guard.deref(&self.free);
        if index == INVALID_INDEX {
            free_guard.drop(&mut self.free);
            assert(self@.slots =~= old(self)@.slots);
            return Err(PoolError::ResourceExhausted);
        }
        proof {
            assert(self.chain@.len() > 0 && self.chain@[0] == index);
            assert(old(self)@.free.contains(index as int));
            assert(old(self)@.slots[index as int] is None);
            assert(old(self).storage@[index as int]@ is Empty);
            assert(!old(self).storage@[index as int].is_locked());
            assert(old(self).links()[index as int] == old(self).storage@[index as int].link());
        }
        let mut slot_guard = match self.storage[index as usize].inner.try_lock() {
            Some(guard) => guard,
            None => unreached(),
        };
        let next_free = match slot_guard.deref(&self.storage[index as usize].inner) {
            SlotInner::Empty(next) => *next,
            SlotInner::Filled(_) => unreached(),
        };
        *free_guard.deref_mut(&mut self.free) = next_free;
        free_guard.drop(&mut self.free);
        *slot_guard.deref_mut(&mut self.storage[index as usize].inner) = SlotInner::Filled(value);
        proof {
            let chain = self.chain@;
            old(self)@.lemma_allocate_partitioned(value);
            lemma_linked_pop(old(self).links(), index as int, chain);
            lemma_linked_frame(old(self).links(), self.links(), next_free as int, chain.skip(1));
            self.chain = Ghost(chain.skip(1));
            assert(self@.slots =~= old(self)@.allocate(value).slots);
        }
        Ok(Box { inner: slot_guard, index: index as usize })
    }
}

} // verus!
