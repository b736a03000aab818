//! The pool without a free list: every slot has its own lock, and allocation
//! takes the first slot whose lock it can acquire.

use crate::error::{check_capacity, PoolError};
use crate::mutex::{Mutex, MutexGuard};
use vstd::prelude::*;

verus! {

/// An owned handle to one filled slot of an [`Allocator`].  It holds the
/// lock of that slot.
pub struct Box<T> {
    inner: MutexGuard<Option<T>>,
    index: usize,
}

impl<T> Box<T> {
    /// The slot that this handle names.
    pub closed spec fn slot(&self) -> int {
        self.index as int
    }

    /// The slot that this handle names.
    pub fn index(&self) -> (index: usize)
        ensures
            index == self.slot(),
    {
        self.index
    }

    /// Read access to the value in this handle's slot.
    pub fn deref<'a>(&self, allocator: &'a Allocator<T>) -> (value: &'a T)
        requires
            allocator.wf(),
            allocator.is_live(self.slot()),
        ensures
            allocator@[self.slot()] == Some(*value),
    {
        match self.inner.deref(&allocator.storage[self.index]) {
            Some(value) => value,
            None => unreached(),
        }
    }

    /// Write access to the value in this handle's slot.  What the caller
    /// leaves behind the reference is what the slot holds afterwards;
    /// nothing else changes.
    pub fn deref_mut<'a>(&mut self, allocator: &'a mut Allocator<T>) -> (value: &'a mut T)
        requires
            old(allocator).wf(),
            old(allocator).is_live(old(self).slot()),
        ensures
            final(self).slot() == old(self).slot(),
            old(allocator)@[old(self).slot()] == Some(*value),
            final(allocator).wf(),
            final(allocator)@ == old(allocator)@.update(old(self).slot(), Some(*final(value))),
    {
        proof {
            let before = *allocator;
            let slot = self.slot();
            assert forall|after: &Allocator<T>, value: T| #[trigger]
                before.rewritten(after, slot, value) implies after.wf() && after@
                == before@.update(slot, Some(value)) by {
                before.lemma_rewritten(after, slot, value);
            }
        }
        match self.inner.deref_mut(&mut allocator.storage[self.index]) {
            Some(value) => value,
            None => unreached(),
        }
    }

    /// Gives the slot back: its value is destroyed and its lock released.
    pub fn drop(self, allocator: &mut Allocator<T>)
        requires
            old(allocator).wf(),
            old(allocator).is_live(self.slot()),
        ensures
            final(allocator).wf(),
            final(allocator)@ == old(allocator)@.update(self.slot(), None),
    {
        let Box { mut inner, index } = self;
        *inner.deref_mut(&mut allocator.storage[index]) = None;
        inner.drop(&mut allocator.storage[index]);
        assert(allocator@ =~= old(allocator)@.update(index as int, None));
    }
}

/// A pool of a fixed number of slots.
pub struct Allocator<T> {
    storage: Vec<Mutex<Option<T>>>,
}

impl<T> View for Allocator<T> {
    type V = Seq<Option<T>>;

    /// What each slot holds: `Some(v)` while it is filled with `v`, `None`
    /// while it is free.
    closed spec fn view(&self) -> Seq<Option<T>> {
        Seq::new(self.storage@.len(), |i: int| self.storage@[i]@)
    }
}

impl<T> Allocator<T> {
    /// The pool's invariant: a slot is locked exactly while it is filled.
    pub closed spec fn wf(&self) -> bool {
        &&& 1 <= self.storage@.len() <= isize::MAX
        &&& forall|i: int|
            0 <= i < self.storage@.len() ==> ((#[trigger] self.storage@[i]).is_locked()
                <==> self.storage@[i]@ is Some)
    }

    /// Slot `i` exists and is filled.
    pub open spec fn is_live(&self, i: int) -> bool {
        0 <= i < self@.len() && self@[i] is Some
    }

    /// `after` is this pool with `value` in place of the value of the
    /// filled slot `index`.
    spec fn rewritten(&self, after: &Self, index: int, value: T) -> bool {
        &&& after.storage@.len() == self.storage@.len()
        &&& after.storage@[index]@ == Some(value)
        &&& after.storage@[index].is_locked()
        &&& forall|i: int|
            0 <= i < self.storage@.len() && i != index ==> after.storage@[i] == self.storage@[i]
    }

    proof fn lemma_rewritten(&self, after: &Self, index: int, value: T)
        requires
            self.wf(),
            self.is_live(index),
            self.rewritten(after, index, value),
        ensures
            after.wf(),
            after@ == self@.update(index, Some(value)),
    {
        assert(after@ =~= self@.update(index, Some(value)));
    }

    /// Builds a pool of `capacity` free slots.
    ///
    /// The capacity must be at least one and no more than the largest index
    /// that a signed machine word can hold.
    pub fn new(capacity: usize) -> (made: Result<Self, PoolError>)
        ensures
            match made {
                Ok(pool) => {
                    &&& 1 <= capacity <= isize::MAX
                    &&& pool.wf()
                    &&& pool@ == Seq::new(capacity as nat, |i: int| None::<T>)
                },
                Err(error) => {
                    &&& error == PoolError::InvalidCapacity
                    &&& (capacity == 0 || capacity > isize::MAX)
                },
            },
    {
        if let Err(error) = check_capacity(capacity) {
            return Err(error);
        }
        let mut storage: Vec<Mutex<Option<T>>> = Vec::with_capacity(capacity);
        while storage.len() < capacity
            invariant
                storage@.len() <= capacity,
                forall|i: int|
                    0 <= i < storage@.len() ==> !(#[trigger] storage@[i]).is_locked()
                        && storage@[i]@ is None,
            decreases capacity - storage@.len(),
        {
            storage.push(Mutex::new(None));
        }
        let pool = Self { storage };
        assert(pool@ =~= Seq::new(capacity as nat, |i: int| None::<T>));
        Ok(pool)
    }

    /// Whether the slot that `handle` names is a filled slot of this pool.
    pub fn holds(&self, handle: &Box<T>) -> (held: bool)
        requires
            self.wf(),
        ensures
            held == self.is_live(handle.slot()),
    {
        handle.index < self.storage.len() && self.storage[handle.index].is_taken()
    }

    /// Moves `value` into the free slot of the lowest index and hands back
    /// the handle to it.  Fails, and changes nothing, exactly when no slot
    /// is free.
    pub fn box_it(&mut self, value: T) -> (made: Result<Box<T>, PoolError>)
        requires
            old(self).wf(),
        ensures
            final(self).wf(),
            match made {
                Ok(handle) => {
                    &&& 0 <= handle.slot() < old(self)@.len()
                    &&& old(self)@[handle.slot()] is None
                    &&& forall|i: int| 0 <= i < handle.slot() ==> old(self)@[i] is Some
                    &&& final(self)@ == old(self)@.update(handle.slot(), Some(value))
                },
                Err(error) => {
                    &&& error == PoolError::ResourceExhausted
                    &&& forall|i: int| 0 <= i < old(self)@.len() ==> old(self)@[i] is Some
                    &&& final(self)@ == old(self)@
                },
            },
    {
        let mut index: usize = 0;
        while index < self.storage.len()
            invariant
                self.wf(),
                self@ == old(self)@,
                index <= self.storage@.len(),
                forall|i: int| 0 <= i < index ==> old(self)@[i] is Some,
            decreases self.storage@.len() - index,
        {
            match self.storage[index].try_lock() {
                Some(mut inner) => {
                    *inner.deref_mut(&mut self.storage[index]) = Some(value);
                    assert(self@ =~= old(self)@.update(index as int, Some(value)));
                    return Ok(Box { inner, index });
                },
                None => {
                    assert(self@ =~= old(self)@);
                },
            }
            index += 1;
        }
        Err(PoolError::ResourceExhausted)
    }
}

} // verus!
