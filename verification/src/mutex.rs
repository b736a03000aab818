//! A test-and-set lock around one value.
//!
//! The lock is a flag beside the value.  To acquire it is to find the flag
//! down and raise it; the guard that comes back is the only way to the value
//! and to lowering the flag again.  The mutex is driven through `&mut self`,
//! as the pools are that keep their slots in it.

use vstd::prelude::*;

verus! {

/// A value together with the flag that says whether it is taken.
pub struct Mutex<T> {
    locked: bool,
    value: T,
}

/// The evidence that a [`Mutex`] was acquired.  It cannot be copied, and it
/// is given back to the mutex to unlock it.
pub struct MutexGuard<T> {
    marker: core::marker::PhantomData<T>,
}

impl<T> View for Mutex<T> {
    type V = T;

    /// The guarded value.
    closed spec fn view(&self) -> T {
        self.value
    }
}

impl<T> Mutex<T> {
    /// Whether the mutex is taken.
    pub closed spec fn is_locked(&self) -> bool {
        self.locked
    }

    /// An unlocked mutex around `value`.
    pub fn new(value: T) -> (mutex: Self)
        ensures
            !mutex.is_locked(),
            mutex@ == value,
    {
        Self { locked: false, value }
    }

    /// Whether the mutex is taken.
    pub fn is_taken(&self) -> (taken: bool)
        ensures
            taken == self.is_locked(),
    {
        self.locked
    }

    /// Acquires the mutex if it is free, and says so by the guard.  A mutex
    /// that is taken stays as it is.
    pub fn try_lock(&mut self) -> (guard: Option<MutexGuard<T>>)
        ensures
            guard is Some <==> !old(self).is_locked(),
            final(self).is_locked(),
            final(self)@ == old(self)@,
    {
        if !self.locked {
            self.locked = true;
            Some(MutexGuard { marker: core::marker::PhantomData })
        } else {
            None
        }
    }
}

impl<T> MutexGuard<T> {
    /// Read access to the value of the mutex that this guard holds.
    pub fn deref<'a>(&self, mutex: &'a Mutex<T>) -> (value: &'a T)
        requires
            mutex.is_locked(),
        ensures
            *value == mutex@,
    {
        &mutex.value
    }

    /// Write access to the value of the mutex that this guard holds.
    pub fn deref_mut<'a>(&mut self, mutex: &'a mut Mutex<T>) -> (value: &'a mut T)
        requires
            old(mutex).is_locked(),
        ensures
            *value == old(mutex)@,
            final(mutex)@ == *final(value),
            final(mutex).is_locked(),
    {
        &mut mutex.value
    }

    /// Unlocks the mutex.  The value stays.
    pub fn drop(self, mutex: &mut Mutex<T>)
        requires
            old(mutex).is_locked(),
        ensures
            !final(mutex).is_locked(),
            final(mutex)@ == old(mutex)@,
    {
        mutex.locked = false;
    }
}

} // verus!
