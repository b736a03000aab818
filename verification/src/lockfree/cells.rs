//! The free list in atomic cells, for threads that share it.
//!
//! A round is one attempt at an allocation or a release: it ends with an
//! exchange of the head, which goes through only if no other thread moved
//! the head in between.  Who uses these cells runs rounds until one goes
//! through, and keeps to the rule that only the holder of a slot releases
//! it.  What the cells hold at any moment depends on the other threads, so
//! the contracts speak of the arguments only;
//! [`interleaving`](crate::lockfree::interleaving) follows the cells through
//! the rounds of all threads.

use crate::align128::Align128;
use crate::chain::{link_to, slot_of, INVALID_INDEX};
use crate::error::{check_capacity, PoolError};
use std::sync::atomic::AtomicIsize;
use std::sync::atomic::Ordering;
use vstd::prelude::*;

verus! {

/// How a round ended.
pub enum Round {
    /// The exchange went through.  For an allocation, the slot is now the
    /// caller's; for a release, the slot is on the free list again.
    Done(usize),
    /// The head named no slot: nothing is free.
    Exhausted,
    /// Another thread moved the head, to this value.
    Retry(isize),
}

/// What the exchange that ends a round over slot `index` makes of the round.
pub fn settle(index: usize, exchanged: Result<isize, isize>) -> (round: Round)
    ensures
        round == match exchanged {
            Ok(_) => Round::Done(index),
            Err(head) => Round::Retry(head),
        },
{
    match exchanged {
        Ok(_) => Round::Done(index),
        Err(head) => Round::Retry(head),
    }
}

/// The head of the free list and the link of every slot.
pub struct Cells {
    free: AtomicIsize,
    links: Vec<Align128<AtomicIsize>>,
}

impl Cells {
    /// There is a slot, and the end marker differs from every index.
    #[verifier::type_invariant]
    spec fn sized(self) -> bool {
        1 <= self.links@.len() <= isize::MAX
    }

    /// The number of slots.
    pub closed spec fn capacity(&self) -> nat {
        self.links@.len()
    }

    /// The number of slots.
    pub fn slots(&self) -> (slots: usize)
        ensures
            slots == self.capacity(),
    {
        self.links.len()
    }

    /// The cells of `capacity` free slots: the head names slot 0, every slot
    /// is linked to the one after it, and the last one to the end marker.
    pub fn new(capacity: usize) -> (made: Result<Self, PoolError>)
        ensures
            match made {
                Ok(cells) => 1 <= capacity <= isize::MAX && cells.capacity() == capacity,
                Err(error) => error == PoolError::InvalidCapacity && (capacity == 0 || capacity
                    > isize::MAX),
            },
    {
        if let Err(error) = check_capacity(capacity) {
            return Err(error);
        }
        let mut links: Vec<Align128<AtomicIsize>> = Vec::with_capacity(capacity);
        let mut next: usize = 1;
        while next < capacity
            invariant
                1 <= next <= capacity <= isize::MAX,
                links@.len() == next - 1,
            decreases capacity - next,
        {
            links.push(Align128(AtomicIsize::new(link_to(next))));
            next += 1;
        }
        links.push(Align128(AtomicIsize::new(INVALID_INDEX)));
        Ok(Self { free: AtomicIsize::new(0), links })
    }

    /// The head as it stands at the moment of the call.
    pub fn head(&self) -> isize {
        self.free.load(Ordering::SeqCst)
    }

    /// One round of an allocation that read `head` as the head: reads the
    /// link of the slot that `head` names, and tries to move the head on to
    /// it.
    ///
    /// The round ends as exhausted exactly when `head` names no slot, and a
    /// round that is done hands out the slot that `head` named.
    pub fn allocate_round(&self, head: isize) -> (round: Round)
        ensures
            round is Exhausted <==> !(0 <= head < self.capacity()),
            round matches Round::Done(index) ==> index == head,
    {
        let index = match slot_of(head, self.links.len()) {
            Some(index) => index,
            None => {
                return Round::Exhausted;
            },
        };
        let next = self.links[index].0.load(Ordering::SeqCst);
        settle(index, self.free.compare_exchange_weak(head, next, Ordering::SeqCst, Ordering::SeqCst))
    }

    /// One round of the release of slot `index` that read `head` as the
    /// head: links the slot to `head`, and tries to make the head name the
    /// slot.
    ///
    /// The slot is the caller's to release, and nothing is exhausted by a
    /// release.
    pub fn release_round(&self, index: usize, head: isize) -> (round: Round)
        requires
            index < self.capacity(),
        ensures
            !(round is Exhausted),
            round matches Round::Done(slot) ==> slot == index,
    {
        proof {
            use_type_invariant(self);
        }
        self.links[index].0.store(head, Ordering::SeqCst);
        settle(
            index,
            self.free.compare_exchange_weak(head, link_to(index), Ordering::SeqCst, Ordering::SeqCst),
        )
    }
}

} // verus!
