//! Threads that allocate and release at the same time, one cell access at a
//! time.
//!
//! Each thread runs the steps of [`Allocator::box_it`] or of the release of a
//! handle, and between any two of its steps other threads may take theirs.  A
//! [`World`] is the shared cells together with where each thread stands and
//! which handles are live; a schedule says which thread moves next.
//!
//! [`Allocator::box_it`]: crate::lockfree::Allocator::box_it

use crate::chain::{lemma_fresh_linked, lemma_linked_frame, lemma_linked_pop, lemma_linked_push};
use crate::chain::{lemma_linked_suffix, lemma_linked_unique, linked};
use crate::lockfree::{Allocator, Memory};
use vstd::prelude::*;
use vstd::set_lib::{lemma_int_range, lemma_len_subset, set_int_range};

verus! {

/// Where one thread stands.
pub enum Thread {
    /// Between operations.
    Idle,
    /// Allocating: it has read the head.
    Heading { head: int },
    /// Allocating: it has also read the link of the slot that the head named.
    Linking { head: int, next: int },
    /// Releasing `index`: it has given up the handle and destroyed the value.
    Vacated { index: int },
    /// Releasing `index`: it has also read the head.
    Aiming { index: int, head: int },
    /// Releasing `index`: it has also stored that head as the slot's link.
    Pointing { index: int, head: int },
}

impl Thread {
    /// The slot that the thread is putting back, if it is releasing.
    pub open spec fn releasing(self) -> Option<int> {
        match self {
            Thread::Vacated { index } => Some(index),
            Thread::Aiming { index, .. } => Some(index),
            Thread::Pointing { index, .. } => Some(index),
            _ => None,
        }
    }
}

/// What a scheduled thread is asked to do.
pub enum Move {
    /// Begin an allocation, if idle.
    Allocate,
    /// Begin to release the live handle at this position, if idle.
    Release(int),
    /// Take the next step of the operation under way.
    Advance,
}

/// The shared cells, the threads, and the slots of the live handles in the
/// order in which they were handed out.
pub struct World {
    pub memory: Memory,
    pub threads: Seq<Thread>,
    pub handles: Seq<int>,
}

impl World {
    pub open spec fn capacity(self) -> nat {
        self.memory.next.len()
    }

    /// A pool that was just built, and `threads` idle threads.
    pub open spec fn fresh(capacity: nat, threads: nat) -> World {
        World {
            memory: Memory::fresh(capacity),
            threads: Seq::new(threads, |t: int| Thread::Idle),
            handles: Seq::empty(),
        }
    }

    /// The world after thread `t` made move `m`.  A move that does not apply
    /// to where the thread stands changes nothing.
    pub open spec fn step(self, t: int, m: Move) -> World {
        if !(0 <= t < self.threads.len()) {
            self
        } else {
            match (self.threads[t], m) {
                (Thread::Idle, Move::Allocate) => World {
                    threads: self.threads.update(t, Thread::Heading { head: self.memory.free }),
                    ..self
                },
                (Thread::Idle, Move::Release(k)) => if 0 <= k < self.handles.len() {
                    World {
                        threads: self.threads.update(t, Thread::Vacated { index: self.handles[k] }),
                        handles: self.handles.remove(k),
                        ..self
                    }
                } else {
                    self
                },
                (Thread::Heading { head }, Move::Advance) => if 0 <= head < self.capacity() {
                    World {
                        threads: self.threads.update(
                            t,
                            Thread::Linking { head, next: self.memory.next[head] },
                        ),
                        ..self
                    }
                } else {
                    // No slot is free: the allocation fails.
                    World { threads: self.threads.update(t, Thread::Idle), ..self }
                },
                (Thread::Linking { head, next }, Move::Advance) => if self.memory.exchanges(head) {
                    World {
                        memory: self.memory.exchange(head, next),
                        threads: self.threads.update(t, Thread::Idle),
                        handles: self.handles.push(head),
                    }
                } else {
                    World {
                        threads: self.threads.update(t, Thread::Heading { head: self.memory.free }),
                        ..self
                    }
                },
                (Thread::Vacated { index }, Move::Advance) => World {
                    threads: self.threads.update(
                        t,
                        Thread::Aiming { index, head: self.memory.free },
                    ),
                    ..self
                },
                (Thread::Aiming { index, head }, Move::Advance) => World {
                    memory: self.memory.store_next(index, head),
                    threads: self.threads.update(t, Thread::Pointing { index, head }),
                    ..self
                },
                (Thread::Pointing { index, head }, Move::Advance) => if self.memory.exchanges(
                    head,
                ) {
                    World {
                        memory: self.memory.exchange(head, index),
                        threads: self.threads.update(t, Thread::Idle),
                        ..self
                    }
                } else {
                    World {
                        threads: self.threads.update(
                            t,
                            Thread::Aiming { index, head: self.memory.free },
                        ),
                        ..self
                    }
                },
                _ => self,
            }
        }
    }

    /// The world after the moves of `schedule`, first to last.
    pub open spec fn run(self, schedule: Seq<(int, Move)>) -> World
        decreases schedule.len(),
    {
        if schedule.len() == 0 {
            self
        } else {
            self.run(schedule.drop_last()).step(schedule.last().0, schedule.last().1)
        }
    }

    /// If thread `t` is about to exchange the head for an allocation, and the
    /// exchange will go through, then the link it read earlier is still the
    /// link of the head slot.
    pub open spec fn exchange_is_current(self, t: int) -> bool {
        0 <= t < self.threads.len() ==> match self.threads[t] {
            Thread::Linking { head, next } => self.memory.exchanges(head) ==> next
                == self.memory.next[head],
            _ => true,
        }
    }

    /// `exchange_is_current` holds before each move of `schedule`.
    pub open spec fn current_throughout(self, schedule: Seq<(int, Move)>) -> bool
        decreases schedule.len(),
    {
        schedule.len() > 0 ==> {
            &&& self.current_throughout(schedule.drop_last())
            &&& self.run(schedule.drop_last()).exchange_is_current(schedule.last().0)
        }
    }

    /// Some thread is putting slot `i` back.
    pub open spec fn detached(self, i: int) -> bool {
        exists|t: int| 0 <= t < self.threads.len() && #[trigger] self.threads[t].releasing() == Some(i)
    }

    /// With `chain` as the free list: every slot is on the free list, named
    /// by a live handle, or being put back by a thread, and only one of
    /// these, once.
    pub open spec fn orderly(self, chain: Seq<int>) -> bool {
        &&& linked(self.memory.next, self.memory.free, chain)
        &&& self.handles.no_duplicates()
        &&& forall|i: int|
            0 <= i < self.capacity() ==> #[trigger] chain.contains(i) || self.handles.contains(i)
                || self.detached(i)
        &&& forall|k: int|
            0 <= k < self.handles.len() ==> 0 <= #[trigger] self.handles[k] < self.capacity()
                && !chain.contains(self.handles[k])
        &&& forall|t: int|
            0 <= t < self.threads.len() ==> match #[trigger] self.threads[t].releasing() {
                Some(i) => 0 <= i < self.capacity() && !chain.contains(i) && !self.handles.contains(
                    i,
                ),
                None => true,
            }
        &&& forall|t: int, u: int|
            0 <= t < self.threads.len() && 0 <= u < self.threads.len() && t != u && (
            #[trigger] self.threads[t].releasing()) is Some ==> self.threads[t].releasing() != (
            #[trigger] self.threads[u].releasing())
        &&& forall|t: int|
            0 <= t < self.threads.len() ==> match #[trigger] self.threads[t] {
                Thread::Linking { head, .. } => 0 <= head < self.capacity(),
                Thread::Pointing { index, head } => self.memory.next[index] == head,
                _ => true,
            }
    }

    /// The pool's accounting is intact.
    pub open spec fn safe(self) -> bool {
        exists|chain: Seq<int>| self.orderly(chain)
    }
}

/// Replacing where thread `t` stands, without changing what it releases,
/// leaves every slot as detached as it was.
proof fn lemma_same_detached(before: World, after: World, t: int, now: Thread)
    requires
        0 <= t < before.threads.len(),
        after.threads == before.threads.update(t, now),
        before.threads[t].releasing() == now.releasing(),
    ensures
        forall|i: int| before.detached(i) == after.detached(i),
{
    assert forall|i: int| before.detached(i) == after.detached(i) by {
        if before.detached(i) {
            let u = choose|u: int|
                0 <= u < before.threads.len() && #[trigger] before.threads[u].releasing() == Some(
                    i,
                );
            assert(after.threads[u].releasing() == Some(i));
        }
        if after.detached(i) {
            let u = choose|u: int|
                0 <= u < after.threads.len() && #[trigger] after.threads[u].releasing() == Some(i);
            assert(before.threads[u].releasing() == Some(i));
        }
    }
}

/// A step that moves only thread `t`, between two stands that release the
/// same slot or none, and that leaves the cells and the handles alone.
proof fn lemma_local_step(before: World, after: World, t: int, now: Thread, chain: Seq<int>)
    requires
        before.orderly(chain),
        0 <= t < before.threads.len(),
        after == (World { threads: before.threads.update(t, now), ..before }),
        before.threads[t].releasing() == now.releasing(),
        match now {
            Thread::Linking { head, .. } => 0 <= head < before.capacity(),
            Thread::Pointing { .. } => false,
            _ => true,
        },
    ensures
        after.orderly(chain),
{
    lemma_same_detached(before, after, t, now);
    assert forall|u: int| 0 <= u < after.threads.len() implies match #[trigger] after.threads[u].releasing() {
        Some(i) => 0 <= i < after.capacity() && !chain.contains(i) && !after.handles.contains(i),
        None => true,
    } by {
        assert(after.threads[u].releasing() == before.threads[u].releasing());
    }
    assert forall|u: int, v: int|
        0 <= u < after.threads.len() && 0 <= v < after.threads.len() && u != v && (
        #[trigger] after.threads[u].releasing()) is Some implies after.threads[u].releasing() != (
        #[trigger] after.threads[v].releasing()) by {
        assert(after.threads[u].releasing() == before.threads[u].releasing());
        assert(after.threads[v].releasing() == before.threads[v].releasing());
    }
    assert forall|u: int| 0 <= u < after.threads.len() implies match #[trigger] after.threads[u] {
        Thread::Linking { head, .. } => 0 <= head < after.capacity(),
        Thread::Pointing { index, head } => after.memory.next[index] == head,
        _ => true,
    } by {
        if u != t {
            assert(after.threads[u] == before.threads[u]);
        }
    }
}

/// A thread gives up a handle and becomes the one that puts its slot back.
proof fn lemma_release_begins(before: World, t: int, k: int, chain: Seq<int>)
    requires
        before.orderly(chain),
        0 <= t < before.threads.len(),
        before.threads[t] is Idle,
        0 <= k < before.handles.len(),
    ensures
        before.step(t, Move::Release(k)).orderly(chain),
{
    let after = before.step(t, Move::Release(k));
    let index = before.handles[k];
    before.handles.remove_ensures(k);
    assert forall|x: int| after.handles.contains(x) <==> before.handles.contains(x) && x != index by {
        if after.handles.contains(x) {
            let j = choose|j: int| 0 <= j < after.handles.len() && after.handles[j] == x;
            if j < k {
                assert(before.handles[j] == x);
            } else {
                assert(before.handles[j + 1] == x);
            }
        }
        if before.handles.contains(x) && x != index {
            let j = choose|j: int| 0 <= j < before.handles.len() && before.handles[j] == x;
            if j < k {
                assert(after.handles[j] == x);
            } else {
                assert(after.handles[j - 1] == x);
            }
        }
    }
    assert forall|i: int, j: int|
        0 <= i < after.handles.len() && 0 <= j < after.handles.len() && i != j implies after.handles[i]
        != after.handles[j] by {
        let a = if i < k { i } else { i + 1 };
        let b = if j < k { j } else { j + 1 };
        assert(after.handles[i] == before.handles[a]);
        assert(after.handles[j] == before.handles[b]);
    }
    assert forall|j: int| 0 <= j < after.handles.len() implies 0 <= #[trigger] after.handles[j]
        < after.capacity() && !chain.contains(after.handles[j]) by {
        let a = if j < k { j } else { j + 1 };
        assert(after.handles[j] == before.handles[a]);
    }
    assert(after.threads[t].releasing() == Some(index));
    assert forall|i: int| 0 <= i < after.capacity() implies #[trigger] chain.contains(i)
        || after.handles.contains(i) || after.detached(i) by {
        if i == index {
            assert(after.detached(i));
        } else if !chain.contains(i) && !before.handles.contains(i) {
            assert(before.detached(i));
            let u = choose|u: int|
                0 <= u < before.threads.len() && #[trigger] before.threads[u].releasing() == Some(
                    i,
                );
            assert(after.threads[u].releasing() == Some(i));
        }
    }
    assert forall|u: int| 0 <= u < after.threads.len() implies match #[trigger] after.threads[u].releasing() {
        Some(i) => 0 <= i < after.capacity() && !chain.contains(i) && !after.handles.contains(i),
        None => true,
    } by {
        if u != t {
            assert(after.threads[u].releasing() == before.threads[u].releasing());
        } else {
            assert(before.handles[k] == index);
        }
    }
    assert forall|u: int, v: int|
        0 <= u < after.threads.len() && 0 <= v < after.threads.len() && u != v && (
        #[trigger] after.threads[u].releasing()) is Some implies after.threads[u].releasing() != (
        #[trigger] after.threads[v].releasing()) by {
        if u != t {
            assert(after.threads[u].releasing() == before.threads[u].releasing());
        }
        if v != t {
            assert(after.threads[v].releasing() == before.threads[v].releasing());
        }
    }
    assert forall|u: int| 0 <= u < after.threads.len() implies match #[trigger] after.threads[u] {
        Thread::Linking { head, .. } => 0 <= head < after.capacity(),
        Thread::Pointing { index, head } => after.memory.next[index] == head,
        _ => true,
    } by {
        if u != t {
            assert(after.threads[u] == before.threads[u]);
        }
    }
}

/// An allocation's exchange goes through with a link that is still current:
/// the head slot leaves the free list and a handle names it.
proof fn lemma_allocation_lands(before: World, t: int, chain: Seq<int>)
    requires
        before.orderly(chain),
        0 <= t < before.threads.len(),
        before.threads[t] is Linking,
        before.memory.exchanges(before.threads[t]->Linking_head),
        before.exchange_is_current(t),
    ensures
        before.step(t, Move::Advance).orderly(chain.skip(1)),
{
    let after = before.step(t, Move::Advance);
    let head = before.threads[t]->Linking_head;
    let rest = chain.skip(1);
    assert(chain.len() > 0 && chain[0] == head);
    lemma_linked_pop(before.memory.next, head, chain);
    lemma_same_detached(before, after, t, Thread::Idle);
    assert forall|x: int| chain.contains(x) <==> rest.contains(x) || x == head by {
        if chain.contains(x) && x != head {
            let j = choose|j: int| 0 <= j < chain.len() && chain[j] == x;
            assert(rest[j - 1] == x);
        }
        if rest.contains(x) {
            let j = choose|j: int| 0 <= j < rest.len() && rest[j] == x;
            assert(chain[j + 1] == x);
        }
    }
    assert(!before.handles.contains(head)) by {
        if before.handles.contains(head) {
            let j = choose|j: int| 0 <= j < before.handles.len() && before.handles[j] == head;
            assert(!chain.contains(before.handles[j]));
        }
    }
    assert forall|x: int| after.handles.contains(x) <==> before.handles.contains(x) || x == head by {
        if after.handles.contains(x) {
            let j = choose|j: int| 0 <= j < after.handles.len() && after.handles[j] == x;
            if j < before.handles.len() {
                assert(before.handles[j] == x);
            }
        }
        if before.handles.contains(x) {
            let j = choose|j: int| 0 <= j < before.handles.len() && before.handles[j] == x;
            assert(after.handles[j] == x);
        }
        assert(after.handles[before.handles.len() as int] == head);
    }
    assert forall|i: int, j: int|
        0 <= i < after.handles.len() && 0 <= j < after.handles.len() && i != j implies after.handles[i]
        != after.handles[j] by {
        if i < before.handles.len() {
            assert(before.handles.contains(after.handles[i]));
        }
        if j < before.handles.len() {
            assert(before.handles.contains(after.handles[j]));
        }
    }
    assert forall|j: int| 0 <= j < after.handles.len() implies 0 <= #[trigger] after.handles[j]
        < after.capacity() && !rest.contains(after.handles[j]) by {
        if j < before.handles.len() {
            assert(after.handles[j] == before.handles[j]);
        }
    }
    assert forall|i: int| 0 <= i < after.capacity() implies #[trigger] rest.contains(i)
        || after.handles.contains(i) || after.detached(i) by {
        assert(chain.contains(i) || before.handles.contains(i) || before.detached(i));
    }
    assert forall|u: int| 0 <= u < after.threads.len() implies match #[trigger] after.threads[u].releasing() {
        Some(i) => 0 <= i < after.capacity() && !rest.contains(i) && !after.handles.contains(i),
        None => true,
    } by {
        assert(after.threads[u].releasing() == before.threads[u].releasing());
    }
    assert forall|u: int, v: int|
        0 <= u < after.threads.len() && 0 <= v < after.threads.len() && u != v && (
        #[trigger] after.threads[u].releasing()) is Some implies after.threads[u].releasing() != (
        #[trigger] after.threads[v].releasing()) by {
        assert(after.threads[u].releasing() == before.threads[u].releasing());
        assert(after.threads[v].releasing() == before.threads[v].releasing());
    }
    assert forall|u: int| 0 <= u < after.threads.len() implies match #[trigger] after.threads[u] {
        Thread::Linking { head, .. } => 0 <= head < after.capacity(),
        Thread::Pointing { index, head } => after.memory.next[index] == head,
        _ => true,
    } by {
        if u != t {
            assert(after.threads[u] == before.threads[u]);
        }
    }
}

/// A releasing thread stores the head it read as the link of its slot.
proof fn lemma_link_stored(before: World, t: int, chain: Seq<int>)
    requires
        before.orderly(chain),
        0 <= t < before.threads.len(),
        before.threads[t] is Aiming,
    ensures
        before.step(t, Move::Advance).orderly(chain),
{
    let after = before.step(t, Move::Advance);
    let index = before.threads[t]->Aiming_index;
    let head = before.threads[t]->Aiming_head;
    assert(before.threads[t].releasing() == Some(index));
    lemma_same_detached(before, after, t, Thread::Pointing { index, head });
    lemma_linked_frame(before.memory.next, after.memory.next, before.memory.free, chain);
    assert forall|u: int| 0 <= u < after.threads.len() implies match #[trigger] after.threads[u].releasing() {
        Some(i) => 0 <= i < after.capacity() && !chain.contains(i) && !after.handles.contains(i),
        None => true,
    } by {
        assert(after.threads[u].releasing() == before.threads[u].releasing());
    }
    assert forall|u: int, v: int|
        0 <= u < after.threads.len() && 0 <= v < after.threads.len() && u != v && (
        #[trigger] after.threads[u].releasing()) is Some implies after.threads[u].releasing() != (
        #[trigger] after.threads[v].releasing()) by {
        assert(after.threads[u].releasing() == before.threads[u].releasing());
        assert(after.threads[v].releasing() == before.threads[v].releasing());
    }
    assert forall|u: int| 0 <= u < after.threads.len() implies match #[trigger] after.threads[u] {
        Thread::Linking { head, .. } => 0 <= head < after.capacity(),
        Thread::Pointing { index, head } => after.memory.next[index] == head,
        _ => true,
    } by {
        if u != t {
            assert(after.threads[u] == before.threads[u]);
            assert(before.threads[u].releasing() != before.threads[t].releasing()
                || before.threads[u].releasing() is None);
        }
    }
}

/// A release's exchange goes through: the slot is the new head of the free
/// list.
proof fn lemma_release_lands(before: World, t: int, chain: Seq<int>)
    requires
        before.orderly(chain),
        0 <= t < before.threads.len(),
        before.threads[t] is Pointing,
        before.memory.exchanges(before.threads[t]->Pointing_head),
    ensures
        before.step(t, Move::Advance).orderly(seq![before.threads[t]->Pointing_index] + chain),
{
    let after = before.step(t, Move::Advance);
    let index = before.threads[t]->Pointing_index;
    let head = before.threads[t]->Pointing_head;
    let longer = seq![index] + chain;
    assert(before.threads[t].releasing() == Some(index));
    lemma_linked_push(before.memory.next, head, chain, index);
    assert forall|x: int| longer.contains(x) <==> chain.contains(x) || x == index by {
        if longer.contains(x) && x != index {
            let j = choose|j: int| 0 <= j < longer.len() && longer[j] == x;
            assert(chain[j - 1] == x);
        }
        if chain.contains(x) {
            let j = choose|j: int| 0 <= j < chain.len() && chain[j] == x;
            assert(longer[j + 1] == x);
        }
        assert(longer[0] == index);
    }
    assert forall|i: int| 0 <= i < after.capacity() implies #[trigger] longer.contains(i)
        || after.handles.contains(i) || after.detached(i) by {
        if i != index && !chain.contains(i) && !before.handles.contains(i) {
            assert(chain.contains(i) || before.handles.contains(i) || before.detached(i));
            let u = choose|u: int|
                0 <= u < before.threads.len() && #[trigger] before.threads[u].releasing() == Some(
                    i,
                );
            assert(after.threads[u].releasing() == Some(i));
        }
    }
    assert forall|j: int| 0 <= j < after.handles.len() implies 0 <= #[trigger] after.handles[j]
        < after.capacity() && !longer.contains(after.handles[j]) by {
        assert(before.handles.contains(before.handles[j]));
    }
    assert forall|u: int| 0 <= u < after.threads.len() implies match #[trigger] after.threads[u].releasing() {
        Some(i) => 0 <= i < after.capacity() && !longer.contains(i) && !after.handles.contains(i),
        None => true,
    } by {
        if u != t {
            assert(after.threads[u].releasing() == before.threads[u].releasing());
            assert(before.threads[u].releasing() != before.threads[t].releasing()
                || before.threads[u].releasing() is None);
        }
    }
    assert forall|u: int, v: int|
        0 <= u < after.threads.len() && 0 <= v < after.threads.len() && u != v && (
        #[trigger] after.threads[u].releasing()) is Some implies after.threads[u].releasing() != (
        #[trigger] after.threads[v].releasing()) by {
        if u != t {
            assert(after.threads[u].releasing() == before.threads[u].releasing());
        }
        if v != t {
            assert(after.threads[v].releasing() == before.threads[v].releasing());
        }
    }
    assert forall|u: int| 0 <= u < after.threads.len() implies match #[trigger] after.threads[u] {
        Thread::Linking { head, .. } => 0 <= head < after.capacity(),
        Thread::Pointing { index, head } => after.memory.next[index] == head,
        _ => true,
    } by {
        if u != t {
            assert(after.threads[u] == before.threads[u]);
        }
    }
}

/// A pool that was just built is safe, whatever the number of threads.
pub proof fn lemma_fresh_safe(capacity: nat, threads: nat)
    requires
        capacity > 0,
    ensures
        World::fresh(capacity, threads).safe(),
{
    let world = World::fresh(capacity, threads);
    let chain = Seq::new(capacity, |i: int| i);
    lemma_fresh_linked(capacity);
    assert forall|i: int| 0 <= i < world.capacity() implies #[trigger] chain.contains(i) by {
        assert(chain[i] == i);
    }
    assert(world.orderly(chain));
}

/// A well-formed pool that no thread is working on is a safe world, with
/// its filled slots as the live handles, in any order.
pub proof fn lemma_at_rest_safe<T>(pool: &Allocator<T>, threads: nat, handles: Seq<int>)
    requires
        pool.wf(),
        handles.no_duplicates(),
        forall|i: int| handles.contains(i) <==> pool@.is_live(i),
    ensures
        (World {
            memory: pool.memory(),
            threads: Seq::new(threads, |t: int| Thread::Idle),
            handles,
        }).safe(),
{
    let world = World {
        memory: pool.memory(),
        threads: Seq::new(threads, |t: int| Thread::Idle),
        handles,
    };
    let chain = pool@.free;
    pool.lemma_partitioned();
    assert forall|i: int| 0 <= i < world.capacity() implies #[trigger] chain.contains(i)
        || world.handles.contains(i) || world.detached(i) by {
        assert(pool@.slots[i] is None <==> chain.contains(i));
    }
    assert forall|k: int| 0 <= k < world.handles.len() implies 0 <= #[trigger] world.handles[k]
        < world.capacity() && !chain.contains(world.handles[k]) by {
        assert(handles.contains(handles[k]));
        assert(pool@.slots[handles[k]] is None <==> chain.contains(handles[k]));
    }
    assert(world.orderly(chain));
}

/// An allocation that no other thread interferes with does to the cells and
/// to the handles what [`Allocator::box_it`](crate::lockfree::Allocator::box_it)
/// does: it fails and changes nothing when the head names no slot, and else
/// moves the head on and hands out the slot that the head named.
pub proof fn lemma_allocation_alone(world: World, t: int)
    requires
        0 <= t < world.threads.len(),
        world.threads[t] is Idle,
    ensures
        !(0 <= world.memory.free < world.capacity()) ==> world.step(t, Move::Allocate).step(
            t,
            Move::Advance,
        ) == world,
        0 <= world.memory.free < world.capacity() ==> world.step(t, Move::Allocate).step(
            t,
            Move::Advance,
        ).step(t, Move::Advance) == (World {
            memory: world.memory.pop(),
            threads: world.threads,
            handles: world.handles.push(world.memory.free),
        }),
{
    let begun = world.step(t, Move::Allocate);
    let read = begun.step(t, Move::Advance);
    if 0 <= world.memory.free < world.capacity() {
        let done = read.step(t, Move::Advance);
        assert(done.threads =~= world.threads);
    } else {
        assert(read.threads =~= world.threads);
    }
}

/// A release that no other thread interferes with does to the cells and to
/// the handles what the release of a handle does: the slot is linked to the
/// old head, and the head names it.
pub proof fn lemma_release_alone(world: World, t: int, k: int)
    requires
        0 <= t < world.threads.len(),
        world.threads[t] is Idle,
        0 <= k < world.handles.len(),
    ensures
        world.step(t, Move::Release(k)).step(t, Move::Advance).step(t, Move::Advance).step(
            t,
            Move::Advance,
        ) == (World {
            memory: world.memory.push(world.handles[k]),
            threads: world.threads,
            handles: world.handles.remove(k),
        }),
{
    let begun = world.step(t, Move::Release(k));
    let read = begun.step(t, Move::Advance);
    let stored = read.step(t, Move::Advance);
    let done = stored.step(t, Move::Advance);
    assert(done.threads =~= world.threads);
}

/// One move keeps a safe world safe, provided that an allocation's exchange
/// only goes through while the link it read is still current.
pub proof fn lemma_step_safe(world: World, t: int, m: Move)
    requires
        world.safe(),
        world.exchange_is_current(t),
    ensures
        world.step(t, m).safe(),
{
    let chain = choose|chain: Seq<int>| world.orderly(chain);
    let after = world.step(t, m);
    if 0 <= t < world.threads.len() {
        match (world.threads[t], m) {
            (Thread::Idle, Move::Allocate) => {
                lemma_local_step(world, after, t, after.threads[t], chain);
            },
            (Thread::Idle, Move::Release(k)) => {
                if 0 <= k < world.handles.len() {
                    lemma_release_begins(world, t, k, chain);
                }
            },
            (Thread::Heading { head }, Move::Advance) => {
                lemma_local_step(world, after, t, after.threads[t], chain);
            },
            (Thread::Linking { head, next }, Move::Advance) => {
                if world.memory.exchanges(head) {
                    lemma_allocation_lands(world, t, chain);
                } else {
                    lemma_local_step(world, after, t, after.threads[t], chain);
                }
            },
            (Thread::Vacated { index }, Move::Advance) => {
                lemma_local_step(world, after, t, after.threads[t], chain);
            },
            (Thread::Aiming { index, head }, Move::Advance) => {
                lemma_link_stored(world, t, chain);
            },
            (Thread::Pointing { index, head }, Move::Advance) => {
                if world.memory.exchanges(head) {
                    lemma_release_lands(world, t, chain);
                } else {
                    lemma_local_step(world, after, t, after.threads[t], chain);
                }
            },
            _ => {},
        }
    }
}

/// An allocation's exchange that goes through with a link that is no longer
/// current breaks the pool: the world it leaves is not safe.  So the
/// condition of `lemma_step_safe` cannot be done without.
pub proof fn lemma_stale_exchange_unsafe(world: World, t: int)
    requires
        world.safe(),
        0 <= t < world.threads.len(),
        world.threads[t] is Linking,
        world.memory.exchanges(world.threads[t]->Linking_head),
        !world.exchange_is_current(t),
    ensures
        !world.step(t, Move::Advance).safe(),
{
    let after = world.step(t, Move::Advance);
    let head = world.threads[t]->Linking_head;
    let next = world.threads[t]->Linking_next;
    if after.safe() {
        let chain = choose|chain: Seq<int>| world.orderly(chain);
        let other = choose|other: Seq<int>| after.orderly(other);
        let rest = chain.skip(1);
        let links = world.memory.next;
        assert(chain.len() > 0 && chain[0] == head);
        lemma_linked_pop(links, head, chain);
        lemma_same_detached(world, after, t, Thread::Idle);
        assert(after.handles[world.handles.len() as int] == head);
        assert forall|i: int| rest.contains(i) <==> other.contains(i) by {
            if rest.contains(i) {
                let k = choose|k: int| 0 <= k < rest.len() && rest[k] == i;
                assert(chain[k + 1] == i);
                assert(chain.contains(i));
                assert(0 <= i < world.capacity());
                if world.handles.contains(i) {
                    let j = choose|j: int| 0 <= j < world.handles.len() && world.handles[j] == i;
                    assert(!chain.contains(world.handles[j]));
                }
                if world.detached(i) {
                    let u = choose|u: int|
                        0 <= u < world.threads.len() && #[trigger] world.threads[u].releasing()
                            == Some(i);
                    assert(!chain.contains(i));
                }
                if after.handles.contains(i) {
                    let j = choose|j: int| 0 <= j < after.handles.len() && after.handles[j] == i;
                    if j < world.handles.len() {
                        assert(world.handles[j] == i);
                    }
                }
                assert(other.contains(i) || after.handles.contains(i) || after.detached(i));
            }
            if other.contains(i) {
                let k = choose|k: int| 0 <= k < other.len() && other[k] == i;
                assert(0 <= other[k] < links.len());
                if world.handles.contains(i) {
                    let j = choose|j: int| 0 <= j < world.handles.len() && world.handles[j] == i;
                    assert(after.handles[j] == i);
                    assert(!other.contains(after.handles[j]));
                }
                if after.detached(i) {
                    let u = choose|u: int|
                        0 <= u < after.threads.len() && #[trigger] after.threads[u].releasing()
                            == Some(i);
                    assert(!other.contains(i));
                }
                assert(!other.contains(after.handles[world.handles.len() as int]));
                assert(chain.contains(i) || world.handles.contains(i) || world.detached(i));
                let j = choose|j: int| 0 <= j < chain.len() && chain[j] == i;
                assert(rest[j - 1] == i);
            }
        }
        assert(rest.to_set() =~= other.to_set());
        rest.unique_seq_to_set();
        other.unique_seq_to_set();
        if other.len() > 0 {
            assert(other.contains(other[0]));
            let k = choose|k: int| 0 <= k < rest.len() && rest[k] == other[0];
            lemma_linked_suffix(links, links[head], rest, k);
            lemma_linked_unique(links, next, other, rest.skip(k));
            assert(rest[0] == links[head]);
        }
    }
}

/// Under every schedule in which each allocation's exchange finds its link
/// still current, the pool stays safe.
pub proof fn lemma_run_safe(world: World, schedule: Seq<(int, Move)>)
    requires
        world.safe(),
        world.current_throughout(schedule),
    ensures
        world.run(schedule).safe(),
    decreases schedule.len(),
{
    if schedule.len() > 0 {
        lemma_run_safe(world, schedule.drop_last());
        lemma_step_safe(world.run(schedule.drop_last()), schedule.last().0, schedule.last().1);
    }
}

/// In a safe world no two live handles name the same slot, and there are
/// at most as many live handles as the pool has slots.
pub proof fn lemma_safe_handles(world: World)
    requires
        world.safe(),
    ensures
        world.handles.no_duplicates(),
        world.handles.len() <= world.capacity(),
        forall|k: int| 0 <= k < world.handles.len() ==> 0 <= #[trigger] world.handles[k] < world.capacity(),
{
    let chain = choose|chain: Seq<int>| world.orderly(chain);
    let slots = set_int_range(0, world.capacity() as int);
    lemma_int_range(0, world.capacity() as int);
    assert(world.handles.to_set().subset_of(slots)) by {
        assert forall|x: int| world.handles.to_set().contains(x) implies slots.contains(x) by {
            let k = choose|k: int| 0 <= k < world.handles.len() && world.handles[k] == x;
            assert(0 <= world.handles[k] < world.capacity());
        }
    }
    lemma_len_subset(world.handles.to_set(), slots);
    world.handles.unique_seq_to_set();
}

} // verus!
