//! Histories of a pool: any number of allocations, writes and releases, in
//! any order.
//!
//! A pool driven through `&mut self` takes its operations one at a time, so
//! whichever threads issue them, what the pool sees is a sequence.  A
//! [`History`] follows such a sequence and keeps, beside the pool's content,
//! a record of every live handle: the slot it names and the value last
//! written through it.

use crate::view::PoolView;
use vstd::prelude::*;

verus! {

/// One operation on a pool.
pub enum Op<T> {
    /// Allocate a slot for this value.
    Allocate(T),
    /// Release the live handle at this position.
    Release(int),
    /// Store this value through the live handle at this position.
    Write(int, T),
}

/// The record of a live handle.
pub struct Handle<T> {
    /// The slot that the handle names.
    pub slot: int,
    /// The value that the allocation put there, or the one written through
    /// the handle since, whichever came last.
    pub value: T,
}

/// The content of a pool, and the live handles in the order in which they
/// were handed out.
pub struct History<T> {
    pub pool: PoolView<T>,
    pub handles: Seq<Handle<T>>,
}

impl<T> History<T> {
    /// A pool that was just built: no handle is live.
    pub open spec fn fresh(capacity: nat) -> Self {
        History { pool: PoolView::fresh(capacity), handles: Seq::empty() }
    }

    /// What `op` makes of the pool and of the handles.  An allocation from
    /// a full pool fails and changes nothing, and so does an operation on a
    /// handle that is not there.
    pub open spec fn apply(self, op: Op<T>) -> Self {
        match op {
            Op::Allocate(value) => if self.pool.is_full() {
                self
            } else {
                History {
                    pool: self.pool.allocate(value),
                    handles: self.handles.push(Handle { slot: self.pool.free[0], value }),
                }
            },
            Op::Release(k) => if 0 <= k < self.handles.len() {
                History {
                    pool: self.pool.release(self.handles[k].slot),
                    handles: self.handles.remove(k),
                }
            } else {
                self
            },
            Op::Write(k, value) => if 0 <= k < self.handles.len() {
                History {
                    pool: self.pool.write(self.handles[k].slot, value),
                    handles: self.handles.update(k, Handle { slot: self.handles[k].slot, value }),
                }
            } else {
                self
            },
        }
    }

    /// What the operations of `ops` make of the pool, first to last.
    pub open spec fn run(self, ops: Seq<Op<T>>) -> Self
        decreases ops.len(),
    {
        if ops.len() == 0 {
            self
        } else {
            self.run(ops.drop_last()).apply(ops.last())
        }
    }

    /// Some live handle names slot `i`.
    pub open spec fn is_held(self, i: int) -> bool {
        exists|k: int| 0 <= k < self.handles.len() && (#[trigger] self.handles[k]).slot == i
    }

    /// The pool is partitioned; every live handle names a filled slot that
    /// holds the value last written through the handle; no two live handles
    /// name the same slot; and every filled slot is named by a live handle.
    pub open spec fn consistent(self) -> bool {
        &&& self.pool.partitioned()
        &&& forall|k: int|
            0 <= k < self.handles.len() ==> 0 <= (#[trigger] self.handles[k]).slot
                < self.pool.capacity() && self.pool.slots[self.handles[k].slot] == Some(
                self.handles[k].value,
            )
        &&& forall|j: int, k: int|
            0 <= j < self.handles.len() && 0 <= k < self.handles.len() && j != k ==> (
            #[trigger] self.handles[j]).slot != (#[trigger] self.handles[k]).slot
        &&& forall|i: int| #[trigger] self.pool.is_live(i) ==> self.is_held(i)
    }

    /// The slots that the live handles name, in the order of the handles.
    pub open spec fn held(self) -> Seq<int> {
        Seq::new(self.handles.len(), |k: int| self.handles[k].slot)
    }

    /// A pool that was just built is consistent.
    pub proof fn lemma_fresh_consistent(capacity: nat)
        ensures
            Self::fresh(capacity).consistent(),
    {
        PoolView::<T>::lemma_fresh_partitioned(capacity);
    }

    /// Every operation keeps a consistent history consistent.
    pub proof fn lemma_apply_consistent(self, op: Op<T>)
        requires
            self.consistent(),
        ensures
            self.apply(op).consistent(),
    {
        let after = self.apply(op);
        match op {
            Op::Allocate(value) => {
                if !self.pool.is_full() {
                    let slot = self.pool.free[0];
                    let last = self.handles.len() as int;
                    self.pool.lemma_allocate_partitioned(value);
                    assert(!self.pool.is_live(slot));
                    assert(after.handles[last].slot == slot);
                    assert forall|k: int| 0 <= k < after.handles.len() implies 0 <= (
                    #[trigger] after.handles[k]).slot < after.pool.capacity()
                        && after.pool.slots[after.handles[k].slot] == Some(
                        after.handles[k].value,
                    ) by {
                        if k < last {
                            assert(after.handles[k] == self.handles[k]);
                            assert(self.pool.is_live(self.handles[k].slot));
                        } else {
                            assert(self.pool.free.contains(slot));
                        }
                    }
                    assert forall|j: int, k: int|
                        0 <= j < after.handles.len() && 0 <= k < after.handles.len() && j
                            != k implies (#[trigger] after.handles[j]).slot != (
                    #[trigger] after.handles[k]).slot by {
                        if j < last {
                            assert(after.handles[j] == self.handles[j]);
                            assert(self.pool.is_live(self.handles[j].slot));
                        }
                        if k < last {
                            assert(after.handles[k] == self.handles[k]);
                            assert(self.pool.is_live(self.handles[k].slot));
                        }
                    }
                    assert forall|i: int| #[trigger] after.pool.is_live(i) implies after.is_held(
                        i,
                    ) by {
                        if i == slot {
                            assert(after.handles[last].slot == i);
                        } else {
                            assert(self.pool.is_live(i));
                            let k = choose|k: int|
                                0 <= k < self.handles.len() && (#[trigger] self.handles[k]).slot
                                    == i;
                            assert(after.handles[k].slot == i);
                        }
                    }
                }
            },
            Op::Release(gone) => {
                if 0 <= gone < self.handles.len() {
                    let slot = self.handles[gone].slot;
                    assert(self.pool.is_live(slot));
                    self.pool.lemma_release_partitioned(slot);
                    self.handles.remove_ensures(gone);
                    assert forall|k: int| 0 <= k < after.handles.len() implies 0 <= (
                    #[trigger] after.handles[k]).slot < after.pool.capacity()
                        && after.pool.slots[after.handles[k].slot] == Some(
                        after.handles[k].value,
                    ) by {
                        let from = if k < gone {
                            k
                        } else {
                            k + 1
                        };
                        assert(after.handles[k] == self.handles[from]);
                        assert(self.handles[from].slot != self.handles[gone].slot);
                    }
                    assert forall|j: int, k: int|
                        0 <= j < after.handles.len() && 0 <= k < after.handles.len() && j
                            != k implies (#[trigger] after.handles[j]).slot != (
                    #[trigger] after.handles[k]).slot by {
                        let a = if j < gone {
                            j
                        } else {
                            j + 1
                        };
                        let b = if k < gone {
                            k
                        } else {
                            k + 1
                        };
                        assert(after.handles[j] == self.handles[a]);
                        assert(after.handles[k] == self.handles[b]);
                    }
                    assert forall|i: int| #[trigger] after.pool.is_live(i) implies after.is_held(
                        i,
                    ) by {
                        assert(self.pool.is_live(i));
                        let k = choose|k: int|
                            0 <= k < self.handles.len() && (#[trigger] self.handles[k]).slot == i;
                        if k < gone {
                            assert(after.handles[k].slot == i);
                        } else {
                            assert(after.handles[k - 1] == self.handles[k]);
                            assert(after.handles[k - 1].slot == i);
                        }
                    }
                }
            },
            Op::Write(through, value) => {
                if 0 <= through < self.handles.len() {
                    let slot = self.handles[through].slot;
                    assert(self.pool.is_live(slot));
                    self.pool.lemma_write_partitioned(slot, value);
                    assert forall|k: int| 0 <= k < after.handles.len() implies 0 <= (
                    #[trigger] after.handles[k]).slot < after.pool.capacity()
                        && after.pool.slots[after.handles[k].slot] == Some(
                        after.handles[k].value,
                    ) by {
                        if k != through {
                            assert(after.handles[k] == self.handles[k]);
                            assert(self.handles[k].slot != self.handles[through].slot);
                        }
                    }
                    assert forall|j: int, k: int|
                        0 <= j < after.handles.len() && 0 <= k < after.handles.len() && j
                            != k implies (#[trigger] after.handles[j]).slot != (
                    #[trigger] after.handles[k]).slot by {
                        assert(after.handles[j].slot == self.handles[j].slot);
                        assert(after.handles[k].slot == self.handles[k].slot);
                    }
                    assert forall|i: int| #[trigger] after.pool.is_live(i) implies after.is_held(
                        i,
                    ) by {
                        assert(self.pool.is_live(i));
                        let k = choose|k: int|
                            0 <= k < self.handles.len() && (#[trigger] self.handles[k]).slot == i;
                        assert(after.handles[k].slot == i);
                    }
                }
            },
        }
    }

    /// Whatever is done to a pool from the moment it was built, and in
    /// whatever order, its history is consistent.
    pub proof fn lemma_run_consistent(self, ops: Seq<Op<T>>)
        requires
            self.consistent(),
        ensures
            self.run(ops).consistent(),
        decreases ops.len(),
    {
        if ops.len() > 0 {
            self.lemma_run_consistent(ops.drop_last());
            self.run(ops.drop_last()).lemma_apply_consistent(ops.last());
        }
    }

    /// In a consistent history the live handles are exactly as many as the
    /// filled slots, so never more than the pool has slots; and when they
    /// are as many as the pool has slots, the pool is full, and the next
    /// allocation fails.
    pub proof fn lemma_handles_bounded(self)
        requires
            self.consistent(),
        ensures
            self.held().no_duplicates(),
            self.handles.len() == self.pool.live().len(),
            self.handles.len() <= self.pool.capacity(),
            self.handles.len() == self.pool.capacity() <==> self.pool.is_full(),
            forall|value: T|
                self.handles.len() == self.pool.capacity() ==> #[trigger] self.apply(
                    Op::Allocate(value),
                ) == self,
    {
        let held = self.held();
        self.pool.lemma_live_count();
        assert(held.no_duplicates()) by {
            assert forall|j: int, k: int|
                0 <= j < held.len() && 0 <= k < held.len() && j != k implies held[j] != held[k] by {
                assert(self.handles[j].slot != self.handles[k].slot);
            }
        }
        held.unique_seq_to_set();
        assert(held.to_set() =~= self.pool.live()) by {
            assert forall|i: int| held.to_set().contains(i) implies self.pool.live().contains(
                i,
            ) by {
                let k = choose|k: int| 0 <= k < held.len() && held[k] == i;
                assert(self.pool.slots[self.handles[k].slot] == Some(self.handles[k].value));
            }
            assert forall|i: int| self.pool.live().contains(i) implies held.to_set().contains(
                i,
            ) by {
                assert(self.pool.is_live(i));
                let k = choose|k: int|
                    0 <= k < self.handles.len() && (#[trigger] self.handles[k]).slot == i;
                assert(held[k] == i);
            }
        }
    }

    /// What a handle reads is what was last written through it: operations
    /// through other handles, and allocations, leave its slot alone.
    pub proof fn lemma_value_kept(self, k: int, op: Op<T>)
        requires
            self.consistent(),
            0 <= k < self.handles.len(),
            match op {
                Op::Allocate(_) => true,
                Op::Release(other) => other != k,
                Op::Write(other, _) => other != k,
            },
        ensures
            self.apply(op).pool.slots[self.handles[k].slot] == Some(self.handles[k].value),
    {
        let slot = self.handles[k].slot;
        assert(self.pool.is_live(slot));
        match op {
            Op::Allocate(value) => {
                if !self.pool.is_full() {
                    self.pool.lemma_allocate_partitioned(value);
                }
            },
            Op::Release(other) => {
                if 0 <= other < self.handles.len() {
                    assert(self.handles[other].slot != self.handles[k].slot);
                }
            },
            Op::Write(other, _) => {
                if 0 <= other < self.handles.len() {
                    assert(self.handles[other].slot != self.handles[k].slot);
                }
            },
        }
    }
}

} // verus!
