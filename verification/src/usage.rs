//! The table that counts, for every shard, the proxies bound to it.
//!
//! The table is shared by all threads and sits behind one `parking_lot`
//! mutex.  What is decided with the lock held is decided by [`assign`] and
//! [`unassign`], which work on the counts themselves.

use vstd::prelude::*;

verus! {

/// The counts of all shards, in a boxed slice behind a `parking_lot::Mutex`.
/// A boxed slice keeps the length that it was made with, so the table has
/// one count per shard for as long as it lives.  Nothing is assumed about
/// the counts themselves.
#[verifier::external_body]
pub struct UsageTable {
    counts: parking_lot::Mutex<std::boxed::Box<[u16]>>,
}

/// The guard of a locked usage table.  It wraps `parking_lot::MutexGuard`,
/// whose drop unlocks the mutex.  Nothing is assumed about the counts behind
/// it.
#[verifier::external_body]
pub struct UsageGuard<'a> {
    guard: parking_lot::MutexGuard<'a, std::boxed::Box<[u16]>>,
}

/// The number of counts that the table was made with.
pub uninterp spec fn table_shards(table: UsageTable) -> nat;

/// The number of counts of the table that the guard has locked.
pub uninterp spec fn guard_shards(guard: UsageGuard) -> nat;

/// Calls `parking_lot::Mutex::new`, which makes an unlocked mutex around the
/// counts.  The contract claims that the table has as many counts as it was
/// given; nothing is assumed about their values.
#[verifier::external_body]
pub(crate) fn new_table(counts: Vec<u16>) -> (table: UsageTable)
    ensures
        table_shards(table) == counts@.len(),
{
    UsageTable { counts: parking_lot::Mutex::new(counts.into_boxed_slice()) }
}

/// Calls `parking_lot::Mutex::lock`, which blocks until the calling thread
/// holds the mutex.  The contract claims that the guard is one of this
/// table, which has the number of counts that it was made with.  Nothing is
/// assumed about what the counts are by then: other threads may have changed
/// them.  The call does not return in a thread that already holds the mutex;
/// every caller in this crate lets go of the guard before it returns.
#[verifier::external_body]
pub(crate) fn lock_table<'a>(table: &'a UsageTable) -> (guard: UsageGuard<'a>)
    ensures
        guard_shards(guard) == table_shards(*table),
{
    UsageGuard { guard: table.counts.lock() }
}

/// Calls `DerefMut::deref_mut` of `parking_lot::MutexGuard`, which gives
/// access to the counts behind the mutex.  The contract claims that there
/// are as many of them as the locked table has; nothing is assumed about
/// their values.  The counts are handed out as a slice, through which their
/// number cannot change.
#[verifier::external_body]
pub(crate) fn counts_of<'a, 'b>(guard: &'b mut UsageGuard<'a>) -> (counts: &'b mut [u16])
    ensures
        counts@.len() == guard_shards(*old(guard)),
{
    &mut **guard.guard
}

/// Shard `index` has the lowest count, and is the first shard with that
/// count.
pub open spec fn is_least_used(counts: Seq<u16>, index: int) -> bool {
    &&& 0 <= index < counts.len()
    &&& forall|j: int| 0 <= j < counts.len() ==> counts[index] <= #[trigger] counts[j]
    &&& forall|j: int| 0 <= j < index ==> counts[index] < #[trigger] counts[j]
}

/// No shard has room for another proxy.
pub open spec fn is_saturated(counts: Seq<u16>) -> bool {
    forall|j: int| 0 <= j < counts.len() ==> #[trigger] counts[j] == u16::MAX
}

/// No two counts differ by more than one.
pub open spec fn is_balanced(counts: Seq<u16>) -> bool {
    forall|i: int, j: int|
        0 <= i < counts.len() && 0 <= j < counts.len() ==> #[trigger] counts[i] - #[trigger] counts[j]
            <= 1
}

/// The shard that the next proxy is bound to.
pub open spec fn least_used(counts: Seq<u16>) -> int {
    choose|index: int| is_least_used(counts, index)
}

/// The counts after one more proxy was bound.  A saturated table stays as
/// it is.
pub open spec fn assigned(counts: Seq<u16>) -> Seq<u16> {
    if is_saturated(counts) {
        counts
    } else {
        counts.update(least_used(counts), (counts[least_used(counts)] + 1) as u16)
    }
}

/// The counts after `n` more proxies were bound, and none released.
pub open spec fn assigned_times(counts: Seq<u16>, n: nat) -> Seq<u16>
    decreases n,
{
    if n == 0 {
        counts
    } else {
        assigned(assigned_times(counts, (n - 1) as nat))
    }
}

/// At most one shard is the least used.
pub proof fn lemma_least_used_unique(counts: Seq<u16>, a: int, b: int)
    requires
        is_least_used(counts, a),
        is_least_used(counts, b),
    ensures
        a == b,
{
    if a < b {
        assert(counts[b] < counts[a]);
        assert(counts[a] <= counts[b]);
    }
    if b < a {
        assert(counts[a] < counts[b]);
        assert(counts[b] <= counts[a]);
    }
}

/// Binds one more proxy to the least used shard, the first of them if
/// several are used equally little, and says which one that is.  Fails, and
/// changes nothing, exactly when no shard has room: the table is empty or
/// every count is at its maximum.
pub fn assign(counts: &mut [u16]) -> (shard: Option<usize>)
    ensures
        final(counts)@ == assigned(old(counts)@),
        match shard {
            Some(index) => {
                &&& is_least_used(old(counts)@, index as int)
                &&& old(counts)@[index as int] < u16::MAX
                &&& final(counts)@ == old(counts)@.update(
                    index as int,
                    (old(counts)@[index as int] + 1) as u16,
                )
            },
            None => is_saturated(old(counts)@) && final(counts)@ == old(counts)@,
        },
{
    if counts.len() == 0 {
        return None;
    }
    let mut index: usize = 0;
    let mut next: usize = 1;
    while next < counts.len()
        invariant
            counts@ == old(counts)@,
            0 <= index < next <= counts@.len(),
            forall|j: int| 0 <= j < next ==> counts@[index as int] <= #[trigger] counts@[j],
            forall|j: int| 0 <= j < index ==> counts@[index as int] < #[trigger] counts@[j],
        decreases counts@.len() - next,
    {
        if counts[next] < counts[index] {
            index = next;
        }
        next += 1;
    }
    let count = counts[index];
    if count == u16::MAX {
        assert(is_saturated(counts@)) by {
            assert forall|j: int| 0 <= j < counts@.len() implies #[trigger] counts@[j]
                == u16::MAX by {
                assert(counts@[index as int] <= counts@[j]);
            }
        }
        return None;
    }
    proof {
        assert(is_least_used(counts@, index as int));
        assert(!is_saturated(counts@));
        lemma_least_used_unique(counts@, index as int, least_used(counts@));
    }
    counts[index] = count + 1;
    assert(counts@ =~= old(counts)@.update(index as int, (count + 1) as u16));
    Some(index)
}

/// Takes one proxy off shard `index`, and says whether it did.  It does
/// not, and changes nothing, exactly when the table has no such shard or
/// the shard has no proxy.
pub fn unassign(counts: &mut [u16], index: usize) -> (done: bool)
    ensures
        done <==> index < old(counts)@.len() && old(counts)@[index as int] > 0,
        done ==> final(counts)@ == old(counts)@.update(
            index as int,
            (old(counts)@[index as int] - 1) as u16,
        ),
        !done ==> final(counts)@ == old(counts)@,
{
    if index < counts.len() && counts[index] > 0 {
        let count = counts[index];
        counts[index] = count - 1;
        assert(counts@ =~= old(counts)@.update(index as int, (count - 1) as u16));
        true
    } else {
        false
    }
}

/// Binding one more proxy keeps a balanced table balanced.
pub proof fn lemma_assigned_balanced(counts: Seq<u16>)
    requires
        is_balanced(counts),
    ensures
        is_balanced(assigned(counts)),
{
    if !is_saturated(counts) {
        lemma_least_used_exists(counts);
        let index = least_used(counts);
        let after = assigned(counts);
        assert(counts[index] < u16::MAX) by {
            if counts[index] == u16::MAX {
                assert forall|j: int| 0 <= j < counts.len() implies #[trigger] counts[j]
                    == u16::MAX by {
                    assert(counts[index] <= counts[j]);
                }
            }
        }
        assert forall|i: int, j: int| 0 <= i < after.len() && 0 <= j < after.len() implies
            #[trigger] after[i] - #[trigger] after[j] <= 1 by {
            assert(counts[i] - counts[j] <= 1);
            assert(counts[index] <= counts[i]);
            assert(counts[index] <= counts[j]);
        }
    }
}

/// A table that is not empty has a least used shard.
pub proof fn lemma_least_used_exists(counts: Seq<u16>)
    requires
        counts.len() > 0,
    ensures
        is_least_used(counts, least_used(counts)),
    decreases counts.len(),
{
    if counts.len() == 1 {
        assert(is_least_used(counts, 0));
    } else {
        let front = counts.drop_last();
        lemma_least_used_exists(front);
        let best = least_used(front);
        let last = counts.len() - 1;
        if counts[last] < front[best] {
            assert forall|j: int| 0 <= j < counts.len() implies counts[last] <= #[trigger] counts[j] by {
                if j < last {
                    assert(front[best] <= front[j]);
                }
            }
            assert forall|j: int| 0 <= j < last implies counts[last] < #[trigger] counts[j] by {
                assert(front[best] <= front[j]);
            }
            assert(is_least_used(counts, last));
        } else {
            assert forall|j: int| 0 <= j < counts.len() implies counts[best] <= #[trigger] counts[j] by {
                if j < last {
                    assert(front[best] <= front[j]);
                }
            }
            assert forall|j: int| 0 <= j < best implies counts[best] < #[trigger] counts[j] by {
                assert(front[best] < front[j]);
            }
            assert(is_least_used(counts, best));
        }
    }
}

/// However many proxies are bound one after another to a balanced table,
/// with none released in between, no two counts come to differ by more
/// than one.
pub proof fn lemma_assigned_times_balanced(counts: Seq<u16>, n: nat)
    requires
        is_balanced(counts),
    ensures
        is_balanced(assigned_times(counts, n)),
    decreases n,
{
    if n > 0 {
        lemma_assigned_times_balanced(counts, (n - 1) as nat);
        lemma_assigned_balanced(assigned_times(counts, (n - 1) as nat));
    }
}

} // verus!
