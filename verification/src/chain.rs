//! Free lists threaded through an array of links.

use vstd::prelude::*;

verus! {

/// The link value that ends a free list.
pub const INVALID_INDEX: isize = -1;

/// The slot that a link names, if it names one of `capacity` slots.  The end
/// marker names none.
pub fn slot_of(link: isize, capacity: usize) -> (slot: Option<usize>)
    ensures
        match slot {
            Some(index) => index == link && index < capacity,
            None => link < 0 || link >= capacity,
        },
{
    if link >= 0 && (link as usize) < capacity {
        Some(link as usize)
    } else {
        None
    }
}

/// The link that names slot `index`.
pub fn link_to(index: usize) -> (link: isize)
    requires
        index <= isize::MAX,
    ensures
        link == index,
{
    index as isize
}

/// The link stored in the `k`-th member of `chain`: the member after it, or
/// the end marker.
pub open spec fn successor(chain: Seq<int>, k: int) -> int {
    if k + 1 < chain.len() {
        chain[k + 1]
    } else {
        INVALID_INDEX as int
    }
}

/// Starting at `head` and following `next` visits exactly `chain`, in
/// order, without visiting any slot twice, and then reaches the end marker.
pub open spec fn linked(next: Seq<int>, head: int, chain: Seq<int>) -> bool {
    &&& chain.no_duplicates()
    &&& head == if chain.len() == 0 {
        INVALID_INDEX as int
    } else {
        chain[0]
    }
    &&& forall|k: int|
        0 <= k < chain.len() ==> 0 <= #[trigger] chain[k] < next.len() && next[chain[k]]
            == successor(chain, k)
}

/// The links of a pool that was just built: each slot points at the one
/// after it, the last one at the end marker.
pub open spec fn fresh_links(capacity: nat) -> Seq<int> {
    Seq::new(
        capacity,
        |i: int|
            if i + 1 < capacity {
                i + 1
            } else {
                INVALID_INDEX as int
            },
    )
}

/// The links of a pool that was just built spell out every slot, in
/// ascending order.
pub proof fn lemma_fresh_linked(capacity: nat)
    requires
        capacity > 0,
    ensures
        linked(fresh_links(capacity), 0, Seq::new(capacity, |i: int| i)),
{
}

/// Taking the head off a list leaves the list that starts at the head's
/// link.
pub proof fn lemma_linked_pop(next: Seq<int>, head: int, chain: Seq<int>)
    requires
        linked(next, head, chain),
        chain.len() > 0,
    ensures
        linked(next, next[head], chain.skip(1)),
        !chain.skip(1).contains(head),
{
    let rest = chain.skip(1);
    assert(chain[0] == head);
    assert forall|k: int| 0 <= k < rest.len() implies 0 <= #[trigger] rest[k] < next.len()
        && next[rest[k]] == successor(rest, k) by {
        assert(rest[k] == chain[k + 1]);
        assert(successor(chain, k + 1) == successor(rest, k));
    }
    assert(next[chain[0]] == successor(chain, 0));
}

/// Pointing a slot outside the list at the old head, and the head at that
/// slot, puts the slot in front of the list.
pub proof fn lemma_linked_push(next: Seq<int>, head: int, chain: Seq<int>, index: int)
    requires
        linked(next, head, chain),
        0 <= index < next.len(),
        !chain.contains(index),
        next[index] == head,
    ensures
        linked(next, index, seq![index] + chain),
{
    let longer = seq![index] + chain;
    assert forall|k: int| 0 <= k < longer.len() implies 0 <= #[trigger] longer[k] < next.len()
        && next[longer[k]] == successor(longer, k) by {
        if k > 0 {
            assert(longer[k] == chain[k - 1]);
            assert(successor(longer, k) == successor(chain, k - 1));
        }
    }
    assert forall|i: int, j: int|
        0 <= i < longer.len() && 0 <= j < longer.len() && i != j implies longer[i] != longer[j] by {
        if i > 0 {
            assert(longer[i] == chain[i - 1]);
        }
        if j > 0 {
            assert(longer[j] == chain[j - 1]);
        }
    }
}

/// A list is untouched by writes to links of slots that are not on it.
pub proof fn lemma_linked_frame(next: Seq<int>, changed: Seq<int>, head: int, chain: Seq<int>)
    requires
        linked(next, head, chain),
        changed.len() == next.len(),
        forall|k: int| 0 <= k < chain.len() ==> changed[#[trigger] chain[k]] == next[chain[k]],
    ensures
        linked(changed, head, chain),
{
}

/// The links and the head determine the list.
pub proof fn lemma_linked_unique(next: Seq<int>, head: int, a: Seq<int>, b: Seq<int>)
    requires
        linked(next, head, a),
        linked(next, head, b),
    ensures
        a == b,
    decreases a.len(),
{
    if a.len() == 0 || b.len() == 0 {
        if a.len() > 0 {
            assert(0 <= a[0]);
        }
        if b.len() > 0 {
            assert(0 <= b[0]);
        }
        assert(a =~= b);
    } else {
        lemma_linked_pop(next, head, a);
        lemma_linked_pop(next, head, b);
        lemma_linked_unique(next, next[head], a.skip(1), b.skip(1));
        assert(a =~= seq![a[0]] + a.skip(1));
        assert(b =~= seq![b[0]] + b.skip(1));
    }
}

/// What is left of a list from its `k`-th member on is the list that starts
/// at that member.
pub proof fn lemma_linked_suffix(next: Seq<int>, head: int, chain: Seq<int>, k: int)
    requires
        linked(next, head, chain),
        0 <= k < chain.len(),
    ensures
        linked(next, chain[k], chain.skip(k)),
    decreases k,
{
    if k == 0 {
        assert(chain.skip(0) =~= chain);
    } else {
        lemma_linked_pop(next, head, chain);
        lemma_linked_suffix(next, next[head], chain.skip(1), k - 1);
        assert(chain.skip(1).skip(k - 1) =~= chain.skip(k));
    }
}

} // verus!
