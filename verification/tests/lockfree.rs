use allocator::chain::slot_of;
use allocator::error::{check_capacity, PoolError};
use allocator::lockfree::{Allocator, Slot};

#[test]
fn equality() {
    let mut a = Allocator::<i64>::new(1).unwrap();
    let b = a.box_it(123).unwrap();
    assert_eq!(123, *b.deref(&a));
    b.drop(&mut a);
}

#[test]
#[should_panic]
fn panic_when_out_of_memory() {
    let mut a = Allocator::<i64>::new(1).unwrap();
    let b = a.box_it(123).unwrap();
    let c = a.box_it(234).unwrap();
    c.drop(&mut a);
    b.drop(&mut a);
}

#[test]
fn memory_reclamation() {
    let mut a = Allocator::<i64>::new(1).unwrap();
    let b = a.box_it(123).unwrap();
    b.drop(&mut a);
    let c = a.box_it(234).unwrap();
    assert_eq!(234, *c.deref(&a));
}

#[test]
fn second_allocation_is_refused_until_release() {
    let mut a = Allocator::<i64>::new(1).unwrap();
    let b = a.box_it(123).unwrap();
    assert_eq!(123, *b.deref(&a));
    assert!(matches!(a.box_it(234), Err(PoolError::ResourceExhausted)));
    assert_eq!(123, *b.deref(&a));
    b.drop(&mut a);
    let c = a.box_it(234).unwrap();
    assert_eq!(234, *c.deref(&a));
    assert_eq!(0, c.index());
}

#[test]
fn capacity_zero_is_rejected() {
    assert!(matches!(Allocator::<i64>::new(0), Err(PoolError::InvalidCapacity)));
}

#[test]
fn capacity_beyond_the_index_range_is_rejected() {
    assert!(matches!(Allocator::<i64>::new(usize::MAX), Err(PoolError::InvalidCapacity)));
    assert!(matches!(
        Allocator::<i64>::new(isize::MAX as usize + 1),
        Err(PoolError::InvalidCapacity)
    ));
}

#[test]
fn slots_are_handed_out_in_ascending_order_at_first() {
    let mut a = Allocator::<u8>::new(4).unwrap();
    let handles: Vec<_> = (0..4).map(|v| a.box_it(v).unwrap()).collect();
    let indices: Vec<usize> = handles.iter().map(|h| h.index()).collect();
    assert_eq!(vec![0, 1, 2, 3], indices);
    assert!(matches!(a.box_it(9), Err(PoolError::ResourceExhausted)));
}

#[test]
fn the_slot_released_last_is_reused_first() {
    let mut a = Allocator::<u8>::new(3).unwrap();
    let b0 = a.box_it(10).unwrap();
    let b1 = a.box_it(11).unwrap();
    let b2 = a.box_it(12).unwrap();
    b0.drop(&mut a);
    b2.drop(&mut a);
    let c = a.box_it(20).unwrap();
    assert_eq!(2, c.index());
    let d = a.box_it(21).unwrap();
    assert_eq!(0, d.index());
    assert_eq!(11, *b1.deref(&a));
    assert_eq!(20, *c.deref(&a));
    assert_eq!(21, *d.deref(&a));
    assert!(matches!(a.box_it(22), Err(PoolError::ResourceExhausted)));
}

#[test]
fn a_write_is_read_back_and_leaves_other_slots_alone() {
    let mut a = Allocator::<String>::new(2).unwrap();
    let mut b = a.box_it(String::from("one")).unwrap();
    let c = a.box_it(String::from("two")).unwrap();
    b.deref_mut(&mut a).push_str("!");
    assert_eq!("one!", b.deref(&a));
    *b.deref_mut(&mut a) = String::from("three");
    assert_eq!("three", b.deref(&a));
    assert_eq!("two", c.deref(&a));
    c.drop(&mut a);
    assert_eq!("three", b.deref(&a));
}

#[test]
fn no_two_live_handles_share_a_slot() {
    let capacity = 5;
    let mut a = Allocator::<usize>::new(capacity).unwrap();
    let mut occupied = vec![false; capacity];
    let mut live = Vec::new();
    for round in 0..200usize {
        if round % 3 == 2 && !live.is_empty() {
            let handle: allocator::lockfree::Box<usize> = live.remove(round % live.len());
            assert!(occupied[handle.index()]);
            occupied[handle.index()] = false;
            handle.drop(&mut a);
        } else {
            match a.box_it(round) {
                Ok(handle) => {
                    assert!(handle.index() < capacity);
                    assert!(!occupied[handle.index()]);
                    occupied[handle.index()] = true;
                    live.push(handle);
                }
                Err(error) => {
                    assert_eq!(PoolError::ResourceExhausted, error);
                    assert_eq!(capacity, live.len());
                }
            }
        }
        assert!(live.len() <= capacity);
    }
}

#[test]
fn an_empty_slot_carries_its_link_and_no_value() {
    let slot = Slot::<i64>::empty(7);
    assert_eq!(7, *slot.next);
    assert!(slot.data.is_none());
    let last = Slot::<i64>::empty(-1);
    assert_eq!(-1, last.next.0);
}

#[test]
fn a_link_names_a_slot_only_within_the_capacity() {
    assert_eq!(Some(0), slot_of(0, 1));
    assert_eq!(Some(3), slot_of(3, 4));
    assert_eq!(None, slot_of(4, 4));
    assert_eq!(None, slot_of(-1, 4));
    assert_eq!(None, slot_of(-2, 4));
    assert_eq!(None, slot_of(0, 0));
    assert_eq!(None, slot_of(isize::MIN, usize::MAX));
}

#[test]
fn a_capacity_is_checked_against_the_index_range() {
    assert_eq!(Err(PoolError::InvalidCapacity), check_capacity(0));
    assert_eq!(Ok(()), check_capacity(1));
    assert_eq!(Ok(()), check_capacity(isize::MAX as usize));
    assert_eq!(Err(PoolError::InvalidCapacity), check_capacity(isize::MAX as usize + 1));
}

#[test]
fn a_pool_knows_its_own_live_handles() {
    let mut a = Allocator::<u8>::new(2).unwrap();
    let mut small = Allocator::<u8>::new(1).unwrap();
    let b = a.box_it(1).unwrap();
    let c = a.box_it(2).unwrap();
    assert!(a.holds(&b));
    assert!(a.holds(&c));
    assert!(!small.holds(&b));
    assert!(!small.holds(&c));
    let d = small.box_it(3).unwrap();
    assert!(small.holds(&b));
    b.drop(&mut a);
    assert!(a.holds(&c));
    assert!(small.holds(&d));
}
