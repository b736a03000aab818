use allocator::error::PoolError;
use allocator::locked::{Allocator, Slot};

#[test]
fn equality_locked() {
    let mut a = Allocator::<i64>::new(1).unwrap();
    let b = a.box_it(123).unwrap();
    assert_eq!(123, *b.deref(&a));
}

#[test]
fn memory_reclamation_locked() {
    let mut a = Allocator::<i64>::new(1).unwrap();
    let b = a.box_it(123).unwrap();
    b.drop(&mut a);
    let c = a.box_it(234).unwrap();
    assert_eq!(234, *c.deref(&a));
}

#[test]
fn out_of_memory_locked() {
    let mut a = Allocator::<i64>::new(1).unwrap();
    let b = a.box_it(123).unwrap();
    assert!(matches!(a.box_it(234), Err(PoolError::ResourceExhausted)));
    assert_eq!(123, *b.deref(&a));
    b.drop(&mut a);
    let c = a.box_it(234).unwrap();
    assert_eq!(234, *c.deref(&a));
    assert_eq!(0, c.index());
}

#[test]
fn invalid_capacity_locked() {
    assert!(matches!(Allocator::<i64>::new(0), Err(PoolError::InvalidCapacity)));
    assert!(matches!(Allocator::<i64>::new(usize::MAX), Err(PoolError::InvalidCapacity)));
}

#[test]
fn reuse_order_locked() {
    let mut a = Allocator::<u8>::new(3).unwrap();
    let b0 = a.box_it(10).unwrap();
    let mut b1 = a.box_it(11).unwrap();
    let b2 = a.box_it(12).unwrap();
    assert_eq!((0, 1, 2), (b0.index(), b1.index(), b2.index()));
    assert!(a.holds(&b1));
    b1.drop(&mut a);
    b0.drop(&mut a);
    let c = a.box_it(20).unwrap();
    assert_eq!(0, c.index());
    assert!(a.holds(&c));
    b1 = a.box_it(21).unwrap();
    assert_eq!(1, b1.index());
    *b1.deref_mut(&mut a) += 1;
    assert_eq!(22, *b1.deref(&a));
    assert_eq!(12, *b2.deref(&a));
    assert_eq!(20, *c.deref(&a));
    assert!(matches!(a.box_it(0), Err(PoolError::ResourceExhausted)));
}

#[test]
fn occupancy_locked() {
    let capacity = 4;
    let mut a = Allocator::<usize>::new(capacity).unwrap();
    let mut occupied = vec![false; capacity];
    let mut live = Vec::new();
    for round in 0..120usize {
        if round % 4 == 3 && !live.is_empty() {
            let handle: allocator::locked::Box<usize> = live.remove(round % live.len());
            occupied[handle.index()] = false;
            handle.drop(&mut a);
        } else if let Ok(handle) = a.box_it(round) {
            assert!(!occupied[handle.index()]);
            occupied[handle.index()] = true;
            live.push(handle);
        } else {
            assert_eq!(capacity, live.len());
        }
    }
}

#[test]
fn a_new_slot_can_be_built() {
    let _first = Slot::<i64>::new(1);
    let _last = Slot::<i64>::new(-1);
}
