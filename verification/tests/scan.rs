use allocator::error::PoolError;
use allocator::scan::Allocator;

#[test]
fn equality_scan() {
    let mut a = Allocator::<i64>::new(1).unwrap();
    let b = a.box_it(123).unwrap();
    assert_eq!(123, *b.deref(&a));
}

#[test]
fn memory_reclamation_scan() {
    let mut a = Allocator::<i64>::new(1).unwrap();
    let b = a.box_it(123).unwrap();
    b.drop(&mut a);
    let c = a.box_it(234).unwrap();
    assert_eq!(234, *c.deref(&a));
}

#[test]
fn out_of_memory_scan() {
    let mut a = Allocator::<i64>::new(1).unwrap();
    let b = a.box_it(123).unwrap();
    assert!(matches!(a.box_it(234), Err(PoolError::ResourceExhausted)));
    b.drop(&mut a);
    assert_eq!(234, *a.box_it(234).unwrap().deref(&a));
}

#[test]
fn invalid_capacity_scan() {
    assert!(matches!(Allocator::<i64>::new(0), Err(PoolError::InvalidCapacity)));
    assert!(matches!(Allocator::<i64>::new(usize::MAX), Err(PoolError::InvalidCapacity)));
}

#[test]
fn the_lowest_free_slot_is_taken() {
    let mut a = Allocator::<u8>::new(3).unwrap();
    let b0 = a.box_it(10).unwrap();
    let b1 = a.box_it(11).unwrap();
    let mut b2 = a.box_it(12).unwrap();
    assert_eq!((0, 1, 2), (b0.index(), b1.index(), b2.index()));
    b1.drop(&mut a);
    b0.drop(&mut a);
    let c = a.box_it(20).unwrap();
    assert_eq!(0, c.index());
    let d = a.box_it(21).unwrap();
    assert_eq!(1, d.index());
    assert!(a.holds(&b2));
    *b2.deref_mut(&mut a) = 13;
    assert_eq!(13, *b2.deref(&a));
    assert_eq!(20, *c.deref(&a));
    assert_eq!(21, *d.deref(&a));
    assert!(matches!(a.box_it(0), Err(PoolError::ResourceExhausted)));
}
