use allocator::error::PoolError;
use allocator::sharded::Allocator;
use allocator::usage::{assign, unassign};

#[test]
fn equality_sharded() {
    let mut a = Allocator::<i64>::new(1).unwrap();
    let b = a.box_it(123).unwrap();
    assert_eq!(123, *b.deref(&a));
}

#[test]
fn memory_reclamation_sharded() {
    let mut a = Allocator::<i64>::new(1).unwrap();
    let b = a.box_it(123).unwrap();
    b.drop(&mut a);
    let c = a.box_it(234).unwrap();
    assert_eq!(234, *c.deref(&a));
}

#[test]
fn invalid_capacity_sharded() {
    assert!(matches!(Allocator::<i64>::new(0), Err(PoolError::InvalidCapacity)));
    assert!(matches!(Allocator::<i64>::new(usize::MAX), Err(PoolError::InvalidCapacity)));
}

#[test]
fn a_full_shard_fails_while_others_have_room() {
    let mut a = Allocator::<i64>::new(3).unwrap();
    let first = a.thread_local().unwrap();
    let second = a.thread_local().unwrap();
    assert_eq!(0, first.index());
    assert_eq!(1, second.index());
    let mut b = first.box_it(&mut a, 1).unwrap();
    assert!(matches!(first.box_it(&mut a, 2), Err(PoolError::ResourceExhausted)));
    let c = second.box_it(&mut a, 3).unwrap();
    assert!(a.holds(&b));
    *b.deref_mut(&mut a) = 5;
    assert_eq!(5, *b.deref(&a));
    assert_eq!(3, *c.deref(&a));
    b.drop(&mut a);
    let d = first.box_it(&mut a, 4).unwrap();
    assert_eq!(4, *d.deref(&a));
    assert!(matches!(a.box_it_with_index(0, 3), Err(PoolError::ResourceExhausted)));
    assert!(a.box_it_with_index(7, 2).is_ok());
}

#[test]
fn proxies_spread_over_the_shards() {
    let a = Allocator::<i64>::new(3).unwrap();
    let mut counts = [0usize; 3];
    let mut proxies = Vec::new();
    let mut order = Vec::new();
    for _ in 0..10 {
        let proxy = a.thread_local().unwrap();
        assert!(proxy.index() < 3);
        counts[proxy.index()] += 1;
        order.push(proxy.index());
        proxies.push(proxy);
        let most = counts.iter().max().unwrap();
        let least = counts.iter().min().unwrap();
        assert!(most - least <= 1);
    }
    assert_eq!(vec![0, 1, 2, 0, 1, 2, 0, 1, 2, 0], order);
    let gone = proxies.remove(1);
    assert_eq!(1, gone.index());
    gone.drop(&a);
    assert_eq!(1, a.thread_local().unwrap().index());
    assert_eq!(1, a.thread_local().unwrap().index());
    assert_eq!(2, a.thread_local().unwrap().index());
}

#[test]
fn assign_takes_the_first_of_the_least_used() {
    let mut counts: Vec<u16> = vec![2, 1, 1, 3];
    assert_eq!(Some(1), assign(&mut counts));
    assert_eq!(vec![2, 2, 1, 3], counts);
    assert_eq!(Some(2), assign(&mut counts));
    assert_eq!(vec![2, 2, 2, 3], counts);
    assert_eq!(Some(0), assign(&mut counts));
    assert_eq!(vec![3, 2, 2, 3], counts);
}

#[test]
fn assign_fails_on_an_empty_or_saturated_table() {
    let mut none: Vec<u16> = Vec::new();
    assert_eq!(None, assign(&mut none));
    assert!(none.is_empty());
    let mut full: Vec<u16> = vec![u16::MAX, u16::MAX];
    assert_eq!(None, assign(&mut full));
    assert_eq!(vec![u16::MAX, u16::MAX], full);
    let mut nearly: Vec<u16> = vec![u16::MAX, u16::MAX - 1];
    assert_eq!(Some(1), assign(&mut nearly));
    assert_eq!(vec![u16::MAX, u16::MAX], nearly);
}

#[test]
fn unassign_counts_down_where_it_can() {
    let mut counts: Vec<u16> = vec![2, 0];
    assert!(unassign(&mut counts, 0));
    assert_eq!(vec![1, 0], counts);
    assert!(!unassign(&mut counts, 1));
    assert!(!unassign(&mut counts, 2));
    assert_eq!(vec![1, 0], counts);
}

#[test]
fn shards_of_several_slots_fill_up_one_by_one() {
    let mut a = Allocator::<u8>::with_shards(2, 2).unwrap();
    let first = a.thread_local().unwrap();
    let second = a.thread_local().unwrap();
    assert_eq!((0, 1), (first.index(), second.index()));
    let b0 = first.box_it(&mut a, 1).unwrap();
    let b1 = first.box_it(&mut a, 2).unwrap();
    assert!(matches!(first.box_it(&mut a, 3), Err(PoolError::ResourceExhausted)));
    let c0 = second.box_it(&mut a, 4).unwrap();
    assert_eq!(1, *b0.deref(&a));
    assert_eq!(2, *b1.deref(&a));
    assert_eq!(4, *c0.deref(&a));
    b0.drop(&mut a);
    let b2 = first.box_it(&mut a, 5).unwrap();
    assert_eq!(5, *b2.deref(&a));
    assert_eq!(2, *b1.deref(&a));
    assert!(matches!(Allocator::<u8>::with_shards(0, 2), Err(PoolError::InvalidCapacity)));
    assert!(matches!(Allocator::<u8>::with_shards(2, 0), Err(PoolError::InvalidCapacity)));
    assert!(matches!(
        Allocator::<u8>::with_shards(2, usize::MAX),
        Err(PoolError::InvalidCapacity)
    ));
}

#[test]
fn the_table_has_one_count_per_shard() {
    let a = Allocator::<u8>::with_shards(2, 5).unwrap();
    let order: Vec<usize> = (0..5).map(|_| a.thread_local().unwrap().index()).collect();
    assert_eq!(vec![0, 1, 0, 1, 0], order);
    let single = Allocator::<u8>::new(1).unwrap();
    assert_eq!(0, single.thread_local().unwrap().index());
    assert_eq!(0, single.thread_local().unwrap().index());
}

#[test]
fn assign_works_on_a_slice_of_counts() {
    let mut counts: [u16; 3] = [1, 0, 0];
    assert_eq!(Some(1), assign(&mut counts[..]));
    assert_eq!([1, 1, 0], counts);
    assert_eq!(Some(2), assign(&mut counts[1..]).map(|index| index + 1));
    assert_eq!([1, 1, 1], counts);
    assert!(unassign(&mut counts[..], 2));
    assert_eq!([1, 1, 0], counts);
}
