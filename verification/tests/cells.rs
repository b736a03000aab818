use allocator::chain::link_to;
use allocator::error::PoolError;
use allocator::lockfree::cells::{settle, Cells, Round};

fn allocate(cells: &Cells) -> Option<usize> {
    let mut head = cells.head();
    loop {
        match cells.allocate_round(head) {
            Round::Done(index) => return Some(index),
            Round::Exhausted => return None,
            Round::Retry(new_head) => head = new_head,
        }
    }
}

fn release(cells: &Cells, index: usize) {
    let mut head = cells.head();
    loop {
        match cells.release_round(index, head) {
            Round::Done(slot) => {
                assert_eq!(index, slot);
                return;
            }
            Round::Exhausted => unreachable!(),
            Round::Retry(new_head) => head = new_head,
        }
    }
}

#[test]
fn fresh_cells_hand_out_every_slot_once() {
    let cells = Cells::new(3).unwrap();
    assert_eq!(3, cells.slots());
    assert_eq!(0, cells.head());
    assert_eq!(Some(0), allocate(&cells));
    assert_eq!(1, cells.head());
    assert_eq!(Some(1), allocate(&cells));
    assert_eq!(Some(2), allocate(&cells));
    assert_eq!(-1, cells.head());
    assert_eq!(None, allocate(&cells));
}

#[test]
fn released_slots_come_back_last_in_first_out() {
    let cells = Cells::new(3).unwrap();
    assert_eq!(Some(0), allocate(&cells));
    assert_eq!(Some(1), allocate(&cells));
    release(&cells, 0);
    assert_eq!(0, cells.head());
    release(&cells, 1);
    assert_eq!(1, cells.head());
    assert_eq!(Some(1), allocate(&cells));
    assert_eq!(Some(0), allocate(&cells));
    assert_eq!(Some(2), allocate(&cells));
    assert_eq!(None, allocate(&cells));
}

#[test]
fn a_round_on_a_stale_head_asks_for_a_retry() {
    let cells = Cells::new(2).unwrap();
    let stale = cells.head();
    assert_eq!(Some(0), allocate(&cells));
    let mut round = cells.allocate_round(stale);
    while let Round::Retry(head) = round {
        if head == stale {
            round = cells.allocate_round(stale);
        } else {
            assert_eq!(1, head);
            break;
        }
    }
    assert!(matches!(round, Round::Retry(1)));
    assert!(matches!(cells.release_round(0, stale), Round::Retry(1)));
}

#[test]
fn a_round_on_the_end_marker_is_exhausted() {
    let cells = Cells::new(1).unwrap();
    assert!(matches!(cells.allocate_round(-1), Round::Exhausted));
    assert!(matches!(cells.allocate_round(1), Round::Exhausted));
    assert!(matches!(cells.allocate_round(isize::MIN), Round::Exhausted));
}

#[test]
fn cells_need_a_valid_capacity() {
    assert!(matches!(Cells::new(0), Err(PoolError::InvalidCapacity)));
    assert!(matches!(Cells::new(usize::MAX), Err(PoolError::InvalidCapacity)));
}

#[test]
fn an_exchange_settles_the_round() {
    assert!(matches!(settle(4, Ok(7)), Round::Done(4)));
    assert!(matches!(settle(4, Err(7)), Round::Retry(7)));
    assert!(matches!(settle(0, Err(-1)), Round::Retry(-1)));
}

#[test]
fn a_link_names_its_slot() {
    assert_eq!(0, link_to(0));
    assert_eq!(41, link_to(41));
    assert_eq!(isize::MAX, link_to(isize::MAX as usize));
}
