use allocator::align128::Align128;
use allocator::mutex::Mutex;

#[test]
fn a_new_mutex_can_be_locked_once() {
    let mut m = Mutex::new(5u32);
    assert!(!m.is_taken());
    let mut guard = m.try_lock().unwrap();
    assert!(m.is_taken());
    assert_eq!(5, *guard.deref(&m));
    assert!(m.try_lock().is_none());
    *guard.deref_mut(&mut m) = 6;
    assert_eq!(6, *guard.deref(&m));
    guard.drop(&mut m);
    assert!(!m.is_taken());
    let again = m.try_lock().unwrap();
    assert_eq!(6, *again.deref(&m));
}

#[test]
fn the_wrapper_forwards_access() {
    let mut a = Align128(3u8);
    assert_eq!(3, *a);
    *a = 4;
    assert_eq!(4, a.0);
    assert_eq!(0u8, Align128::<u8>::default().0);
}
