use candy_cane::layout::Chunk;
use candy_cane::slice_tracker::LockGuard;
use candy_cane::slice_tracker::LockGuardType;
use candy_cane::slice_tracker::SliceTracker;
use parking_lot::RwLock;
use std::collections::HashSet;

#[test]
fn lock_hands_out_the_value() {
    let lock = RwLock::new(41usize);
    {
        let guard = LockGuard::lock(&lock, LockGuardType::Read);
        assert_eq!(guard.lock_type(), LockGuardType::Read);
        assert_eq!(*guard.get(), 41);
    }
    {
        let mut guard = LockGuard::lock(&lock, LockGuardType::Write);
        assert_eq!(guard.lock_type(), LockGuardType::Write);
        assert_eq!(*guard.get(), 41);
        *guard.get_mut().unwrap() += 1;
        assert_eq!(*guard.get(), 42);
    }
    assert_eq!(lock.into_inner(), 42);
}

#[test]
fn shared_guard_does_not_write() {
    let lock = RwLock::new(5usize);
    let mut guard = LockGuard::lock(&lock, LockGuardType::Read);
    assert!(guard.get_mut().is_none());
    assert_eq!(guard.lock_type(), LockGuardType::Read);
}

#[test]
fn try_lock_fails_while_held_otherwise() {
    let lock = RwLock::new(0u8);
    let reader = LockGuard::try_lock(&lock, LockGuardType::Read).unwrap();
    assert_eq!(reader.lock_type(), LockGuardType::Read);
    // Shared holds share.
    let second = LockGuard::try_lock(&lock, LockGuardType::Read);
    assert!(second.is_some());
    // An exclusive hold shares with none.
    assert!(LockGuard::try_lock(&lock, LockGuardType::Write).is_none());
    drop(second);
    drop(reader);
    let writer = LockGuard::try_lock(&lock, LockGuardType::Write).unwrap();
    assert_eq!(writer.lock_type(), LockGuardType::Write);
    assert!(LockGuard::try_lock(&lock, LockGuardType::Read).is_none());
    assert!(LockGuard::try_lock(&lock, LockGuardType::Write).is_none());
    drop(writer);
    assert!(LockGuard::try_lock(&lock, LockGuardType::Read).is_some());
}

#[test]
fn dropping_the_guard_lets_go() {
    let lock = RwLock::new(0u8);
    drop(LockGuard::lock(&lock, LockGuardType::Write));
    assert!(!lock.is_locked());
    let guard = LockGuard::lock(&lock, LockGuardType::Read);
    assert!(lock.is_locked());
    assert!(!lock.is_locked_exclusive());
    drop(guard);
    let guard = LockGuard::lock(&lock, LockGuardType::Write);
    assert!(lock.is_locked_exclusive());
    drop(guard);
    assert!(!lock.is_locked());
}

#[test]
fn tracker_keeps_its_stripe() {
    let tracker = SliceTracker::new(12, vec![1, 2, 3]);
    {
        let guard = tracker.lock(LockGuardType::Read);
        assert_eq!(guard.get().start, 12);
        assert_eq!(guard.get().length(), 3);
        assert_eq!(guard.get().items, vec![1, 2, 3]);
        assert!(tracker.try_lock(LockGuardType::Write).is_none());
        assert!(tracker.try_lock(LockGuardType::Read).is_some());
    }
    {
        let mut guard = tracker.try_lock(LockGuardType::Write).unwrap();
        guard.get_mut().unwrap().items.push(4);
        assert!(tracker.try_lock(LockGuardType::Read).is_none());
    }
    let Chunk { start, items } = tracker.into_chunk();
    assert_eq!(start, 12);
    assert_eq!(items, vec![1, 2, 3, 4]);
}

#[test]
fn lock_kinds_compare_copy_and_hash() {
    let kind = LockGuardType::Read;
    let copy = kind;
    assert_eq!(kind, copy);
    assert_ne!(LockGuardType::Read, LockGuardType::Write);
    assert_eq!(format!("{:?}", LockGuardType::Write), "Write");
    let mut kinds = HashSet::new();
    kinds.insert(LockGuardType::Read);
    kinds.insert(LockGuardType::Write);
    kinds.insert(LockGuardType::Read);
    assert_eq!(kinds.len(), 2);
}
