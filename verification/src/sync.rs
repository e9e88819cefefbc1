//! The reader/writer lock, the mutex and the condition variable that the
//! container is built on. The functions here are taken on trust: each makes
//! one call into `parking_lot`, and the verifier reads its contract and not
//! its body. None of them claims anything of what it returns: what a lock
//! gives depends on what the other threads do.

use vstd::prelude::*;
use parking_lot::Condvar;
use parking_lot::Mutex;
use parking_lot::MutexGuard;
use parking_lot::RwLock;
use parking_lot::RwLockReadGuard;
use parking_lot::RwLockWriteGuard;

verus! {

/// `lock_api::RwLock`: a reader/writer lock around a value.
#[verifier::external_type_specification]
#[verifier::external_body]
#[verifier::reject_recursive_types(R)]
#[verifier::reject_recursive_types(T)]
pub struct ExRwLock<R, T: ?Sized>(parking_lot::lock_api::RwLock<R, T>);

/// `parking_lot::RawRwLock`: the lock state inside an `RwLock`.
#[verifier::external_type_specification]
#[verifier::external_body]
pub struct ExRawRwLock(parking_lot::RawRwLock);

/// `lock_api::Mutex`: a mutual-exclusion lock around a value.
#[verifier::external_type_specification]
#[verifier::external_body]
#[verifier::reject_recursive_types(R)]
#[verifier::reject_recursive_types(T)]
pub struct ExMutex<R, T: ?Sized>(parking_lot::lock_api::Mutex<R, T>);

/// `parking_lot::RawMutex`: the lock state inside a `Mutex`.
#[verifier::external_type_specification]
#[verifier::external_body]
pub struct ExRawMutex(parking_lot::RawMutex);

/// `parking_lot::Condvar`: a condition variable.
#[verifier::external_type_specification]
#[verifier::external_body]
pub struct ExCondvar(parking_lot::Condvar);

/// Shared access to the value in an `RwLock`, held until this is dropped.
/// Holds a `parking_lot::RwLockReadGuard`, whose bound on the raw lock keeps
/// the guard type itself from being declared to the verifier.
#[verifier::external_body]
#[verifier::reject_recursive_types(V)]
pub struct SharedHold<'a, V> {
    guard: RwLockReadGuard<'a, V>,
}

/// Exclusive access to the value in an `RwLock`, held until this is dropped.
/// Holds a `parking_lot::RwLockWriteGuard`.
#[verifier::external_body]
#[verifier::reject_recursive_types(V)]
pub struct ExclusiveHold<'a, V> {
    guard: RwLockWriteGuard<'a, V>,
}

/// `RwLock::new`: an unlocked lock around `value`. Nothing is claimed.
#[verifier::external_body]
pub(crate) fn new_lock<V>(value: V) -> RwLock<V> {
    RwLock::new(value)
}

/// `RwLock::into_inner`: the value the lock was around. Nothing is claimed
/// of the value: holders of the lock may have changed it.
#[verifier::external_body]
pub(crate) fn unwrap_lock<V>(lock: RwLock<V>) -> V {
    lock.into_inner()
}

/// `RwLock::read`: blocks until shared access is granted. Nothing is claimed.
#[verifier::external_body]
pub(crate) fn lock_shared<'a, V>(lock: &'a RwLock<V>) -> SharedHold<'a, V> {
    SharedHold { guard: lock.read() }
}

/// `RwLock::try_read`: shared access if it can be had at once. Whether it can
/// depends on the other holders: nothing is claimed.
#[verifier::external_body]
pub(crate) fn try_lock_shared<'a, V>(lock: &'a RwLock<V>) -> Option<SharedHold<'a, V>> {
    match lock.try_read() {
        Some(guard) => Some(SharedHold { guard }),
        None => None,
    }
}

/// `RwLock::write`: blocks until exclusive access is granted. Nothing is
/// claimed.
#[verifier::external_body]
pub(crate) fn lock_exclusive<'a, V>(lock: &'a RwLock<V>) -> ExclusiveHold<'a, V> {
    ExclusiveHold { guard: lock.write() }
}

/// `RwLock::try_write`: exclusive access if it can be had at once. Whether it
/// can depends on the other holders: nothing is claimed.
#[verifier::external_body]
pub(crate) fn try_lock_exclusive<'a, V>(lock: &'a RwLock<V>) -> Option<ExclusiveHold<'a, V>> {
    match lock.try_write() {
        Some(guard) => Some(ExclusiveHold { guard }),
        None => None,
    }
}

/// `Deref` of `RwLockReadGuard`: the value under the lock. Nothing is claimed
/// of it.
#[verifier::external_body]
pub(crate) fn shared_value<'g, 'a, V>(hold: &'g SharedHold<'a, V>) -> &'g V {
    &*hold.guard
}

/// `Deref` of `RwLockWriteGuard`: the value under the lock. Nothing is
/// claimed of it.
#[verifier::external_body]
pub(crate) fn exclusive_value<'g, 'a, V>(hold: &'g ExclusiveHold<'a, V>) -> &'g V {
    &*hold.guard
}

/// `DerefMut` of `RwLockWriteGuard`: the value under the lock, to change in
/// place. Nothing is claimed of it.
#[verifier::external_body]
pub(crate) fn exclusive_value_mut<'g, 'a, V>(hold: &'g mut ExclusiveHold<'a, V>) -> &'g mut V {
    &mut *hold.guard
}

/// The channel on which a writer announces itself to readers: a flag under a
/// mutex, and a condition variable to wake those who wait for the flag to
/// clear. What is done with it stands in the module `intent`.
pub struct WriterIntent {
    pub(crate) pending: Mutex<bool>,
    pub(crate) wakeup: Condvar,
}

/// The flag of a channel, held under its mutex until this is dropped. Holds
/// a `parking_lot::MutexGuard`, and the condition variable of the same
/// channel, so that the two are only ever used together.
#[verifier::external_body]
pub struct IntentHold<'a> {
    guard: MutexGuard<'a, bool>,
    wakeup: &'a Condvar,
}

/// `Mutex::new`: an unlocked mutex around `pending`. Nothing is claimed.
#[verifier::external_body]
pub(crate) fn new_flag(pending: bool) -> Mutex<bool> {
    Mutex::new(pending)
}

/// `Condvar::new`: a condition variable on which nobody waits. Nothing is
/// claimed.
#[verifier::external_body]
pub(crate) fn new_wakeup() -> Condvar {
    Condvar::new()
}

/// `Mutex::lock`: blocks until the mutex of the channel is granted. Nothing
/// is claimed.
#[verifier::external_body]
pub(crate) fn lock_intent<'a>(intent: &'a WriterIntent) -> IntentHold<'a> {
    IntentHold { guard: intent.pending.lock(), wakeup: &intent.wakeup }
}

/// `DerefMut` of `MutexGuard`: sets the flag to `pending`.
#[verifier::external_body]
pub(crate) fn set_pending(hold: &mut IntentHold<'_>, pending: bool) {
    *hold.guard = pending;
}

/// `Condvar::wait_while` on the flag: lets go of the mutex while it waits,
/// and returns, with the mutex held again, once it has seen the flag clear.
/// Nothing is claimed.
#[verifier::external_body]
pub(crate) fn wait_while_pending(hold: &mut IntentHold<'_>) {
    hold.wakeup.wait_while(&mut hold.guard, |pending| *pending);
}

/// `Condvar::notify_all`: wakes every thread that waits on the channel.
#[verifier::external_body]
pub(crate) fn wake_all(intent: &WriterIntent) {
    intent.wakeup.notify_all();
}

} // verus!
