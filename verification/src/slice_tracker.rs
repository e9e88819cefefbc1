//! One stripe of the container under its own reader/writer lock, and the
//! guard that stands for a granted access.

use vstd::prelude::*;
use parking_lot::RwLock;
use crate::layout::Chunk;
use crate::sync::ExclusiveHold;
use crate::sync::SharedHold;
use crate::sync::exclusive_value;
use crate::sync::exclusive_value_mut;
use crate::sync::lock_exclusive;
use crate::sync::lock_shared;
use crate::sync::new_lock;
use crate::sync::shared_value;
use crate::sync::try_lock_exclusive;
use crate::sync::try_lock_shared;
use crate::sync::unwrap_lock;

verus! {

/// The two ways to hold a reader/writer lock.
#[derive(Copy, Clone, Debug, PartialEq, Eq, Hash, Structural)]
pub enum LockGuardType {
    /// Shared: any number of holders, none of which may change the value.
    Read,
    /// Exclusive: one holder, which may change the value.
    Write,
}

/// A stripe, under the lock that serialises access to its elements. What
/// the stripe holds stands under the lock; what it was made with is kept on
/// record beside it.
#[verifier::reject_recursive_types(T)]
pub struct SliceTracker<T> {
    lock: RwLock<Chunk<T>>,
    made_with: Ghost<(usize, Seq<T>)>,
}

impl<T> SliceTracker<T> {
    /// Where the stripe started in the whole buffer when it was made.
    pub closed spec fn made_start(&self) -> usize {
        self.made_with@.0
    }

    /// The elements that the stripe held when it was made.
    pub closed spec fn made_items(&self) -> Seq<T> {
        self.made_with@.1
    }

    /// A stripe that starts at `start` in the whole buffer and holds `items`.
    pub fn new(start: usize, items: Vec<T>) -> (tracker: Self)
        ensures
            tracker.made_start() == start,
            tracker.made_items() == items@,
    {
        let ghost made_with = (start, items@);
        SliceTracker { lock: new_lock(Chunk { start, items }), made_with: Ghost(made_with) }
    }

    /// Blocks until the stripe is granted in the way `kind` says.
    pub fn lock(&self, kind: LockGuardType) -> (guard: LockGuard<'_, Chunk<T>>)
        ensures
            guard.kind() == kind,
    {
        LockGuard::lock(&self.lock, kind)
    }

    /// Takes the stripe in the way `kind` says if that can be had at once.
    pub fn try_lock(&self, kind: LockGuardType) -> (res: Option<LockGuard<'_, Chunk<T>>>)
        ensures
            res matches Some(guard) ==> guard.kind() == kind,
    {
        LockGuard::try_lock(&self.lock, kind)
    }

    /// Gives up the lock and hands out the stripe.
    pub fn into_chunk(self) -> Chunk<T> {
        unwrap_lock(self.lock)
    }
}

/// A granted access to the value under a lock. The access ends when the
/// guard is dropped.
#[verifier::reject_recursive_types(V)]
pub struct LockGuard<'a, V> {
    hold: Hold<'a, V>,
}

#[verifier::reject_recursive_types(V)]
enum Hold<'a, V> {
    Read(SharedHold<'a, V>),
    Write(ExclusiveHold<'a, V>),
}

impl<'a, V> LockGuard<'a, V> {
    /// The way in which the lock is held.
    pub closed spec fn kind(&self) -> LockGuardType {
        match self.hold {
            Hold::Read(_) => LockGuardType::Read,
            Hold::Write(_) => LockGuardType::Write,
        }
    }

    /// Blocks until `rwlock` is granted in the way `lock_type` says.
    pub fn lock(rwlock: &'a RwLock<V>, lock_type: LockGuardType) -> (guard: Self)
        ensures
            guard.kind() == lock_type,
    {
        let hold = match lock_type {
            LockGuardType::Read => Hold::Read(lock_shared(rwlock)),
            LockGuardType::Write => Hold::Write(lock_exclusive(rwlock)),
        };
        LockGuard { hold }
    }

    /// Takes `rwlock` in the way `lock_type` says if that can be had at
    /// once; `None` when it is busy.
    pub fn try_lock(rwlock: &'a RwLock<V>, lock_type: LockGuardType) -> (res: Option<Self>)
        ensures
            res matches Some(guard) ==> guard.kind() == lock_type,
    {
        match lock_type {
            LockGuardType::Read => match try_lock_shared(rwlock) {
                Some(hold) => Some(LockGuard { hold: Hold::Read(hold) }),
                None => None,
            },
            LockGuardType::Write => match try_lock_exclusive(rwlock) {
                Some(hold) => Some(LockGuard { hold: Hold::Write(hold) }),
                None => None,
            },
        }
    }

    /// The way in which the lock is held.
    pub fn lock_type(&self) -> (kind: LockGuardType)
        ensures
            kind == self.kind(),
    {
        match &self.hold {
            Hold::Read(_) => LockGuardType::Read,
            Hold::Write(_) => LockGuardType::Write,
        }
    }

    /// The value under the lock.
    pub fn get(&self) -> &V {
        match &self.hold {
            Hold::Read(hold) => shared_value(hold),
            Hold::Write(hold) => exclusive_value(hold),
        }
    }

    /// The value under the lock, to change in place: `None` unless the lock
    /// is held exclusively.
    pub fn get_mut(&mut self) -> (res: Option<&mut V>)
        ensures
            res is Some <==> old(self).kind() == LockGuardType::Write,
            final(self).kind() == old(self).kind(),
    {
        match &mut self.hold {
            Hold::Read(_) => None,
            Hold::Write(hold) => Some(exclusive_value_mut(hold)),
        }
    }
}

} // verus!
