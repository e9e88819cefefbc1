//! A vector cut into a fixed number of stripes, each under its own
//! reader/writer lock, so that several threads can traverse it at once: each
//! cursor takes whichever stripe it can get, and visits every stripe once.
//!
//! An outer lock stands above the stripe locks. Cursors hold it shared for as
//! long as they live; a write session holds it exclusively, sees the elements
//! as one flat `Vec`, and cuts them into stripes again when it is released.

pub mod intent;
pub mod iter;
pub mod layout;
pub mod slice_tracker;
pub mod sync;

use vstd::prelude::*;
use parking_lot::RwLock;
use std::sync::atomic::AtomicUsize;
use std::sync::atomic::Ordering;
use crate::iter::RangeBound;
use crate::iter::end_of;
use crate::iter::start_of;
use crate::iter::streaming::CandyCaneIterStreaming;
use crate::iter::streaming::CandyCaneIterStreamingMut;
use crate::iter::streaming::OutOfRange;
use crate::iter::streaming::RawCandyCaneIterStreaming;
use crate::layout::Chunk;
use crate::layout::create_slices;
use crate::layout::gather;
use crate::layout::items_of;
use crate::layout::per_slice_of;
use crate::layout::slice_start_of;
use crate::layout::stripes_of;
use crate::slice_tracker::LockGuard;
use crate::slice_tracker::LockGuardType;
use crate::slice_tracker::SliceTracker;
use crate::sync::WriterIntent;
use crate::sync::new_lock;

verus! {

/// The container with six stripes.
pub type CandyCane<T> = RawCandyCane<T, 6>;

/// The container: `SLICES` stripes, the outer lock, and the writer's
/// channel.
#[verifier::reject_recursive_types(T)]
pub struct RawCandyCane<T, const SLICES: usize> {
    slices: Vec<SliceTracker<T>>,
    /// Elements that every stripe holds at least: the element count over
    /// `SLICES`. Written while the outer lock is held exclusively.
    len_per_slice: AtomicUsize,
    /// The outer lock. The value under it is the element count.
    all_lock: RwLock<usize>,
    writer: WriterIntent,
    /// The element count and the number per stripe that the container was
    /// made with.
    made_with: Ghost<(usize, usize)>,
}

impl<T, const SLICES: usize> RawCandyCane<T, SLICES> {
    #[verifier::type_invariant]
    spec fn has_all_slices(self) -> bool {
        self.slices@.len() == SLICES && SLICES >= 1
    }

    /// Where stripe `k` started when the container was made.
    pub closed spec fn made_start(&self, k: int) -> usize {
        self.slices@[k].made_start()
    }

    /// The elements that stripe `k` held when the container was made.
    pub closed spec fn made_items(&self, k: int) -> Seq<T> {
        self.slices@[k].made_items()
    }

    /// The element count that was put under the outer lock when the
    /// container was made.
    pub closed spec fn made_len(&self) -> usize {
        self.made_with@.0
    }

    /// The number per stripe that was published when the container was made.
    pub closed spec fn made_per_slice(&self) -> usize {
        self.made_with@.1
    }

    /// Whether the container was made with `data`: stripe `k` started where
    /// stripe `k` of `data` starts and held its elements, the element count
    /// was that of `data`, and the number per stripe the one that goes with
    /// it.
    pub open spec fn made_of(&self, data: Seq<T>) -> bool {
        &&& forall|k: int|
            0 <= k < SLICES ==> #[trigger] self.made_start(k) == slice_start_of(
                data.len() as int,
                SLICES as int,
                k,
            )
        &&& forall|k: int|
            0 <= k < SLICES ==> #[trigger] self.made_items(k) == stripes_of(data, SLICES as int)[k]
        &&& self.made_len() == data.len()
        &&& self.made_per_slice() == per_slice_of(data.len() as int, SLICES as int)
    }

    /// An empty container: every stripe starts at 0 and holds nothing, and
    /// the element count and the number per stripe are 0.
    pub fn new() -> (cane: Self)
        requires
            SLICES != 0,
        ensures
            forall|k: int| 0 <= k < SLICES ==> #[trigger] cane.made_start(k) == 0,
            forall|k: int| 0 <= k < SLICES ==> (#[trigger] cane.made_items(k)).len() == 0,
            cane.made_len() == 0,
            cane.made_per_slice() == 0,
    {
        RawCandyCane {
            slices: empty_slices(SLICES),
            len_per_slice: AtomicUsize::new(0),
            all_lock: new_lock(0),
            writer: WriterIntent::new(),
            made_with: Ghost((0, 0)),
        }
    }

    /// A container that holds `data`, cut into stripes: stripe `k` is made
    /// with the start and the elements of stripe `k` of `data`.
    pub fn from_vec(data: Vec<T>) -> (cane: Self)
        requires
            SLICES != 0,
        ensures
            cane.made_of(data@),
    {
        let len = data.len();
        let (chunks, per_slice) = create_slices(data, SLICES);
        let slices = track_all(chunks);
        RawCandyCane {
            slices,
            len_per_slice: AtomicUsize::new(per_slice),
            all_lock: new_lock(len),
            writer: WriterIntent::new(),
            made_with: Ghost((len, per_slice)),
        }
    }

    /// The number of elements, read while the outer lock is held shared.
    pub fn len(&self) -> usize {
        let lock = self.lock_internal_for_read();
        *lock.get()
    }

    /// The number per stripe that was last published, read while the outer
    /// lock is held shared.
    pub fn len_per_slice(&self) -> usize {
        let lock = self.lock_internal_for_read();
        self.per_slice(&lock)
    }

    /// Starts a write session if the outer lock can be had exclusively at
    /// once: `None` while a cursor or another session holds it. The session
    /// has to be ended with [`CandyCaneWriteGuard::release`].
    pub fn try_write(&self) -> (res: Option<CandyCaneWriteGuard<'_, T, SLICES>>)
        ensures
            res matches Some(session) ==> session.lock_kind() == LockGuardType::Write,
    {
        match LockGuard::try_lock(&self.all_lock, LockGuardType::Write) {
            Some(guard) => {
                let vec = self.take_stripes(&guard);
                Some(CandyCaneWriteGuard { lock: guard, cane: self, vec })
            },
            None => None,
        }
    }

    /// Starts a write session: announces the writer, waits for the outer
    /// lock to be granted exclusively, and collects the elements of all
    /// stripes, in stripe order, into the session's flat buffer. The session
    /// has to be ended with [`CandyCaneWriteGuard::release`].
    pub fn write(&self) -> (session: CandyCaneWriteGuard<'_, T, SLICES>)
        ensures
            session.lock_kind() == LockGuardType::Write,
    {
        self.writer.begin_writer_intent();
        let guard = LockGuard::lock(&self.all_lock, LockGuardType::Write);
        self.writer.broadcast();
        let vec = self.take_stripes(&guard);
        CandyCaneWriteGuard { lock: guard, cane: self, vec }
    }

    /// Takes the elements out of all stripes and lays them end to end, in
    /// stripe order: what [`gather`] makes of the stripes as they are found
    /// under their locks. The stripes are left empty.
    fn take_stripes(&self, lock: &LockGuard<'_, usize>) -> Vec<T>
        requires
            lock.kind() == LockGuardType::Write,
    {
        proof {
            use_type_invariant(self);
        }
        let mut chunks: Vec<Chunk<T>> = Vec::new();
        let mut k: usize = 0;
        while k < self.slices.len()
            invariant
                k <= self.slices@.len(),
            decreases self.slices@.len() - k,
        {
            let mut hold = self.slices[k].lock(LockGuardType::Write);
            match hold.get_mut() {
                Some(chunk) => {
                    let mut items: Vec<T> = Vec::new();
                    core::mem::swap(&mut chunk.items, &mut items);
                    chunks.push(Chunk { start: chunk.start, items });
                },
                None => {},
            }
            k = k + 1;
        }
        gather(chunks)
    }

    /// Takes the container apart and hands out its elements as one `Vec`.
    pub fn into_inner(self) -> Vec<T> {
        let chunks = untrack_all(self.slices);
        gather(chunks)
    }

    /// Stores `chunk` as stripe `k`. It has to be stripe `k` of `data`: to
    /// start where that stripe starts, and to hold its elements.
    fn put_stripe(&self, k: usize, chunk: Chunk<T>, Ghost(data): Ghost<Seq<T>>)
        requires
            k < SLICES,
            chunk.start == slice_start_of(data.len() as int, SLICES as int, k as int),
            chunk.items@ == stripes_of(data, SLICES as int)[k as int],
    {
        proof {
            use_type_invariant(self);
        }
        let mut hold = self.slices[k].lock(LockGuardType::Write);
        match hold.get_mut() {
            Some(slot) => {
                *slot = chunk;
            },
            None => {},
        }
    }

    /// Stores the stripes of `data`, each under the lock of its own place.
    /// The outer lock has to be held exclusively.
    fn put_stripes(
        &self,
        lock: &LockGuard<'_, usize>,
        chunks: Vec<Chunk<T>>,
        Ghost(data): Ghost<Seq<T>>,
    )
        requires
            lock.kind() == LockGuardType::Write,
            chunks@.len() == SLICES,
            forall|k: int|
                0 <= k < SLICES ==> (#[trigger] chunks@[k]).start == slice_start_of(
                    data.len() as int,
                    SLICES as int,
                    k,
                ),
            items_of(chunks@) == stripes_of(data, SLICES as int),
    {
        let ghost parts = chunks@;
        let mut rest = chunks;
        let mut k: usize = SLICES;
        while k > 0
            invariant
                k <= SLICES,
                parts.len() == SLICES,
                rest@ == parts.take(k as int),
                forall|j: int|
                    0 <= j < SLICES ==> (#[trigger] parts[j]).start == slice_start_of(
                        data.len() as int,
                        SLICES as int,
                        j,
                    ),
                items_of(parts) == stripes_of(data, SLICES as int),
            decreases k,
        {
            k = k - 1;
            let next = rest.pop();
            match next {
                Some(chunk) => {
                    assert(chunk == parts[k as int]);
                    assert(items_of(parts)[k as int] == parts[k as int].items@);
                    self.put_stripe(k, chunk, Ghost(data));
                },
                None => {},
            }
            assert(rest@ == parts.take(k as int));
        }
    }

    /// Whether `guard` is a guard under which the stripes may be rebuilt: one
    /// that holds a lock exclusively.
    fn ensure_my_write_guard(&self, guard: &LockGuard<'_, usize>) -> (res: bool)
        ensures
            res == (guard.kind() == LockGuardType::Write),
    {
        match guard.lock_type() {
            LockGuardType::Write => true,
            LockGuardType::Read => false,
        }
    }

    /// Takes the outer lock shared, after waiting for any announced writer
    /// to be done.
    pub(crate) fn lock_internal_for_read(&self) -> (guard: LockGuard<'_, usize>)
        ensures
            guard.kind() == LockGuardType::Read,
    {
        self.writer.wait_for_writer();
        LockGuard::lock(&self.all_lock, LockGuardType::Read)
    }

    /// Publishes the number per stripe of a buffer of `len` elements, for
    /// the cursors made from now on. The outer lock has to be held
    /// exclusively.
    fn publish(&self, lock: &LockGuard<'_, usize>, per_slice: usize, Ghost(len): Ghost<usize>)
        requires
            lock.kind() == LockGuardType::Write,
            per_slice == len / SLICES,
    {
        self.len_per_slice.store(per_slice, Ordering::Release);
    }

    /// The number per stripe that was last published, read while the outer
    /// lock is held.
    pub(crate) fn per_slice(&self, _lock: &LockGuard<'_, usize>) -> usize {
        self.len_per_slice.load(Ordering::Acquire)
    }
}

impl<T: Sync, const SLICES: usize> RawCandyCane<T, SLICES> {
    /// A cursor that reads the elements from `start` to `end`. It fails when
    /// the bounds denote no range inside the buffer as it is then. The
    /// visits of the cursor are those of [`visits_of`](crate::iter::visits_of).
    pub fn iter_streaming(&self, start: RangeBound, end: RangeBound) -> (res: Result<
        CandyCaneIterStreaming<'_, T, SLICES>,
        OutOfRange,
    >)
        ensures
            res matches Ok(cursor) ==> cursor.raw().is_fresh_over(start, end),
            res matches Err(error) ==> !(start_of(start) <= end_of(end, error.len as int)
                <= error.len),
    {
        match RawCandyCaneIterStreaming::new_over(start, end, self) {
            Ok(inner) => Ok(CandyCaneIterStreaming::over(inner)),
            Err(error) => Err(error),
        }
    }
}

impl<T: Send, const SLICES: usize> RawCandyCane<T, SLICES> {
    /// A cursor that hands out the elements from `start` to `end` to be
    /// changed in place. It fails when the bounds denote no range inside the
    /// buffer as it is then. The visits of the cursor are those of
    /// [`visits_of`](crate::iter::visits_of).
    pub fn iter_streaming_mut(&self, start: RangeBound, end: RangeBound) -> (res: Result<
        CandyCaneIterStreamingMut<'_, T, SLICES>,
        OutOfRange,
    >)
        ensures
            res matches Ok(cursor) ==> cursor.raw().is_fresh_over(start, end),
            res matches Err(error) ==> !(start_of(start) <= end_of(end, error.len as int)
                <= error.len),
    {
        match RawCandyCaneIterStreaming::new_over(start, end, self) {
            Ok(inner) => Ok(CandyCaneIterStreamingMut::over(inner)),
            Err(error) => Err(error),
        }
    }
}

/// As many stripes as `count`, each of which starts at 0 and holds nothing.
fn empty_slices<T>(count: usize) -> (slices: Vec<SliceTracker<T>>)
    ensures
        slices@.len() == count,
        forall|k: int| 0 <= k < count ==> (#[trigger] slices@[k]).made_start() == 0,
        forall|k: int| 0 <= k < count ==> (#[trigger] slices@[k]).made_items().len() == 0,
{
    let mut slices: Vec<SliceTracker<T>> = Vec::new();
    while slices.len() < count
        invariant
            slices@.len() <= count,
            forall|k: int| 0 <= k < slices@.len() ==> (#[trigger] slices@[k]).made_start() == 0,
            forall|k: int|
                0 <= k < slices@.len() ==> (#[trigger] slices@[k]).made_items().len() == 0,
        decreases count - slices@.len(),
    {
        slices.push(SliceTracker::new(0, Vec::new()));
    }
    slices
}

/// Puts each chunk under a lock of its own, in order.
fn track_all<T>(chunks: Vec<Chunk<T>>) -> (slices: Vec<SliceTracker<T>>)
    ensures
        slices@.len() == chunks@.len(),
        forall|k: int|
            0 <= k < slices@.len() ==> (#[trigger] slices@[k]).made_start() == chunks@[k].start,
        forall|k: int|
            0 <= k < slices@.len() ==> (#[trigger] slices@[k]).made_items() == chunks@[k].items@,
{
    let ghost parts = chunks@;
    let mut rest = chunks;
    let mut backwards: Vec<SliceTracker<T>> = Vec::new();
    while rest.len() > 0
        invariant
            rest@.len() + backwards@.len() == parts.len(),
            rest@ == parts.take(rest@.len() as int),
            forall|j: int|
                0 <= j < backwards@.len() ==> (#[trigger] backwards@[j]).made_start()
                    == parts[parts.len() - 1 - j].start,
            forall|j: int|
                0 <= j < backwards@.len() ==> (#[trigger] backwards@[j]).made_items()
                    == parts[parts.len() - 1 - j].items@,
        decreases rest@.len(),
    {
        let next = rest.pop();
        match next {
            Some(chunk) => backwards.push(SliceTracker::new(chunk.start, chunk.items)),
            None => {},
        }
        assert(rest@ == parts.take(rest@.len() as int));
    }
    let mut slices: Vec<SliceTracker<T>> = Vec::new();
    while backwards.len() > 0
        invariant
            slices@.len() + backwards@.len() == parts.len(),
            forall|j: int|
                0 <= j < backwards@.len() ==> (#[trigger] backwards@[j]).made_start()
                    == parts[parts.len() - 1 - j].start,
            forall|j: int|
                0 <= j < backwards@.len() ==> (#[trigger] backwards@[j]).made_items()
                    == parts[parts.len() - 1 - j].items@,
            forall|k: int|
                0 <= k < slices@.len() ==> (#[trigger] slices@[k]).made_start() == parts[k].start,
            forall|k: int|
                0 <= k < slices@.len() ==> (#[trigger] slices@[k]).made_items() == parts[k].items@,
        decreases backwards@.len(),
    {
        let next = backwards.pop();
        match next {
            Some(tracker) => slices.push(tracker),
            None => {},
        }
    }
    slices
}

/// Takes each chunk out from under its lock, in order.
fn untrack_all<T>(slices: Vec<SliceTracker<T>>) -> (chunks: Vec<Chunk<T>>)
    ensures
        chunks@.len() == slices@.len(),
{
    let ghost count = slices@.len();
    let mut rest = slices;
    let mut backwards: Vec<Chunk<T>> = Vec::new();
    while rest.len() > 0
        invariant
            rest@.len() + backwards@.len() == count,
        decreases rest@.len(),
    {
        let next = rest.pop();
        match next {
            Some(tracker) => backwards.push(tracker.into_chunk()),
            None => {},
        }
    }
    let mut chunks: Vec<Chunk<T>> = Vec::new();
    while backwards.len() > 0
        invariant
            chunks@.len() + backwards@.len() == count,
        decreases backwards@.len(),
    {
        let next = backwards.pop();
        match next {
            Some(chunk) => chunks.push(chunk),
            None => {},
        }
    }
    chunks
}

/// A write session: exclusive access to the elements as one flat `Vec`. The
/// session ends with [`CandyCaneWriteGuard::release`], which rebuilds the
/// stripes from the `Vec`. A session that is dropped without it takes its
/// elements with it, and leaves the writer announced.
#[must_use]
#[verifier::reject_recursive_types(T)]
pub struct CandyCaneWriteGuard<'a, T, const SLICES: usize> {
    vec: Vec<T>,
    cane: &'a RawCandyCane<T, SLICES>,
    lock: LockGuard<'a, usize>,
}

impl<'a, T, const SLICES: usize> CandyCaneWriteGuard<'a, T, SLICES> {
    /// The elements, as the session sees them.
    pub closed spec fn view(&self) -> Seq<T> {
        self.vec@
    }

    /// The way in which the session holds the outer lock.
    pub closed spec fn lock_kind(&self) -> LockGuardType {
        self.lock.kind()
    }

    /// Cuts the session's buffer into stripes, stores each stripe under its
    /// lock, and publishes the new number per stripe and the new element
    /// count. It works on the container that the session was started on,
    /// under the hold that the session was started with. The buffer is left
    /// empty.
    pub(crate) fn reconstruct_chunks(&mut self)
        requires
            old(self).lock_kind() == LockGuardType::Write,
        ensures
            final(self).lock_kind() == LockGuardType::Write,
            final(self)@.len() == 0,
    {
        proof {
            use_type_invariant(self.cane);
        }
        let mut data: Vec<T> = Vec::new();
        data.append(&mut self.vec);
        let ghost whole = data@;
        let len = data.len();
        let (chunks, per_chunk) = create_slices(data, SLICES);
        self.cane.put_stripes(&self.lock, chunks, Ghost(whole));
        self.cane.publish(&self.lock, per_chunk, Ghost(len));
        match self.lock.get_mut() {
            Some(total) => {
                *total = len;
            },
            None => {},
        }
    }

    /// Ends the session: cuts the buffer into stripes again, publishes the
    /// new number per stripe and element count, withdraws the writer's
    /// announcement and wakes the readers that wait for it, and lets go of
    /// the outer lock, in that order.
    pub fn release(self) {
        let mut session = self;
        if session.cane.ensure_my_write_guard(&session.lock) {
            session.reconstruct_chunks();
        }
        session.cane.writer.clear_writer_intent();
    }
}

impl<'a, T, const SLICES: usize> std::ops::Deref for CandyCaneWriteGuard<'a, T, SLICES> {
    type Target = Vec<T>;

    /// The elements, as one flat buffer.
    fn deref(&self) -> (vec: &Vec<T>)
        ensures
            vec@ == self@,
    {
        &self.vec
    }
}

impl<'a, T, const SLICES: usize> std::ops::DerefMut for CandyCaneWriteGuard<'a, T, SLICES> {
    /// The elements, as one flat buffer to change at will.
    fn deref_mut(&mut self) -> (vec: &mut Vec<T>)
        ensures
            vec@ == old(self)@,
            final(self)@ == final(vec)@,
            final(self).lock_kind() == old(self).lock_kind(),
    {
        &mut self.vec
    }
}

} // verus!
