//! The streaming cursor: it holds at most one stripe at a time, and a
//! reference it hands out lives until the cursor is advanced again.

use vstd::prelude::*;
use crate::RawCandyCane;
use crate::iter::ChunkVisit;
use crate::iter::RangeBound;
use crate::iter::end_of;
use crate::iter::resolve_bounds;
use crate::iter::start_of;
use crate::iter::visits_of;
use crate::layout::Chunk;
use crate::layout::slice_len;
use crate::layout::slice_len_of;
use crate::slice_tracker::LockGuard;
use crate::slice_tracker::LockGuardType;
use crate::slice_tracker::SliceTracker;

verus! {

/// Marks the path on which a cursor leaves one stripe for the next: the one
/// taken once per stripe, not once per element.
#[inline]
pub fn cold() {
}

/// The place of one element: its stripe, and where in the stripe it stands.
#[derive(Copy, Clone, Debug, PartialEq, Eq, Structural)]
pub struct Raw {
    pub chunk_id: usize,
    pub index: usize,
}

impl Raw {
    /// The element at this place of `chunk`, to read.
    pub fn upgrade_ref<'c, T>(self, chunk: &'c Chunk<T>) -> (item: &'c T)
        requires
            self.index < chunk.items@.len(),
        ensures
            *item == chunk.items@[self.index as int],
    {
        &chunk.items[self.index]
    }

    /// The element at this place of `chunk`, to change in place.
    pub fn upgrade_mut<'c, T>(self, chunk: &'c mut Chunk<T>) -> (item: &'c mut T)
        requires
            self.index < old(chunk).items@.len(),
        ensures
            *item == old(chunk).items@[self.index as int],
            final(chunk).items@ == old(chunk).items@.update(self.index as int, *final(item)),
            final(chunk).start == old(chunk).start,
    {
        &mut chunk.items[self.index]
    }

    /// The element at this place of `chunk`, to read: `None` where the
    /// chunk does not reach that far.
    pub fn element_at<'c, T>(self, chunk: &'c Chunk<T>) -> (res: Option<&'c T>)
        ensures
            res is Some <==> self.index < chunk.items@.len(),
            res matches Some(item) ==> *item == chunk.items@[self.index as int],
    {
        if self.index < chunk.items.len() {
            Some(self.upgrade_ref(chunk))
        } else {
            None
        }
    }

    /// The element at this place of `chunk`, to change in place: `None`
    /// where the chunk does not reach that far. Nothing else of the chunk
    /// changes.
    pub fn element_at_mut<'c, T>(self, chunk: &'c mut Chunk<T>) -> (res: Option<&'c mut T>)
        ensures
            res is Some <==> self.index < old(chunk).items@.len(),
            res matches Some(item) ==> *item == old(chunk).items@[self.index as int]
                && final(chunk).items@ == old(chunk).items@.update(
                self.index as int,
                *final(item),
            ) && final(chunk).start == old(chunk).start,
            res is None ==> *final(chunk) == *old(chunk),
    {
        if self.index < chunk.items.len() {
            Some(self.upgrade_mut(chunk))
        } else {
            None
        }
    }
}

/// Why no cursor was made: the bounds denote no range inside a buffer of
/// `len` elements, which is what the buffer held.
#[derive(Copy, Clone, Debug, PartialEq, Eq, Structural)]
pub struct OutOfRange {
    pub len: usize,
}

/// A visit that a cursor has made: the stripe and the part of it to
/// traverse, and the number of elements that the stripe has by the element
/// count that the cursor read.
pub struct Made {
    pub visit: ChunkVisit,
    pub length: usize,
}

impl Made {
    /// The place in the stripe at which the visit begins.
    pub open spec fn begin(self) -> int {
        self.visit.range.span(self.length as int).0
    }

    /// The place in the stripe at which the visit ends.
    pub open spec fn end(self) -> int {
        self.visit.range.span(self.length as int).1
    }

    /// The places that the visit yields, in the order in which they come.
    pub open spec fn places(self) -> Seq<Raw> {
        Seq::new(
            (self.end() - self.begin()) as nat,
            |i: int| Raw { chunk_id: self.visit.chunk_id, index: (self.begin() + i) as usize },
        )
    }
}

/// The visits of `made`, in the order in which they were made.
pub open spec fn visits_made(made: Seq<Made>) -> Seq<ChunkVisit> {
    Seq::new(made.len(), |i: int| made[i].visit)
}

/// The places that the visits of `made` yield, one visit after the other.
pub open spec fn places_of(made: Seq<Made>) -> Seq<Raw>
    decreases made.len(),
{
    if made.len() == 0 {
        Seq::empty()
    } else {
        places_of(made.drop_last()) + made.last().places()
    }
}

/// Whether every visit of `now` is one of `before`: `now` is what is left
/// of `before` after some visits were taken out.
pub open spec fn is_rest_of(now: Seq<ChunkVisit>, before: Seq<ChunkVisit>) -> bool {
    &&& now.len() <= before.len()
    &&& forall|j: int| 0 <= j < now.len() ==> before.contains(#[trigger] now[j])
}

/// Whether `now` is `before` with visits added at the end, of which all but
/// the last yield no place.
pub open spec fn went_on_from(now: Seq<Made>, before: Seq<Made>) -> bool {
    &&& before.len() < now.len()
    &&& now.take(before.len() as int) == before
    &&& forall|i: int| before.len() <= i < now.len() - 1 ==> (#[trigger] now[i]).places().len() == 0
}

/// Whether `now` is `before`, or `before` with visits added at the end that
/// all yield no place: whether nothing was found to traverse between the
/// two.
pub open spec fn went_by_empty(now: Seq<Made>, before: Seq<Made>) -> bool {
    now == before || went_on_from(now, before) && now.last().places().len() == 0
}

/// The stripe that a cursor holds, and how far it has come in it.
#[verifier::reject_recursive_types(T)]
struct Visiting<'a, T> {
    hold: LockGuard<'a, Chunk<T>>,
    chunk_id: usize,
    length: usize,
    next: usize,
    end: usize,
}

/// Where a cursor stands in the stripe it holds.
pub struct Progress {
    /// The stripe.
    pub chunk_id: usize,
    /// The number of elements of the stripe, by the element count that the
    /// cursor read.
    pub length: usize,
    /// The place in the stripe of the element that comes next.
    pub next: usize,
    /// The place in the stripe at which the cursor leaves it.
    pub end: usize,
}

/// A cursor over a range of the container. It yields places, not elements:
/// the read cursor and the write cursor turn each place into a reference.
#[verifier::reject_recursive_types(T)]
pub struct RawCandyCaneIterStreaming<'a, T, const N: usize> {
    slices: Vec<ChunkVisit>,
    slice_buffer: &'a Vec<SliceTracker<T>>,
    internal: Option<Visiting<'a, T>>,
    #[allow(dead_code)]
    all_lock: LockGuard<'a, usize>,
    start: usize,
    end: usize,
    seen_len: usize,
    seen_per_slice: usize,
    made: Ghost<Seq<Made>>,
    yielded: Ghost<Seq<Raw>>,
    gave_up: Ghost<bool>,
}

impl<'a, T, const N: usize> RawCandyCaneIterStreaming<'a, T, N> {
    /// The stripes that the cursor has yet to take, each with the part of it
    /// to traverse.
    pub closed spec fn unvisited(&self) -> Seq<ChunkVisit> {
        self.slices@
    }

    /// The stripe that the cursor holds and where it stands in it; `None`
    /// while it holds no stripe.
    pub closed spec fn current(&self) -> Option<Progress> {
        match self.internal {
            Some(visiting) => Some(
                Progress {
                    chunk_id: visiting.chunk_id,
                    length: visiting.length,
                    next: visiting.next,
                    end: visiting.end,
                },
            ),
            None => None,
        }
    }

    /// The way in which the cursor holds its stripe; `None` while it holds no
    /// stripe.
    pub closed spec fn hold_kind(&self) -> Option<LockGuardType> {
        match self.internal {
            Some(visiting) => Some(visiting.hold.kind()),
            None => None,
        }
    }

    /// The way in which the cursor holds the outer lock of the container,
    /// for as long as it lives.
    pub closed spec fn outer_kind(&self) -> LockGuardType {
        self.all_lock.kind()
    }

    /// The number of stripes in the container that the cursor traverses.
    pub closed spec fn stripes(&self) -> nat {
        self.slice_buffer@.len()
    }

    /// First index of the range that the cursor was made for.
    pub closed spec fn range_start(&self) -> usize {
        self.start
    }

    /// Index one past the last of the range that the cursor was made for.
    pub closed spec fn range_end(&self) -> usize {
        self.end
    }

    /// The element count that the cursor read when it was made.
    pub closed spec fn seen_len(&self) -> usize {
        self.seen_len
    }

    /// The number per stripe that the cursor read when it was made.
    pub closed spec fn seen_per_slice(&self) -> usize {
        self.seen_per_slice
    }

    /// The visits that the cursor has made so far, in the order in which it
    /// made them, each with the length of its stripe.
    pub closed spec fn made(&self) -> Seq<Made> {
        self.made@
    }

    /// The places that the cursor has yielded so far, in the order in which
    /// they came.
    pub closed spec fn yielded(&self) -> Seq<Raw> {
        self.yielded@
    }

    /// Whether the cursor has given up what was left to traverse, because a
    /// stripe it held did not reach as far as the element count it read says.
    pub closed spec fn gave_up(&self) -> bool {
        self.gave_up@
    }

    /// The number of elements of stripe `k`, by the element count that the
    /// cursor read.
    pub open spec fn stripe_len(&self, k: usize) -> int {
        slice_len_of(self.seen_len() as int, N as int, k as int)
    }

    /// Whether `visit` yields no place, by the element count that the cursor
    /// read.
    pub open spec fn empty_by_geometry(&self, visit: ChunkVisit) -> bool {
        visit.range.span(self.stripe_len(visit.chunk_id)).0 >= visit.range.span(
            self.stripe_len(visit.chunk_id),
        ).1
    }

    /// Whether a stripe left to take has a place to yield.
    pub open spec fn leaves_places(&self) -> bool {
        exists|j: int|
            0 <= j < self.unvisited().len() && !self.empty_by_geometry(
                #[trigger] self.unvisited()[j],
            )
    }

    /// Whether every visit of `before` that the cursor has no longer left to
    /// take yields no place.
    pub open spec fn passed_only_empty(&self, before: &Self) -> bool {
        forall|j: int|
            0 <= j < before.unvisited().len() ==> self.unvisited().contains(
                #[trigger] before.unvisited()[j],
            ) || self.empty_by_geometry(before.unvisited()[j])
    }

    /// The visits that the cursor was made to make.
    pub open spec fn plan(&self) -> Seq<ChunkVisit> {
        visits_of(
            self.range_start() as int,
            self.range_end() as int,
            self.seen_per_slice() as int,
            N as int,
        )
    }

    /// What holds of the stripes left to take: each is a stripe of the
    /// container and stands in the set once; and, with the visits made, they
    /// are the visits that the cursor was made to make, for a range inside
    /// the element count it read and the number per stripe that goes with
    /// that count. Every visit was made with the length that its stripe has
    /// by that count, no stripe was visited twice or is left to take after
    /// it was visited, and the outer lock is held shared.
    pub open spec fn takes_each_once(&self) -> bool {
        &&& self.stripes() == N
        &&& N >= 1
        &&& self.outer_kind() == LockGuardType::Read
        &&& forall|i: int, j: int|
            0 <= i < j < self.made().len() ==> (#[trigger] self.made()[i]).visit.chunk_id != (
            #[trigger] self.made()[j]).visit.chunk_id
        &&& forall|i: int, j: int|
            0 <= i < self.made().len() && 0 <= j < self.unvisited().len() ==> (
            #[trigger] self.made()[i]).visit.chunk_id != (#[trigger] self.unvisited()[j]).chunk_id
        &&& forall|i: int|
            0 <= i < self.made().len() ==> (#[trigger] self.made()[i]).visit.chunk_id < N
                && self.made()[i].length == self.stripe_len(self.made()[i].visit.chunk_id)
        &&& self.range_start() <= self.range_end() <= self.seen_len()
        &&& self.seen_per_slice() == self.seen_len() / N
        &&& forall|j: int|
            0 <= j < self.unvisited().len() ==> (#[trigger] self.unvisited()[j]).chunk_id < N
        &&& forall|i: int, j: int|
            0 <= i < j < self.unvisited().len() ==> (#[trigger] self.unvisited()[i]).chunk_id != (
            #[trigger] self.unvisited()[j]).chunk_id
        &&& !self.gave_up() ==> visits_made(self.made()).to_multiset().add(
            self.unvisited().to_multiset(),
        ) == self.plan().to_multiset()
    }

    /// What holds of the stripe held: it is the one of the visit made last,
    /// it is not left to take once more, and the cursor stands between the
    /// begin and the end of the visit.
    pub open spec fn stands_in_last_visit(&self) -> bool {
        self.current() matches Some(progress) ==> {
            &&& self.made().len() > 0
            &&& self.made().last().visit.chunk_id == progress.chunk_id
            &&& self.made().last().length == progress.length
            &&& self.made().last().end() == progress.end
            &&& self.made().last().begin() <= progress.next <= progress.end <= progress.length
            &&& progress.chunk_id < N
            &&& forall|j: int|
                0 <= j < self.unvisited().len() ==> (#[trigger] self.unvisited()[j]).chunk_id
                    != progress.chunk_id
        }
    }

    /// What has been yielded: the places of every visit made before the last,
    /// and those of the last up to where the cursor stands.
    pub open spec fn yielded_so_far(&self) -> bool {
        !self.gave_up() ==> self.yielded() == match self.current() {
            Some(progress) => places_of(self.made().drop_last()) + self.made().last().places().take(
                progress.next - self.made().last().begin(),
            ),
            None => places_of(self.made()),
        }
    }

    /// What holds of every cursor.
    pub open spec fn visits_each_once(&self) -> bool {
        &&& self.takes_each_once()
        &&& self.stands_in_last_visit()
        &&& self.yielded_so_far()
    }

    /// Whether the cursor is as it is made for the range from `start` to
    /// `end`: it holds no stripe, has made no visit and yielded nothing, and
    /// has one visit left for each stripe that the range touches, by the
    /// element count and the number per stripe that it read.
    pub open spec fn is_fresh_over(&self, start: RangeBound, end: RangeBound) -> bool {
        &&& self.visits_each_once()
        &&& self.range_start() == start_of(start)
        &&& self.range_end() == end_of(end, self.seen_len() as int)
        &&& self.unvisited() == self.plan()
        &&& self.current() is None
        &&& self.made().len() == 0
        &&& self.yielded().len() == 0
        &&& !self.gave_up()
    }

    /// Whether the stripe held has a place left to yield.
    pub open spec fn has_place_left(&self) -> bool {
        self.current() matches Some(progress) && progress.next < progress.end
    }

    /// Whether nothing is left to yield: no stripe is left to take, and the
    /// stripe held, if any, has been traversed.
    pub open spec fn is_done(&self) -> bool {
        &&& self.unvisited().len() == 0
        &&& self.current() matches Some(progress) ==> progress.next >= progress.end
    }

    /// Whether the cursor was made for the same range, and read the same
    /// element count and number per stripe, as `other`.
    pub open spec fn same_range_as(&self, other: &Self) -> bool {
        &&& self.range_start() == other.range_start()
        &&& self.range_end() == other.range_end()
        &&& self.seen_len() == other.seen_len()
        &&& self.seen_per_slice() == other.seen_per_slice()
    }

    /// Whether the cursor stands where `other` stands: it holds the same
    /// stripe in the same way, has come as far in it, has made the same
    /// visits and has the same stripes left to take.
    pub open spec fn same_place_as(&self, other: &Self) -> bool {
        &&& self.current() == other.current()
        &&& self.unvisited() == other.unvisited()
        &&& self.hold_kind() == other.hold_kind()
        &&& self.made() == other.made()
    }

    /// The place that the cursor yielded last, while it holds a stripe.
    pub open spec fn last_place(&self) -> Raw {
        match self.current() {
            Some(progress) => Raw {
                chunk_id: progress.chunk_id,
                index: (progress.next - 1) as usize,
            },
            None => Raw { chunk_id: 0, index: 0 },
        }
    }

    /// The step in which the cursor stays in the stripe it holds and yields
    /// the place after the one it yielded last.
    pub open spec fn stays(&self, after: &Self, raw: Raw) -> bool {
        &&& self.current() matches Some(before)
        &&& before.next < before.end
        &&& raw.chunk_id == before.chunk_id
        &&& raw.index == before.next
        &&& after.current() matches Some(now)
        &&& now.chunk_id == before.chunk_id
        &&& now.length == before.length
        &&& now.next == before.next + 1
        &&& now.end == before.end
        &&& after.unvisited() == self.unvisited()
        &&& after.hold_kind() == self.hold_kind()
        &&& after.made() == self.made()
    }

    /// The step in which the cursor lets go of the stripe it holds, if any,
    /// takes one of those left to take in the way `lock_type` says, and
    /// yields the first place of the part to traverse. Stripes whose part to
    /// traverse turned out empty may have been taken and let go before.
    pub open spec fn moves(&self, after: &Self, raw: Raw, lock_type: LockGuardType) -> bool {
        &&& self.current() matches Some(before) ==> before.next >= before.end
        &&& is_rest_of(after.unvisited(), self.unvisited())
        &&& after.unvisited().len() < self.unvisited().len()
        &&& went_on_from(after.made(), self.made())
        &&& self.unvisited().contains(after.made().last().visit)
        &&& after.current() matches Some(now)
        &&& now.chunk_id == raw.chunk_id
        &&& now.next == raw.index + 1
        &&& raw.index == after.made().last().begin()
        &&& after.hold_kind() == Some(lock_type)
    }

    /// A cursor over the range from `start` to `end` of `buffer`. It takes
    /// the outer lock shared and keeps it for as long as it lives. It fails
    /// when the bounds denote no range inside the buffer, and says how many
    /// elements the buffer had then.
    pub fn new_over(start: RangeBound, end: RangeBound, buffer: &'a RawCandyCane<T, N>) -> (res:
        Result<Self, OutOfRange>)
        ensures
            res matches Ok(cursor) ==> cursor.is_fresh_over(start, end),
            res matches Err(error) ==> !(start_of(start) <= end_of(end, error.len as int)
                <= error.len),
    {
        proof {
            use_type_invariant(buffer);
        }
        let guard = buffer.lock_internal_for_read();
        let len: usize = *guard.get();
        let (first, last) = match resolve_bounds(start, end, len) {
            Some(range) => range,
            None => {
                return Err(OutOfRange { len });
            },
        };
        let per_slice = len / N;
        let slices = ChunkVisit::plan(first, last, per_slice, N);
        proof {
            assert(visits_made(Seq::<Made>::empty()) =~= Seq::<ChunkVisit>::empty());
            assert(Seq::<ChunkVisit>::empty().to_multiset().add(slices@.to_multiset())
                =~= slices@.to_multiset()) by {
                broadcast use vstd::seq_lib::group_to_multiset_ensures;

            }
        }
        Ok(
            RawCandyCaneIterStreaming {
                slices,
                slice_buffer: &buffer.slices,
                internal: None,
                all_lock: guard,
                start: first,
                end: last,
                seen_len: len,
                seen_per_slice: per_slice,
                made: Ghost(Seq::empty()),
                yielded: Ghost(Seq::empty()),
                gave_up: Ghost(false),
            },
        )
    }

    /// What holds when the cursor has taken a stripe that it does not hold
    /// yet: the stripe is the one of the visit made last, and has something
    /// to traverse.
    spec fn has_taken(&self, before: &Self, visiting: Visiting<'a, T>) -> bool {
        &&& visiting.next < visiting.end <= visiting.length
        &&& visiting.chunk_id < N
        &&& self.unvisited().len() < before.unvisited().len()
        &&& went_on_from(self.made(), before.made())
        &&& before.unvisited().contains(self.made().last().visit)
        &&& self.made().last().visit.chunk_id == visiting.chunk_id
        &&& self.made().last().length == visiting.length
        &&& self.made().last().begin() == visiting.next
        &&& self.made().last().end() == visiting.end
        &&& forall|j: int|
            0 <= j < self.unvisited().len() ==> (#[trigger] self.unvisited()[j]).chunk_id
                != visiting.chunk_id
        &&& !self.gave_up() ==> self.yielded() == places_of(self.made().drop_last())
    }

    /// What the search for a stripe leaves as it was, and what it may change.
    spec fn searched_from(&self, before: &Self) -> bool {
        &&& self.takes_each_once()
        &&& self.current() is None
        &&& self.same_range_as(before)
        &&& self.gave_up() == before.gave_up()
        &&& self.yielded() == before.yielded()
        &&& is_rest_of(self.unvisited(), before.unvisited())
    }

    /// Takes the visit at `index` out of the set of those left and puts it
    /// down as made, with the length that its stripe has by the element
    /// count that the cursor read.
    fn commit(&mut self, index: usize, length: usize)
        requires
            old(self).takes_each_once(),
            old(self).current() is None,
            index < old(self).unvisited().len(),
            length == old(self).stripe_len(old(self).unvisited()[index as int].chunk_id),
        ensures
            final(self).searched_from(old(self)),
            final(self).unvisited() == old(self).unvisited().remove(index as int),
            final(self).made() == old(self).made().push(
                Made { visit: old(self).unvisited()[index as int], length },
            ),
            final(self).slice_buffer == old(self).slice_buffer,
            forall|j: int|
                0 <= j < final(self).unvisited().len() ==> (
                #[trigger] final(self).unvisited()[j]).chunk_id
                    != old(self).unvisited()[index as int].chunk_id,
    {
        let ghost before = self.slices@;
        let ghost made_before = self.made@;
        let visit = self.slices.remove(index);
        self.made = Ghost(made_before.push(Made { visit, length }));
        proof {
            lemma_remove_is_rest(before, index as int);
            lemma_made_one_more(made_before, before, index as int, length);
        }
    }

    /// Sweeps the stripes left to take from the last to the first and takes
    /// the first one that is free. A stripe that is taken leaves the set; one
    /// whose part to traverse turns out empty is let go again, and the sweep
    /// goes on. `None` when no stripe with something to traverse was free.
    fn try_find_next(&mut self, lock_type: LockGuardType) -> (res: Option<Visiting<'a, T>>)
        requires
            old(self).visits_each_once(),
            old(self).current() is None,
        ensures
            final(self).searched_from(old(self)),
            res matches Some(visiting) ==> visiting.hold.kind() == lock_type,
            res matches Some(visiting) ==> final(self).has_taken(old(self), visiting),
            res is None ==> final(self).visits_each_once(),
            res is None ==> went_by_empty(final(self).made(), old(self).made()),
            res is None ==> final(self).passed_only_empty(old(self)),
    {
        let directory: &'a Vec<SliceTracker<T>> = self.slice_buffer;
        let mut index: usize = self.slices.len();
        while index > 0
            invariant
                index <= self.slices@.len(),
                directory == self.slice_buffer,
                self.searched_from(old(self)),
                self.visits_each_once(),
                went_by_empty(self.made(), old(self).made()),
                self.passed_only_empty(old(self)),
            decreases index,
        {
            index = index - 1;
            let visit = self.slices[index];
            match directory[visit.chunk_id].try_lock(lock_type) {
                Some(hold) => {
                    let length = slice_len(self.seen_len, N, visit.chunk_id);
                    let (lo, hi) = visit.range.bounds(length);
                    let ghost before = *self;
                    self.commit(index, length);
                    proof {
                        lemma_went_on(old(self).made(), before.made(), Made { visit, length });
                        lemma_is_rest_trans(
                            self.unvisited(),
                            before.unvisited(),
                            old(self).unvisited(),
                        );
                        assert(before.unvisited().contains(visit));
                        if lo >= hi {
                            lemma_passed_one_more(
                                old(self).unvisited(),
                                before.unvisited(),
                                index as int,
                            );
                        }
                    }
                    if lo < hi {
                        return Some(
                            Visiting { hold, chunk_id: visit.chunk_id, length, next: lo, end: hi },
                        );
                    }
                    proof {
                        lemma_places_push_empty(before.made(), self.made().last());
                    }
                },
                None => {},
            }
        }
        None
    }

    /// Takes the stripes left to take one after the other, from the last to
    /// the first, and waits for each to be granted. A stripe whose part to
    /// traverse turns out empty is let go again. `None` once no stripe is
    /// left.
    fn wait_find_next(&mut self, lock_type: LockGuardType) -> (res: Option<Visiting<'a, T>>)
        requires
            old(self).visits_each_once(),
            old(self).current() is None,
        ensures
            final(self).searched_from(old(self)),
            res matches Some(visiting) ==> visiting.hold.kind() == lock_type,
            res matches Some(visiting) ==> final(self).has_taken(old(self), visiting),
            res is None ==> final(self).visits_each_once(),
            res is None ==> final(self).unvisited().len() == 0,
            res is None ==> went_by_empty(final(self).made(), old(self).made()),
            res is None ==> final(self).passed_only_empty(old(self)),
    {
        let directory: &'a Vec<SliceTracker<T>> = self.slice_buffer;
        while self.slices.len() > 0
            invariant
                directory == self.slice_buffer,
                self.searched_from(old(self)),
                self.visits_each_once(),
                went_by_empty(self.made(), old(self).made()),
                self.passed_only_empty(old(self)),
            decreases self.slices@.len(),
        {
            let index: usize = self.slices.len() - 1;
            let visit = self.slices[index];
            let hold = directory[visit.chunk_id].lock(lock_type);
            let length = slice_len(self.seen_len, N, visit.chunk_id);
            let (lo, hi) = visit.range.bounds(length);
            let ghost before = *self;
            self.commit(index, length);
            proof {
                lemma_went_on(old(self).made(), before.made(), Made { visit, length });
                lemma_is_rest_trans(self.unvisited(), before.unvisited(), old(self).unvisited());
                assert(before.unvisited().contains(visit));
                if lo >= hi {
                    lemma_passed_one_more(old(self).unvisited(), before.unvisited(), index as int);
                }
            }
            if lo < hi {
                return Some(Visiting { hold, chunk_id: visit.chunk_id, length, next: lo, end: hi });
            }
            proof {
                lemma_places_push_empty(before.made(), self.made().last());
            }
        }
        None
    }

    /// Yields the next place of the stripe held, if it has one left.
    fn step_in_stripe(&mut self) -> (res: Option<Raw>)
        requires
            old(self).visits_each_once(),
        ensures
            final(self).visits_each_once(),
            final(self).same_range_as(old(self)),
            final(self).gave_up() == old(self).gave_up(),
            res matches Some(raw) ==> old(self).stays(final(self), raw),
            res matches Some(raw) ==> raw == final(self).last_place(),
            res matches Some(raw) ==> final(self).yielded() == old(self).yielded().push(raw),
            res is None ==> *final(self) == *old(self),
            old(self).has_place_left() <==> res is Some,
    {
        match &mut self.internal {
            Some(visiting) => {
                if visiting.next < visiting.end {
                    let raw = Raw { chunk_id: visiting.chunk_id, index: visiting.next };
                    visiting.next = visiting.next + 1;
                    self.yielded = Ghost(self.yielded@.push(raw));
                    proof {
                        lemma_take_one_more(
                            places_of(self.made().drop_last()),
                            self.made().last().places(),
                            raw.index - self.made().last().begin(),
                        );
                    }
                    Some(raw)
                } else {
                    None
                }
            },
            None => None,
        }
    }

    /// Lets go of the stripe held, all of whose places have been yielded.
    fn leave_stripe(&mut self)
        requires
            old(self).visits_each_once(),
            old(self).current() matches Some(progress) ==> progress.next >= progress.end,
        ensures
            final(self).visits_each_once(),
            final(self).current() is None,
            final(self).same_range_as(old(self)),
            final(self).gave_up() == old(self).gave_up(),
            final(self).yielded() == old(self).yielded(),
            final(self).made() == old(self).made(),
            final(self).unvisited() == old(self).unvisited(),
    {
        proof {
            if self.internal is Some {
                let last = self.made().last();
                assert(last.places().take(last.end() - last.begin()) == last.places());
            }
        }
        self.internal = None;
    }

    /// Takes a stripe of those left: a free one if there is any, else the
    /// last one left, for which the cursor waits. `None` once no stripe is
    /// left.
    fn find_next(&mut self, lock_type: LockGuardType) -> (res: Option<Visiting<'a, T>>)
        requires
            old(self).visits_each_once(),
            old(self).current() is None,
        ensures
            final(self).searched_from(old(self)),
            res matches Some(visiting) ==> visiting.hold.kind() == lock_type,
            res matches Some(visiting) ==> final(self).has_taken(old(self), visiting),
            res is None ==> final(self).visits_each_once(),
            res is None ==> final(self).unvisited().len() == 0,
            res is None ==> went_by_empty(final(self).made(), old(self).made()),
            res is None ==> !old(self).leaves_places(),
    {
        match self.try_find_next(lock_type) {
            Some(visiting) => Some(visiting),
            None => {
                let ghost swept = *self;
                let found = self.wait_find_next(lock_type);
                proof {
                    lemma_is_rest_trans(self.unvisited(), swept.unvisited(), old(self).unvisited());
                    if found is Some {
                        if swept.made() != old(self).made() {
                            lemma_went_on_twice(old(self).made(), swept.made(), self.made());
                        }
                        let visit = self.made().last().visit;
                        assert(swept.unvisited().contains(visit));
                        assert(old(self).unvisited().contains(visit));
                    } else {
                        if swept.made() != old(self).made() && self.made() != swept.made() {
                            lemma_went_on_twice(old(self).made(), swept.made(), self.made());
                        }
                        let ghost left = old(self).unvisited();
                        assert forall|j: int| 0 <= j < left.len() implies self.empty_by_geometry(
                            #[trigger] left[j],
                        ) by {
                            let visit = left[j];
                            if swept.unvisited().contains(visit) {
                                let i = choose|i: int|
                                    0 <= i < swept.unvisited().len() && swept.unvisited()[i]
                                        == visit;
                                assert(self.unvisited().contains(swept.unvisited()[i])
                                    || self.empty_by_geometry(swept.unvisited()[i]));
                            }
                        }
                    }
                }
                found
            },
        }
    }

    /// Holds the stripe that was taken, and yields the first place of the
    /// part to traverse.
    fn enter_stripe(&mut self, visiting: Visiting<'a, T>, Ghost(before): Ghost<Self>) -> (raw: Raw)
        requires
            old(self).takes_each_once(),
            old(self).current() is None,
            old(self).has_taken(&before, visiting),
        ensures
            final(self).visits_each_once(),
            final(self).same_range_as(old(self)),
            final(self).gave_up() == old(self).gave_up(),
            final(self).unvisited() == old(self).unvisited(),
            final(self).made() == old(self).made(),
            final(self).hold_kind() == Some(visiting.hold.kind()),
            final(self).current() == Some(
                Progress {
                    chunk_id: visiting.chunk_id,
                    length: visiting.length,
                    next: (visiting.next + 1) as usize,
                    end: visiting.end,
                },
            ),
            raw == (Raw { chunk_id: visiting.chunk_id, index: visiting.next }),
            raw == final(self).last_place(),
            final(self).yielded() == old(self).yielded().push(raw),
    {
        let raw = Raw { chunk_id: visiting.chunk_id, index: visiting.next };
        self.internal = Some(
            Visiting {
                hold: visiting.hold,
                chunk_id: visiting.chunk_id,
                length: visiting.length,
                next: visiting.next + 1,
                end: visiting.end,
            },
        );
        self.yielded = Ghost(self.yielded@.push(raw));
        proof {
            let last = self.made().last();
            assert(last.places().take(1) =~= seq![raw]);
            assert(places_of(self.made().drop_last()) + seq![raw] =~= places_of(
                self.made().drop_last(),
            ).push(raw));
        }
        raw
    }

    /// Advances the cursor and yields the place of the next element. While
    /// the stripe held has places left, the next of them comes. Else the
    /// stripe is let go, and another is taken in the way `lock_type` says:
    /// a free one if there is any, else the last one left, for which the
    /// cursor waits. `None` once no stripe is left.
    pub fn next_raw(&mut self, lock_type: LockGuardType) -> (res: Option<Raw>)
        requires
            old(self).visits_each_once(),
        ensures
            final(self).visits_each_once(),
            final(self).same_range_as(old(self)),
            final(self).gave_up() == old(self).gave_up(),
            old(self).is_done() ==> res is None,
            res is None <==> !old(self).has_place_left() && !old(self).leaves_places(),
            res is None ==> final(self).current() is None && final(self).unvisited().len() == 0
                && final(self).yielded() == old(self).yielded(),
            res is None ==> went_by_empty(final(self).made(), old(self).made()),
            res matches Some(raw) ==> (if old(self).has_place_left() {
                old(self).stays(final(self), raw)
            } else {
                old(self).moves(final(self), raw, lock_type)
            }),
            res matches Some(raw) ==> raw == final(self).last_place() && final(self).yielded()
                == old(self).yielded().push(raw),
    {
        match self.step_in_stripe() {
            Some(raw) => {
                return Some(raw);
            },
            None => {},
        }
        cold();
        self.leave_stripe();
        if self.slices.len() == 0 {
            return None;
        }
        let ghost idle = *self;
        match self.find_next(lock_type) {
            Some(visiting) => Some(self.enter_stripe(visiting, Ghost(idle))),
            None => None,
        }
    }

    /// The element at the place `raw` that the cursor has just yielded, to
    /// read: what [`Raw::element_at`] finds in the stripe held. Should the
    /// stripe not reach that far, the cursor gives up what is left and is
    /// done.
    fn take_ref(&mut self, raw: Raw) -> (res: Option<&T>)
        requires
            old(self).visits_each_once(),
        ensures
            final(self).visits_each_once(),
            final(self).same_range_as(old(self)),
            res is Some ==> old(self).current() is Some,
            res is Some ==> final(self).same_place_as(old(self)),
            res is Some ==> final(self).gave_up() == old(self).gave_up(),
            res is Some ==> final(self).yielded() == old(self).yielded(),
            res is None ==> final(self).is_done() && final(self).gave_up(),
            res is None ==> final(self).yielded() == old(self).yielded().drop_last(),
    {
        match &mut self.internal {
            Some(visiting) => {
                match raw.element_at(visiting.hold.get()) {
                    Some(item) => Some(item),
                    None => {
                        visiting.next = visiting.end;
                        self.slices.clear();
                        self.gave_up = Ghost(true);
                        self.yielded = Ghost(self.yielded@.drop_last());
                        None
                    },
                }
            },
            None => {
                self.slices.clear();
                self.gave_up = Ghost(true);
                self.yielded = Ghost(self.yielded@.drop_last());
                None
            },
        }
    }

    /// The element at the place `raw` that the cursor has just yielded, to
    /// change in place: what [`Raw::element_at_mut`] finds in the stripe
    /// held. Should the stripe not reach that far, or not be held
    /// exclusively, the cursor gives up what is left and is done.
    fn take_mut(&mut self, raw: Raw) -> (res: Option<&mut T>)
        requires
            old(self).visits_each_once(),
        ensures
            final(self).visits_each_once(),
            final(self).same_range_as(old(self)),
            res is Some ==> old(self).current() is Some,
            res is Some ==> old(self).hold_kind() == Some(LockGuardType::Write),
            res is Some ==> final(self).same_place_as(old(self)),
            res is Some ==> final(self).gave_up() == old(self).gave_up(),
            res is Some ==> final(self).yielded() == old(self).yielded(),
            res is None ==> final(self).is_done() && final(self).gave_up(),
            res is None ==> final(self).yielded() == old(self).yielded().drop_last(),
    {
        match &mut self.internal {
            Some(visiting) => {
                match visiting.hold.get_mut() {
                    Some(chunk) => {
                        match raw.element_at_mut(chunk) {
                            Some(item) => {
                                return Some(item);
                            },
                            None => {},
                        }
                    },
                    None => {},
                }
                visiting.next = visiting.end;
                self.slices.clear();
                self.gave_up = Ghost(true);
                self.yielded = Ghost(self.yielded@.drop_last());
                None
            },
            None => {
                self.slices.clear();
                self.gave_up = Ghost(true);
                self.yielded = Ghost(self.yielded@.drop_last());
                None
            },
        }
    }
}

/// A cursor that reads: it takes each stripe shared.
#[verifier::reject_recursive_types(T)]
pub struct CandyCaneIterStreaming<'a, T: Sync, const N: usize> {
    pub(crate) inner: RawCandyCaneIterStreaming<'a, T, N>,
}

impl<'a, T: Sync, const N: usize> CandyCaneIterStreaming<'a, T, N> {
    /// The cursor underneath, which keeps the state.
    pub closed spec fn raw(&self) -> &RawCandyCaneIterStreaming<'a, T, N> {
        &self.inner
    }

    /// The cursor that advances `inner`.
    pub(crate) fn over(inner: RawCandyCaneIterStreaming<'a, T, N>) -> (cursor: Self)
        ensures
            *cursor.raw() == inner,
    {
        CandyCaneIterStreaming { inner }
    }

    /// The next element, or `None` once every stripe has been traversed.
    /// The reference lives until the cursor is advanced again.
    #[inline]
    pub fn next(&mut self) -> (res: Option<&T>)
        requires
            old(self).raw().visits_each_once(),
        ensures
            final(self).raw().visits_each_once(),
            final(self).raw().same_range_as(old(self).raw()),
            old(self).raw().is_done() ==> res is None,
            res is None ==> final(self).raw().is_done(),
            res is None ==> final(self).raw().yielded() == old(self).raw().yielded(),
            res is Some ==> final(self).raw().gave_up() == old(self).raw().gave_up(),
            res is Some ==> final(self).raw().yielded() == old(self).raw().yielded().push(
                final(self).raw().last_place(),
            ),
            res is Some ==> (if old(self).raw().has_place_left() {
                old(self).raw().stays(final(self).raw(), final(self).raw().last_place())
            } else {
                old(self).raw().moves(
                    final(self).raw(),
                    final(self).raw().last_place(),
                    LockGuardType::Read,
                )
            }),
            final(self).raw().gave_up() != old(self).raw().gave_up() ==> res is None,
            old(self).raw().has_place_left() || old(self).raw().leaves_places() ==> res is Some
                || final(self).raw().gave_up(),
            res is None && !final(self).raw().gave_up() ==> !old(self).raw().has_place_left()
                && !old(self).raw().leaves_places(),
            res is None && !final(self).raw().gave_up() ==> went_by_empty(
                final(self).raw().made(),
                old(self).raw().made(),
            ),
    {
        match self.inner.next_raw(LockGuardType::Read) {
            Some(raw) => self.inner.take_ref(raw),
            None => None,
        }
    }
}

/// A cursor that writes: it takes each stripe exclusively.
#[verifier::reject_recursive_types(T)]
pub struct CandyCaneIterStreamingMut<'a, T: Send, const N: usize> {
    pub(crate) inner: RawCandyCaneIterStreaming<'a, T, N>,
}

impl<'a, T: Send, const N: usize> CandyCaneIterStreamingMut<'a, T, N> {
    /// The cursor underneath, which keeps the state.
    pub closed spec fn raw(&self) -> &RawCandyCaneIterStreaming<'a, T, N> {
        &self.inner
    }

    /// The cursor that advances `inner`.
    pub(crate) fn over(inner: RawCandyCaneIterStreaming<'a, T, N>) -> (cursor: Self)
        ensures
            *cursor.raw() == inner,
    {
        CandyCaneIterStreamingMut { inner }
    }

    /// The next element, or `None` once every stripe has been traversed.
    /// The reference lives until the cursor is advanced again.
    #[inline]
    pub fn next(&mut self) -> (res: Option<&mut T>)
        requires
            old(self).raw().visits_each_once(),
        ensures
            final(self).raw().visits_each_once(),
            final(self).raw().same_range_as(old(self).raw()),
            old(self).raw().is_done() ==> res is None,
            res is None ==> final(self).raw().is_done(),
            res is None ==> final(self).raw().yielded() == old(self).raw().yielded(),
            res is Some ==> final(self).raw().gave_up() == old(self).raw().gave_up(),
            res is Some ==> final(self).raw().yielded() == old(self).raw().yielded().push(
                final(self).raw().last_place(),
            ),
            res is Some ==> (if old(self).raw().has_place_left() {
                old(self).raw().stays(final(self).raw(), final(self).raw().last_place())
            } else {
                old(self).raw().moves(
                    final(self).raw(),
                    final(self).raw().last_place(),
                    LockGuardType::Write,
                )
            }),
            final(self).raw().gave_up() != old(self).raw().gave_up() ==> res is None,
            old(self).raw().has_place_left() || old(self).raw().leaves_places() ==> res is Some
                || final(self).raw().gave_up(),
            res is None && !final(self).raw().gave_up() ==> !old(self).raw().has_place_left()
                && !old(self).raw().leaves_places(),
            res is None && !final(self).raw().gave_up() ==> went_by_empty(
                final(self).raw().made(),
                old(self).raw().made(),
            ),
            res is Some ==> final(self).raw().hold_kind() == Some(LockGuardType::Write),
    {
        match self.inner.next_raw(LockGuardType::Write) {
            Some(raw) => self.inner.take_mut(raw),
            None => None,
        }
    }
}

/// A visit of `before` that is still in `now` is the one at `index` or is
/// still there when that one is taken out.
proof fn lemma_passed_one_more(before: Seq<ChunkVisit>, now: Seq<ChunkVisit>, index: int)
    requires
        0 <= index < now.len(),
    ensures
        forall|j: int|
            0 <= j < before.len() && now.contains(#[trigger] before[j]) ==> before[j] == now[index]
                || now.remove(index).contains(before[j]),
{
    assert forall|j: int|
        0 <= j < before.len() && now.contains(#[trigger] before[j]) implies before[j] == now[index]
            || now.remove(index).contains(before[j]) by {
        let i = choose|i: int| 0 <= i < now.len() && now[i] == before[j];
        if i < index {
            assert(now.remove(index)[i] == now[i]);
        } else if i > index {
            assert(now.remove(index)[i - 1] == now[i]);
        }
    }
}

proof fn lemma_remove_is_rest(before: Seq<ChunkVisit>, index: int)
    requires
        0 <= index < before.len(),
    ensures
        is_rest_of(before.remove(index), before),
{
    let now = before.remove(index);
    assert forall|j: int| 0 <= j < now.len() implies before.contains(#[trigger] now[j]) by {
        if j < index {
            assert(now[j] == before[j]);
        } else {
            assert(now[j] == before[j + 1]);
        }
    }
}

proof fn lemma_is_rest_trans(
    now: Seq<ChunkVisit>,
    between: Seq<ChunkVisit>,
    before: Seq<ChunkVisit>,
)
    requires
        is_rest_of(now, between),
        is_rest_of(between, before),
    ensures
        is_rest_of(now, before),
{
    assert forall|j: int| 0 <= j < now.len() implies before.contains(#[trigger] now[j]) by {
        assert(between.contains(now[j]));
        let i = choose|i: int| 0 <= i < between.len() && between[i] == now[j];
        assert(before.contains(between[i]));
    }
}

/// Moving a visit from those left to those made keeps the two together
/// what they were.
proof fn lemma_made_one_more(made: Seq<Made>, left: Seq<ChunkVisit>, index: int, length: usize)
    requires
        0 <= index < left.len(),
    ensures
        visits_made(made.push(Made { visit: left[index], length })).to_multiset().add(
            left.remove(index).to_multiset(),
        ) == visits_made(made).to_multiset().add(left.to_multiset()),
{
    broadcast use vstd::seq_lib::group_to_multiset_ensures;

    let visit = left[index];
    let more = made.push(Made { visit, length });
    assert(visits_made(more) =~= visits_made(made).push(visit));
    assert(left.to_multiset().count(visit) > 0);
    assert(visits_made(made).to_multiset().insert(visit).add(left.to_multiset().remove(visit))
        =~= visits_made(made).to_multiset().add(left.to_multiset()));
}

/// A visit that yields no place adds nothing to the places yielded.
proof fn lemma_places_push_empty(made: Seq<Made>, last: Made)
    requires
        last.places().len() == 0,
    ensures
        places_of(made.push(last)) == places_of(made),
{
    let more = made.push(last);
    assert(more.drop_last() == made);
    assert(more.last() == last);
    assert(places_of(made) + last.places() =~= places_of(made));
}

/// One more visit after visits that went on from `before` goes on from
/// `before`, if the last of those yielded no place.
proof fn lemma_went_on(before: Seq<Made>, between: Seq<Made>, last: Made)
    requires
        between == before || went_on_from(between, before) && between.last().places().len() == 0,
    ensures
        went_on_from(between.push(last), before),
        between.push(last).drop_last() == between,
        between.push(last).last() == last,
{
    let now = between.push(last);
    assert(now.drop_last() =~= between);
    assert(now.take(before.len() as int) =~= between.take(before.len() as int));
    assert(between.take(between.len() as int) == between);
    assert forall|i: int| before.len() <= i < now.len() - 1 implies (
    #[trigger] now[i]).places().len() == 0 by {
        assert(now[i] == between[i]);
    }
}

/// Going on twice is going on, if the first stretch ended with a visit that
/// yielded no place.
proof fn lemma_went_on_twice(before: Seq<Made>, between: Seq<Made>, now: Seq<Made>)
    requires
        went_on_from(between, before),
        between.last().places().len() == 0,
        went_on_from(now, between),
    ensures
        went_on_from(now, before),
{
    assert(now.take(before.len() as int) =~= now.take(between.len() as int).take(
        before.len() as int,
    ));
    assert forall|i: int| before.len() <= i < now.len() - 1 implies (
    #[trigger] now[i]).places().len() == 0 by {
        if i < between.len() {
            assert(now[i] == now.take(between.len() as int)[i]);
        }
    }
}

/// Yielding the next place of a visit: the places yielded so far, with that
/// place behind them, are those of one place more of the visit.
proof fn lemma_take_one_more(head: Seq<Raw>, places: Seq<Raw>, count: int)
    requires
        0 <= count < places.len(),
    ensures
        (head + places.take(count)).push(places[count]) == head + places.take(count + 1),
{
    assert((head + places.take(count)).push(places[count]) =~= head + places.take(count + 1));
}

/// A cursor that is done, and has not given up, has made the visits that it
/// was made to make, each once, and has yielded the places of each of them.
pub proof fn lemma_done_cursor_made_its_plan<'a, T, const N: usize>(
    cursor: RawCandyCaneIterStreaming<'a, T, N>,
)
    requires
        cursor.visits_each_once(),
        cursor.is_done(),
        !cursor.gave_up(),
    ensures
        visits_made(cursor.made()).to_multiset() == cursor.plan().to_multiset(),
        cursor.yielded() == places_of(cursor.made()),
{
    broadcast use vstd::seq_lib::group_to_multiset_ensures;

    assert(cursor.unvisited() =~= Seq::<ChunkVisit>::empty());
    assert(visits_made(cursor.made()).to_multiset().add(cursor.unvisited().to_multiset())
        =~= visits_made(cursor.made()).to_multiset());
    if cursor.current() is Some {
        let last = cursor.made().last();
        assert(last.places().take(last.end() - last.begin()) == last.places());
    }
}

} // verus!
