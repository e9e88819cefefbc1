//! What the visits of a cursor add up to: laid end to end in stripe order
//! they are the range the cursor was made for, and taken in any other order
//! they hold the same elements.

use vstd::prelude::*;
use vstd::seq_lib::lemma_multiset_commutative;
use crate::iter::ChunkVisit;
use crate::iter::RangeBound;
use crate::iter::ChunkVisitRange;
use crate::iter::first_slice_of;
use crate::iter::last_slice_of;
use crate::iter::lemma_slice_index_bounds;
use crate::iter::lemma_slice_index_monotone;
use crate::iter::range_at;
use crate::iter::ranges_of;
use crate::iter::streaming::Made;
use crate::iter::streaming::Raw;
use crate::iter::streaming::RawCandyCaneIterStreaming;
use crate::iter::streaming::lemma_done_cursor_made_its_plan;
use crate::iter::streaming::places_of;
use crate::iter::streaming::visits_made;
use crate::iter::visits_of;
use crate::layout::lemma_stripes_contiguous;
use crate::layout::owner_of;
use crate::layout::slice_end_of;
use crate::layout::slice_len_of;
use crate::layout::slice_start_of;
use crate::layout::stripes_of;

verus! {

/// What one visit yields: the part to traverse of the stripe visited, as far
/// as the stripe reaches, in index order.
pub open spec fn visit_items<T>(stripes: Seq<Seq<T>>, visit: ChunkVisit) -> Seq<T> {
    let stripe = stripes[visit.chunk_id as int];
    let (lo, hi) = visit.range.span(stripe.len() as int);
    stripe.subrange(lo, hi)
}

/// What a cursor yields that makes the visits of `order` one after the
/// other.
pub open spec fn items_in_order<T>(stripes: Seq<Seq<T>>, order: Seq<ChunkVisit>) -> Seq<T>
    decreases order.len(),
{
    if order.len() == 0 {
        Seq::empty()
    } else {
        items_in_order(stripes, order.drop_last()) + visit_items(stripes, order.last())
    }
}

/// Index in the buffer at which visit `j` of a cursor over `[start, end)`
/// begins, where the visits begin with stripe `first`.
pub open spec fn visit_begin(start: int, per_slice: int, first: int, j: int) -> int {
    if j == 0 {
        start
    } else {
        (first + j) * per_slice
    }
}

/// Index in the buffer at which visit `j` of `count` visits of a cursor over
/// `[start, end)` ends.
pub open spec fn visit_end(end: int, per_slice: int, first: int, count: int, j: int) -> int {
    if j == count - 1 {
        end
    } else {
        (first + j + 1) * per_slice
    }
}

/// A cursor over a range that is not empty makes one visit for each stripe
/// from the first to the last.
pub proof fn lemma_plan_count(len: int, slices: int, start: int, end: int)
    requires
        1 <= slices <= usize::MAX,
        0 <= start < end <= len <= usize::MAX,
    ensures
        ({
            let per_slice = len / slices;
            let first = first_slice_of(start, per_slice, slices);
            let last = last_slice_of(end, per_slice, slices);
            &&& 0 <= first <= last < slices
            &&& visits_of(start, end, per_slice, slices).len() == last - first + 1
        }),
{
    let per_slice = len / slices;
    assert(0 <= per_slice) by (nonlinear_arith)
        requires
            0 <= len,
            1 <= slices,
            per_slice == len / slices,
    ;
    lemma_slice_index_bounds(per_slice, slices, start);
    lemma_slice_index_bounds(per_slice, slices, end);
    lemma_slice_index_monotone(per_slice, slices, start, end);
}

/// Visit `j` of a cursor over a range that is not empty traverses, of the
/// stripe it visits, what lies between where the visit begins and where it
/// ends.
pub proof fn lemma_visit_reach(len: int, slices: int, start: int, end: int, j: int)
    requires
        1 <= slices <= usize::MAX,
        0 <= start < end <= len <= usize::MAX,
        0 <= j < visits_of(start, end, len / slices, slices).len(),
    ensures
        ({
            let per_slice = len / slices;
            let first = first_slice_of(start, per_slice, slices);
            let last = last_slice_of(end, per_slice, slices);
            let visits = visits_of(start, end, per_slice, slices);
            let visit = visits[j];
            let k = first + j;
            let length = slice_len_of(len, slices, k);
            let begin = visit_begin(start, per_slice, first, j);
            let finish = visit_end(end, per_slice, first, visits.len() as int, j);
            &&& 0 <= first <= last < slices
            &&& visits.len() == last - first + 1
            &&& visit.chunk_id == k
            &&& visit.range.fits(length)
            &&& slice_start_of(len, slices, k) + visit.range.lower() == begin
            &&& slice_start_of(len, slices, k) + visit.range.upper(length) == finish
            &&& slice_start_of(len, slices, k) <= begin <= finish <= slice_end_of(len, slices, k)
            &&& start <= begin <= finish <= end
        }),
{
    let per_slice = len / slices;
    let first = first_slice_of(start, per_slice, slices);
    let last = last_slice_of(end, per_slice, slices);
    let ranges = ranges_of(start, end, per_slice, slices);
    let visits = visits_of(start, end, per_slice, slices);
    let k = first + j;
    lemma_plan_count(len, slices, start, end);
    lemma_slice_index_bounds(per_slice, slices, start);
    lemma_slice_index_bounds(per_slice, slices, end);
    assert(ranges[j] == range_at(start, end, per_slice, slices, k));
    assert(visits[j].chunk_id == (first + j) as usize);
    lemma_stripes_contiguous(len, slices, k);
    assert((k + 1) * per_slice == k * per_slice + per_slice) by (nonlinear_arith);
    assert(first * per_slice <= k * per_slice) by (nonlinear_arith)
        requires
            first <= k,
            per_slice >= 0,
    ;
    assert(k * per_slice <= last * per_slice) by (nonlinear_arith)
        requires
            k <= last,
            per_slice >= 0,
    ;
    if k < last {
        assert((k + 1) * per_slice <= last * per_slice) by (nonlinear_arith)
            requires
                k + 1 <= last,
                per_slice >= 0,
        ;
    }
    if j > 0 {
        assert((first + 1) * per_slice <= k * per_slice) by (nonlinear_arith)
            requires
                first + 1 <= k,
                per_slice >= 0,
        ;
        assert((first + 1) * per_slice == first * per_slice + per_slice) by (nonlinear_arith);
    }
}

/// A cursor over `[start, end)` has one visit for each stripe that meets the
/// range: the stripe that owns an index of the range is visited, by the
/// visit that stands as far behind the first as the stripe stands behind the
/// first stripe, and the index lies between where that visit begins and
/// where it ends.
pub proof fn lemma_plan_lists_owner(len: int, slices: int, start: int, end: int, index: int)
    requires
        1 <= slices <= usize::MAX,
        0 <= start <= index < end <= len <= usize::MAX,
    ensures
        ({
            let per_slice = len / slices;
            let first = first_slice_of(start, per_slice, slices);
            let visits = visits_of(start, end, per_slice, slices);
            let j = owner_of(len, slices, index) - first;
            &&& 0 <= j < visits.len()
            &&& visits[j].chunk_id == owner_of(len, slices, index)
            &&& visit_begin(start, per_slice, first, j) <= index < visit_end(
                end,
                per_slice,
                first,
                visits.len() as int,
                j,
            )
        }),
{
    let per_slice = len / slices;
    let first = first_slice_of(start, per_slice, slices);
    let k = owner_of(len, slices, index);
    let j = k - first;
    lemma_plan_count(len, slices, start, end);
    assert(0 <= per_slice) by (nonlinear_arith)
        requires
            0 <= len,
            1 <= slices,
            per_slice == len / slices,
    ;
    lemma_slice_index_monotone(per_slice, slices, start, index);
    lemma_slice_index_monotone(per_slice, slices, index, end);
    lemma_slice_index_bounds(per_slice, slices, index);
    lemma_visit_reach(len, slices, start, end, j);
    assert((k + 1) * per_slice == k * per_slice + per_slice) by (nonlinear_arith);
}

/// What visit `j` of a cursor yields from the stripes of `data` is `data`
/// from where the visit begins to where it ends.
pub proof fn lemma_visit_items_of_stripes<T>(
    data: Seq<T>,
    slices: int,
    start: int,
    end: int,
    j: int,
)
    requires
        1 <= slices <= usize::MAX,
        0 <= start < end <= data.len() <= usize::MAX,
        0 <= j < visits_of(start, end, data.len() as int / slices, slices).len(),
    ensures
        ({
            let per_slice = data.len() as int / slices;
            let first = first_slice_of(start, per_slice, slices);
            let visits = visits_of(start, end, per_slice, slices);
            visit_items(stripes_of(data, slices), visits[j]) == data.subrange(
                visit_begin(start, per_slice, first, j),
                visit_end(end, per_slice, first, visits.len() as int, j),
            )
        }),
{
    let len = data.len() as int;
    let per_slice = len / slices;
    let first = first_slice_of(start, per_slice, slices);
    let visits = visits_of(start, end, per_slice, slices);
    let k = first + j;
    lemma_visit_reach(len, slices, start, end, j);
    lemma_stripes_contiguous(len, slices, k);
    let at = slice_start_of(len, slices, k);
    let stripe = stripes_of(data, slices)[k];
    assert(stripe == data.subrange(at, slice_end_of(len, slices, k)));
    assert(stripe.len() == slice_len_of(len, slices, k));
    let (lo, hi) = visits[j].range.span(stripe.len() as int);
    assert(stripe.subrange(lo, hi) == data.subrange(at + lo, at + hi));
}

/// Laid end to end in stripe order, the visits of a cursor over
/// `[start, end)` are the elements of `data` at `[start, end)`, in index
/// order.
pub proof fn lemma_plan_yields_range<T>(data: Seq<T>, slices: int, start: int, end: int)
    requires
        1 <= slices <= usize::MAX,
        0 <= start <= end <= data.len() <= usize::MAX,
    ensures
        items_in_order(
            stripes_of(data, slices),
            visits_of(start, end, data.len() as int / slices, slices),
        ) == data.subrange(start, end),
{
    let visits = visits_of(start, end, data.len() as int / slices, slices);
    if start == end {
        assert(visits.len() == 0);
        assert(data.subrange(start, end) == Seq::<T>::empty());
    } else {
        lemma_plan_count(data.len() as int, slices, start, end);
        lemma_prefix_yields(data, slices, start, end, visits.len() as int);
        assert(visits.take(visits.len() as int) == visits);
    }
}

/// The first `upto` visits, laid end to end, are `data` from `start` to
/// where the last of them ends.
proof fn lemma_prefix_yields<T>(data: Seq<T>, slices: int, start: int, end: int, upto: int)
    requires
        1 <= slices <= usize::MAX,
        0 <= start < end <= data.len() <= usize::MAX,
        0 <= upto <= visits_of(start, end, data.len() as int / slices, slices).len(),
    ensures
        ({
            let per_slice = data.len() as int / slices;
            let first = first_slice_of(start, per_slice, slices);
            let visits = visits_of(start, end, per_slice, slices);
            items_in_order(stripes_of(data, slices), visits.take(upto)) == data.subrange(
                start,
                if upto == 0 {
                    start
                } else {
                    visit_end(end, per_slice, first, visits.len() as int, upto - 1)
                },
            )
        }),
    decreases upto,
{
    let len = data.len() as int;
    let per_slice = len / slices;
    let first = first_slice_of(start, per_slice, slices);
    let visits = visits_of(start, end, per_slice, slices);
    let stripes = stripes_of(data, slices);
    let head = visits.take(upto);
    if upto == 0 {
        assert(data.subrange(start, start) == Seq::<T>::empty());
    } else {
        let j = upto - 1;
        lemma_prefix_yields(data, slices, start, end, j);
        lemma_visit_items_of_stripes(data, slices, start, end, j);
        lemma_visit_reach(len, slices, start, end, j);
        assert(head.drop_last() == visits.take(j));
        assert(head.last() == visits[j]);
        let begin = visit_begin(start, per_slice, first, j);
        let finish = visit_end(end, per_slice, first, visits.len() as int, j);
        if j > 0 {
            lemma_visit_reach(len, slices, start, end, j - 1);
            assert(visit_end(end, per_slice, first, visits.len() as int, j - 1) == begin);
        }
        assert(data.subrange(start, begin) + data.subrange(begin, finish) == data.subrange(
            start,
            finish,
        ));
    }
}

/// What a cursor yields holds the elements of each of its visits.
proof fn lemma_items_push<T>(stripes: Seq<Seq<T>>, order: Seq<ChunkVisit>, visit: ChunkVisit)
    ensures
        items_in_order(stripes, order.push(visit)).to_multiset() == items_in_order(
            stripes,
            order,
        ).to_multiset().add(visit_items(stripes, visit).to_multiset()),
{
    let more = order.push(visit);
    assert(more.drop_last() == order);
    assert(more.last() == visit);
    lemma_multiset_commutative(items_in_order(stripes, order), visit_items(stripes, visit));
}

/// Taking one visit out of an order takes its elements out of what is
/// yielded, and nothing else.
proof fn lemma_items_remove<T>(stripes: Seq<Seq<T>>, order: Seq<ChunkVisit>, at: int)
    requires
        0 <= at < order.len(),
    ensures
        items_in_order(stripes, order).to_multiset() == items_in_order(
            stripes,
            order.remove(at),
        ).to_multiset().add(visit_items(stripes, order[at]).to_multiset()),
    decreases order.len(),
{
    let rest = order.drop_last();
    if at == order.len() - 1 {
        assert(order.remove(at) == rest);
        assert(order == rest.push(order.last()));
        lemma_items_push(stripes, rest, order.last());
    } else {
        lemma_items_remove(stripes, rest, at);
        assert(order == rest.push(order.last()));
        lemma_items_push(stripes, rest, order.last());
        assert(order.remove(at) == rest.remove(at).push(order.last()));
        lemma_items_push(stripes, rest.remove(at), order.last());
        assert(rest[at] == order[at]);
    }
}

/// The order of the visits does not matter to which elements are yielded,
/// and how often: two cursors that make the same visits yield the same
/// multiset of elements, in whatever order each comes by its stripes.
pub proof fn lemma_items_any_order<T>(
    stripes: Seq<Seq<T>>,
    one: Seq<ChunkVisit>,
    other: Seq<ChunkVisit>,
)
    requires
        one.to_multiset() == other.to_multiset(),
    ensures
        items_in_order(stripes, one).to_multiset() == items_in_order(stripes, other).to_multiset(),
    decreases one.len(),
{
    broadcast use vstd::seq_lib::group_to_multiset_ensures;

    if one.len() == 0 {
        assert(other.to_multiset().len() == 0);
        assert(other.len() == 0);
    } else {
        let visit = one.last();
        let rest = one.drop_last();
        assert(one == rest.push(visit));
        assert(one.to_multiset().count(visit) > 0);
        assert(other.contains(visit));
        let at = choose|at: int| 0 <= at < other.len() && other[at] == visit;
        assert(rest.to_multiset() =~= one.to_multiset().remove(visit)) by {
            assert(one.remove(one.len() - 1) == rest);
        }
        assert(other.remove(at).to_multiset() =~= other.to_multiset().remove(visit));
        lemma_items_any_order(stripes, rest, other.remove(at));
        lemma_items_push(stripes, rest, visit);
        lemma_items_remove(stripes, other, at);
    }
}

/// A cursor over `[start, end)` that makes its visits in any order yields
/// the multiset of the elements of `data` at `[start, end)`.
pub proof fn lemma_cursor_yields_range<T>(
    data: Seq<T>,
    slices: int,
    start: int,
    end: int,
    order: Seq<ChunkVisit>,
)
    requires
        1 <= slices <= usize::MAX,
        0 <= start <= end <= data.len() <= usize::MAX,
        order.to_multiset() == visits_of(
            start,
            end,
            data.len() as int / slices,
            slices,
        ).to_multiset(),
    ensures
        items_in_order(stripes_of(data, slices), order).to_multiset() == data.subrange(
            start,
            end,
        ).to_multiset(),
        items_in_order(stripes_of(data, slices), order).len() == end - start,
{
    broadcast use vstd::seq_lib::group_to_multiset_ensures;

    let plan = visits_of(start, end, data.len() as int / slices, slices);
    lemma_plan_yields_range(data, slices, start, end);
    lemma_items_any_order(stripes_of(data, slices), order, plan);
    items_in_order(stripes_of(data, slices), order).to_multiset_ensures();
    data.subrange(start, end).to_multiset_ensures();
}

/// A cursor over the whole of a buffer yields as many elements as the buffer
/// holds, in whatever order it comes by its stripes.
pub proof fn lemma_full_range_yields_all<T>(data: Seq<T>, slices: int, order: Seq<ChunkVisit>)
    requires
        1 <= slices <= usize::MAX,
        data.len() <= usize::MAX,
        order.to_multiset() == visits_of(
            0,
            data.len() as int,
            data.len() as int / slices,
            slices,
        ).to_multiset(),
    ensures
        items_in_order(stripes_of(data, slices), order).len() == data.len(),
        items_in_order(stripes_of(data, slices), order).to_multiset() == data.to_multiset(),
{
    let len = data.len() as int;
    lemma_cursor_yields_range(data, slices, 0, len, order);
    assert(data.subrange(0, len) == data);
}

/// Within a stripe the elements come in index order: the `i`-th element of
/// a visit is the `i`-th of the stripe after the place where the visit
/// begins.
pub proof fn lemma_visit_in_index_order<T>(stripes: Seq<Seq<T>>, visit: ChunkVisit, i: int)
    requires
        0 <= i < visit_items(stripes, visit).len(),
        0 <= visit.chunk_id < stripes.len(),
    ensures
        ({
            let stripe = stripes[visit.chunk_id as int];
            let (lo, hi) = visit.range.span(stripe.len() as int);
            &&& lo + i < hi
            &&& visit_items(stripes, visit)[i] == stripe[lo + i]
        }),
{
}

/// With one stripe, a cursor over a range that is not empty makes one
/// visit: a single walk from `start` to `end` under the one lock.
pub proof fn lemma_single_stripe(len: int, start: int, end: int)
    requires
        0 <= start < end <= len <= usize::MAX,
    ensures
        visits_of(start, end, len / 1, 1) == seq![
            ChunkVisit {
                chunk_id: 0,
                range: ChunkVisitRange::Inside(start as usize, end as usize),
            },
        ],
{
    let visits = visits_of(start, end, len / 1, 1);
    assert(start / len == 0) by (nonlinear_arith)
        requires
            0 <= start < len,
    ;
    assert(0 * len == 0) by (nonlinear_arith);
    lemma_visit_reach(len, 1, start, end, 0);
    assert(visits[0].range == range_at(start, end, len, 1, 0));
    assert(visits =~= seq![
        ChunkVisit {
            chunk_id: 0,
            range: ChunkVisitRange::Inside(start as usize, end as usize),
        },
    ]);
}

/// A cursor over an empty range has no visit to make and yields nothing,
/// whatever the buffer holds; so does every cursor over an empty buffer.
pub proof fn lemma_empty_range<T>(stripes: Seq<Seq<T>>, start: int, per_slice: int, slices: int)
    ensures
        visits_of(start, start, per_slice, slices).len() == 0,
        items_in_order(stripes, visits_of(start, start, per_slice, slices)).len() == 0,
{
}

/// The elements that stand at `places` in `stripes`, in the order of the
/// places.
pub open spec fn elements_at<T>(stripes: Seq<Seq<T>>, places: Seq<Raw>) -> Seq<T> {
    Seq::new(places.len(), |i: int| stripes[places[i].chunk_id as int][places[i].index as int])
}

/// Whether each visit of `made` is one of a stripe of `stripes`, made when
/// the stripe had the length that it has in `stripes`.
pub open spec fn made_in<T>(stripes: Seq<Seq<T>>, made: Seq<Made>) -> bool {
    forall|i: int|
        0 <= i < made.len() ==> (#[trigger] made[i]).visit.chunk_id < stripes.len()
            && made[i].length == stripes[made[i].visit.chunk_id as int].len()
}

/// The elements at the places that visits made in `stripes` yield are what
/// the visits yield, one after the other.
pub proof fn lemma_places_hold_items<T>(stripes: Seq<Seq<T>>, made: Seq<Made>)
    requires
        made_in(stripes, made),
    ensures
        elements_at(stripes, places_of(made)) == items_in_order(stripes, visits_made(made)),
    decreases made.len(),
{
    if made.len() == 0 {
        assert(elements_at(stripes, places_of(made)) =~= Seq::<T>::empty());
        assert(visits_made(made) =~= Seq::<ChunkVisit>::empty());
    } else {
        let rest = made.drop_last();
        let last = made.last();
        assert(made_in(stripes, rest)) by {
            assert forall|i: int| 0 <= i < rest.len() implies (
            #[trigger] rest[i]).visit.chunk_id < stripes.len() && rest[i].length
                == stripes[rest[i].visit.chunk_id as int].len() by {
                assert(rest[i] == made[i]);
            }
        }
        lemma_places_hold_items(stripes, rest);
        assert(visits_made(made).drop_last() =~= visits_made(rest));
        assert(visits_made(made).last() == last.visit);
        assert(made[made.len() - 1] == last);
        assert(elements_at(stripes, last.places()) =~= visit_items(stripes, last.visit));
        assert(elements_at(stripes, places_of(rest) + last.places()) =~= elements_at(
            stripes,
            places_of(rest),
        ) + elements_at(stripes, last.places()));
    }
}

/// Every visit that a cursor has made is one of a stripe of `data`, made
/// with the length that the stripe has when `data` is cut into `N` stripes,
/// where `data` has as many elements as the cursor read.
pub proof fn lemma_made_by_count<'a, T, const N: usize>(
    cursor: RawCandyCaneIterStreaming<'a, T, N>,
    data: Seq<T>,
)
    requires
        cursor.visits_each_once(),
        data.len() == cursor.seen_len(),
    ensures
        made_in(stripes_of(data, N as int), cursor.made()),
{
    let stripes = stripes_of(data, N as int);
    let made = cursor.made();
    assert forall|i: int| 0 <= i < made.len() implies (#[trigger] made[i]).visit.chunk_id
        < stripes.len() && made[i].length == stripes[made[i].visit.chunk_id as int].len() by {
        lemma_stripes_contiguous(data.len() as int, N as int, made[i].visit.chunk_id as int);
    }
}

/// A cursor that is done, and has not given up, has yielded the places of
/// the elements of `data` at the range it was made for, each once, in some
/// order, where `data` has as many elements as the cursor read.
pub proof fn lemma_done_cursor_yielded_range<'a, T, const N: usize>(
    cursor: RawCandyCaneIterStreaming<'a, T, N>,
    data: Seq<T>,
)
    requires
        cursor.visits_each_once(),
        cursor.is_done(),
        !cursor.gave_up(),
        data.len() == cursor.seen_len(),
    ensures
        elements_at(stripes_of(data, N as int), cursor.yielded()).to_multiset() == data.subrange(
            cursor.range_start() as int,
            cursor.range_end() as int,
        ).to_multiset(),
        cursor.yielded().len() == cursor.range_end() - cursor.range_start(),
{
    let stripes = stripes_of(data, N as int);
    lemma_made_by_count(cursor, data);
    lemma_done_cursor_made_its_plan(cursor);
    lemma_places_hold_items(stripes, cursor.made());
    lemma_cursor_yields_range(
        data,
        N as int,
        cursor.range_start() as int,
        cursor.range_end() as int,
        visits_made(cursor.made()),
    );
}

/// Two cursors over the same range of a container that has not changed
/// yield the same multiset of elements, in whatever order each comes by its
/// stripes: both are done, neither has given up, and both read the element
/// count of `data`.
pub proof fn lemma_two_cursors_yield_the_same<'a, 'b, T, const N: usize>(
    one: RawCandyCaneIterStreaming<'a, T, N>,
    other: RawCandyCaneIterStreaming<'b, T, N>,
    data: Seq<T>,
)
    requires
        one.visits_each_once(),
        one.is_done(),
        !one.gave_up(),
        other.visits_each_once(),
        other.is_done(),
        !other.gave_up(),
        one.range_start() == other.range_start(),
        one.range_end() == other.range_end(),
        data.len() == one.seen_len(),
        data.len() == other.seen_len(),
    ensures
        elements_at(stripes_of(data, N as int), one.yielded()).to_multiset() == elements_at(
            stripes_of(data, N as int),
            other.yielded(),
        ).to_multiset(),
{
    lemma_done_cursor_yielded_range(one, data);
    lemma_done_cursor_yielded_range(other, data);
}

/// With one stripe, a cursor that is done, and has not given up, has walked
/// its range once from start to end: the places it yielded are those of the
/// range, in index order.
pub proof fn lemma_single_stripe_walk<'a, T>(cursor: RawCandyCaneIterStreaming<'a, T, 1>)
    requires
        cursor.visits_each_once(),
        cursor.is_done(),
        !cursor.gave_up(),
    ensures
        cursor.yielded() == Seq::new(
            (cursor.range_end() - cursor.range_start()) as nat,
            |k: int| Raw { chunk_id: 0, index: (cursor.range_start() + k) as usize },
        ),
        cursor.made().len() <= 1,
{
    broadcast use vstd::seq_lib::group_to_multiset_ensures;

    let start = cursor.range_start() as int;
    let end = cursor.range_end() as int;
    let len = cursor.seen_len() as int;
    let made = cursor.made();
    lemma_done_cursor_made_its_plan(cursor);
    assert(visits_made(made).len() == made.len());
    assert(visits_made(made).to_multiset().len() == cursor.plan().to_multiset().len());
    if start == end {
        assert(cursor.plan().len() == 0);
        assert(made.len() == 0);
        assert(cursor.yielded() =~= Seq::<Raw>::empty());
    } else {
        lemma_single_stripe(len, start, end);
        let visit = ChunkVisit {
            chunk_id: 0,
            range: ChunkVisitRange::Inside(start as usize, end as usize),
        };
        assert(cursor.plan() == seq![visit]);
        assert(made.len() == 1);
        assert(visits_made(made).contains(visits_made(made)[0]));
        assert(cursor.plan().to_multiset().count(made[0].visit) > 0);
        assert(cursor.plan().contains(made[0].visit));
        assert(made[0].visit == visit);
        assert(made[0].length == len) by {
            assert(made[0].length == cursor.stripe_len(0));
            assert(len % 1 == 0);
            assert(len / 1 == len);
        }
        assert(made.drop_last() =~= Seq::<Made>::empty());
        assert(places_of(made.drop_last()) =~= Seq::<Raw>::empty());
        assert(made.last() == made[0]);
        assert(cursor.yielded() =~= Seq::new(
            (end - start) as nat,
            |k: int| Raw { chunk_id: 0, index: (start + k) as usize },
        ));
    }
}

/// How many places the first `upto` visits of `made` yield.
pub open spec fn places_before(made: Seq<Made>, upto: int) -> int {
    places_of(made.take(upto)).len() as int
}

/// The places of visit `i` stand together in what the visits yield, in the
/// order of the visit, behind the places of the visits before it.
pub proof fn lemma_places_of_visit(made: Seq<Made>, i: int, k: int)
    requires
        0 <= i < made.len(),
        0 <= k < made[i].places().len(),
    ensures
        places_before(made, i) + k < places_of(made).len(),
        places_of(made)[places_before(made, i) + k] == made[i].places()[k],
    decreases made.len(),
{
    let rest = made.drop_last();
    if i == made.len() - 1 {
        assert(made.take(i) == rest);
    } else {
        lemma_places_of_visit(rest, i, k);
        assert(rest.take(i) == made.take(i));
        assert(rest[i] == made[i]);
    }
}

/// Every place that the visits yield is a place of one of them.
pub proof fn lemma_visit_of_place(made: Seq<Made>, at: int) -> (i: int)
    requires
        0 <= at < places_of(made).len(),
    ensures
        0 <= i < made.len(),
        places_before(made, i) <= at < places_before(made, i) + made[i].places().len(),
        places_of(made)[at] == made[i].places()[at - places_before(made, i)],
    decreases made.len(),
{
    let rest = made.drop_last();
    if at < places_of(rest).len() {
        let i = lemma_visit_of_place(rest, at);
        assert(rest.take(i) == made.take(i));
        assert(rest[i] == made[i]);
        i
    } else {
        assert(made.take(made.len() - 1) == rest);
        made.len() - 1
    }
}

/// Within a stripe the places come in index order and without a gap: of two
/// places of one stripe that a cursor has yielded, the later stands as far
/// behind the earlier in the stripe as in what was yielded, and every place
/// yielded between the two is of that stripe too. This holds of a cursor
/// that is done and has not given up.
pub proof fn lemma_stripe_walked_in_order<'a, T, const N: usize>(
    cursor: RawCandyCaneIterStreaming<'a, T, N>,
    earlier: int,
    later: int,
)
    requires
        cursor.visits_each_once(),
        cursor.is_done(),
        !cursor.gave_up(),
        0 <= earlier < later < cursor.yielded().len(),
        cursor.yielded()[earlier].chunk_id == cursor.yielded()[later].chunk_id,
    ensures
        cursor.yielded()[later].index == cursor.yielded()[earlier].index + (later - earlier),
        forall|between: int|
            earlier <= between <= later ==> (#[trigger] cursor.yielded()[between]).chunk_id
                == cursor.yielded()[earlier].chunk_id,
{
    let made = cursor.made();
    lemma_done_cursor_made_its_plan(cursor);
    let i = lemma_visit_of_place(made, earlier);
    let j = lemma_visit_of_place(made, later);
    assert(made[i].visit.chunk_id == made[j].visit.chunk_id);
    assert(i == j);
    let first = places_before(made, i);
    assert forall|between: int| earlier <= between <= later implies (
    #[trigger] cursor.yielded()[between]).chunk_id == cursor.yielded()[earlier].chunk_id by {
        lemma_places_of_visit(made, i, between - first);
    }
}

/// A cursor made for an empty range is done from the start, and so is every
/// cursor made over an empty container: it yields nothing.
pub proof fn lemma_empty_range_cursor_is_done<'a, T, const N: usize>(
    cursor: RawCandyCaneIterStreaming<'a, T, N>,
    start: RangeBound,
    end: RangeBound,
)
    requires
        cursor.is_fresh_over(start, end),
        cursor.range_start() == cursor.range_end() || cursor.seen_len() == 0,
    ensures
        cursor.is_done(),
        cursor.yielded().len() == 0,
{
}

} // verus!
