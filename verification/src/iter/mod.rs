//! What a cursor has to traverse: the range it was asked for, cut along the
//! stripe boundaries into one visit per stripe.

use vstd::prelude::*;
use crate::layout::slice_index_of;

pub mod coverage;
pub mod streaming;

verus! {

/// One end of a range of element indices.
#[derive(Copy, Clone, Debug, PartialEq, Eq, Structural)]
pub enum RangeBound {
    /// The index itself belongs to the range.
    Included(usize),
    /// The index itself does not belong to the range.
    Excluded(usize),
    /// No bound: the range reaches to this end of the buffer.
    Unbounded,
}

/// The part of one stripe that a cursor traverses, in indices relative to the
/// start of the stripe.
#[derive(Copy, Clone, Debug, PartialEq, Eq, Structural)]
pub enum ChunkVisitRange {
    /// The whole stripe.
    All,
    /// `..end`
    First { end: usize },
    /// `start..`
    Last { start: usize },
    /// `start..end`
    Inside(usize, usize),
}

/// A stripe that a cursor has yet to traverse, and the part of it to traverse.
#[derive(Copy, Clone, Debug, PartialEq, Eq, Structural)]
pub struct ChunkVisit {
    pub chunk_id: usize,
    pub range: ChunkVisitRange,
}

/// First index of the half-open range that starts at `bound`.
pub open spec fn start_of(bound: RangeBound) -> int {
    match bound {
        RangeBound::Included(s) => s as int,
        RangeBound::Excluded(s) => s + 1,
        RangeBound::Unbounded => 0,
    }
}

/// Index one past the last of the half-open range that ends at `bound`, in a
/// buffer of `len` elements.
pub open spec fn end_of(bound: RangeBound, len: int) -> int {
    match bound {
        RangeBound::Included(e) => e + 1,
        RangeBound::Excluded(e) => e as int,
        RangeBound::Unbounded => len,
    }
}

/// Turns two bounds into the half-open range `[s, e)` they denote in a buffer
/// of `len` elements. `None` when they denote no range inside the buffer:
/// when `s > e` or `e > len`.
pub fn resolve_bounds(start: RangeBound, end: RangeBound, len: usize) -> (res: Option<
    (usize, usize),
>)
    ensures
        res is Some <==> start_of(start) <= end_of(end, len as int) <= len,
        res matches Some((s, e)) ==> s == start_of(start) && e == end_of(end, len as int),
{
    let s: usize = match start {
        RangeBound::Included(s) => s,
        RangeBound::Excluded(s) => {
            if s >= len {
                return None;
            }
            s + 1
        },
        RangeBound::Unbounded => 0,
    };
    let e: usize = match end {
        RangeBound::Included(e) => {
            if e >= len {
                return None;
            }
            e + 1
        },
        RangeBound::Excluded(e) => e,
        RangeBound::Unbounded => len,
    };
    if s <= e && e <= len {
        Some((s, e))
    } else {
        None
    }
}

/// The stripe in which `index` is looked up: see [`slice_index_of`]. It is
/// always one of the stripes; with the number per stripe of a buffer and an
/// index inside the buffer, it is the stripe that holds the index.
pub fn calc_slice_index(per_slice: usize, slices: usize, index: usize) -> (k: usize)
    requires
        slices >= 1,
    ensures
        k == slice_index_of(per_slice as int, slices as int, index as int),
        k < slices,
{
    if per_slice == 0 || index / per_slice >= slices {
        slices - 1
    } else {
        index / per_slice
    }
}

/// The first stripe that a cursor over `[start, end)` visits: the one in
/// which `start` is looked up.
pub open spec fn first_slice_of(start: int, per_slice: int, slices: int) -> int {
    slice_index_of(per_slice, slices, start)
}

/// The last stripe that a cursor over `[start, end)` visits: the one in
/// which `end` is looked up.
pub open spec fn last_slice_of(end: int, per_slice: int, slices: int) -> int {
    slice_index_of(per_slice, slices, end)
}

/// The part of stripe `k` that a cursor over `[start, end)` traverses.
pub open spec fn range_at(start: int, end: int, per_slice: int, slices: int, k: int)
    -> ChunkVisitRange {
    let first = first_slice_of(start, per_slice, slices);
    let last = last_slice_of(end, per_slice, slices);
    if k == first && k == last {
        ChunkVisitRange::Inside((start - k * per_slice) as usize, (end - k * per_slice) as usize)
    } else if k == first {
        ChunkVisitRange::Last { start: (start - k * per_slice) as usize }
    } else if k == last {
        ChunkVisitRange::First { end: (end - k * per_slice) as usize }
    } else {
        ChunkVisitRange::All
    }
}

/// The parts to traverse of the stripes from the first to the last that a
/// cursor over `[start, end)` visits, in stripe order.
pub open spec fn ranges_of(start: int, end: int, per_slice: int, slices: int) -> Seq<
    ChunkVisitRange,
> {
    let first = first_slice_of(start, per_slice, slices);
    let last = last_slice_of(end, per_slice, slices);
    if first > last {
        Seq::empty()
    } else {
        Seq::new(
            (last - first + 1) as nat,
            |j: int| range_at(start, end, per_slice, slices, first + j),
        )
    }
}

/// The visits that a cursor over `[start, end)` has to make, in stripe
/// order: none for an empty range, else one for each stripe from the first
/// to the last.
pub open spec fn visits_of(start: int, end: int, per_slice: int, slices: int) -> Seq<ChunkVisit> {
    if start == end {
        Seq::empty()
    } else {
        let first = first_slice_of(start, per_slice, slices);
        let ranges = ranges_of(start, end, per_slice, slices);
        Seq::new(
            ranges.len(),
            |j: int| ChunkVisit { chunk_id: (first + j) as usize, range: ranges[j] },
        )
    }
}

impl ChunkVisitRange {
    /// Where the part starts, relative to the stripe.
    pub open spec fn lower(self) -> int {
        match self {
            ChunkVisitRange::All => 0,
            ChunkVisitRange::First { end } => 0,
            ChunkVisitRange::Last { start } => start as int,
            ChunkVisitRange::Inside(start, end) => start as int,
        }
    }

    /// Where the part ends, relative to a stripe of `length` elements.
    pub open spec fn upper(self, length: int) -> int {
        match self {
            ChunkVisitRange::All => length,
            ChunkVisitRange::First { end } => end as int,
            ChunkVisitRange::Last { start } => length,
            ChunkVisitRange::Inside(start, end) => end as int,
        }
    }

    /// Whether the part lies inside a stripe of `length` elements.
    pub open spec fn fits(self, length: int) -> bool {
        self.lower() <= self.upper(length) <= length
    }

    /// The part as a half-open range of indices into a stripe of `length`
    /// elements: what of `[lower, upper)` the stripe holds.
    pub open spec fn span(self, length: int) -> (int, int) {
        let hi = if self.upper(length) <= length {
            self.upper(length)
        } else {
            length
        };
        let lo = if self.lower() <= hi {
            self.lower()
        } else {
            hi
        };
        (lo, hi)
    }

    /// The part as a half-open range of indices into a stripe of `length`
    /// elements: see [`ChunkVisitRange::span`].
    pub fn bounds(&self, length: usize) -> (res: (usize, usize))
        ensures
            (res.0 as int, res.1 as int) == self.span(length as int),
            res.0 <= res.1 <= length,
            self.fits(length as int) ==> res.0 == self.lower() && res.1 == self.upper(
                length as int,
            ),
    {
        let (lower, upper) = match *self {
            ChunkVisitRange::All => (0, length),
            ChunkVisitRange::First { end } => (0, end),
            ChunkVisitRange::Last { start } => (start, length),
            ChunkVisitRange::Inside(start, end) => (start, end),
        };
        let hi: usize = if upper <= length {
            upper
        } else {
            length
        };
        let lo: usize = if lower <= hi {
            lower
        } else {
            hi
        };
        (lo, hi)
    }

    /// The elements of this part of the stripe that starts at `start` in
    /// `slice` and holds `length` elements.
    pub fn slice<'a, T>(&self, start: usize, length: usize, slice: &'a [T]) -> (res: &'a [T])
        requires
            start + length <= slice@.len(),
            self.fits(length as int),
        ensures
            res@ == slice@.subrange(start + self.lower(), start + self.upper(length as int)),
    {
        let total: usize = slice.len();
        assert(start + length <= total);
        let (lo, hi) = self.bounds(length);
        &slice[start + lo..start + hi]
    }
}

impl ChunkVisit {
    /// The parts to traverse of the stripes that a cursor over
    /// `[start, end)` visits, in stripe order, and the first of these
    /// stripes.
    pub fn create_range(start: usize, end: usize, per_slice: usize, slices: usize) -> (res: (
        Vec<ChunkVisitRange>,
        usize,
    ))
        requires
            slices >= 1,
            start <= end,
        ensures
            res.0@ == ranges_of(start as int, end as int, per_slice as int, slices as int),
            res.1 == first_slice_of(start as int, per_slice as int, slices as int),
    {
        let start_slice = calc_slice_index(per_slice, slices, start);
        let end_slice = calc_slice_index(per_slice, slices, end);
        let ghost want = ranges_of(start as int, end as int, per_slice as int, slices as int);
        let mut ranges: Vec<ChunkVisitRange> = Vec::new();
        proof {
            lemma_slice_index_bounds(per_slice as int, slices as int, start as int);
            lemma_slice_index_bounds(per_slice as int, slices as int, end as int);
            lemma_slice_index_monotone(per_slice as int, slices as int, start as int, end as int);
        }
        if start_slice == end_slice {
            let at = start_slice * per_slice;
            ranges.push(ChunkVisitRange::Inside(start - at, end - at));
            assert(ranges@ =~= want);
            return (ranges, start_slice);
        }
        let mut slice_index: usize = start_slice;
        while slice_index <= end_slice
            invariant
                start_slice < end_slice < slices,
                start_slice <= slice_index <= end_slice + 1,
                per_slice > 0,
                start_slice == first_slice_of(start as int, per_slice as int, slices as int),
                end_slice == last_slice_of(end as int, per_slice as int, slices as int),
                start_slice * per_slice <= start,
                end_slice * per_slice <= end,
                want == ranges_of(start as int, end as int, per_slice as int, slices as int),
                ranges@.len() == slice_index - start_slice,
                forall|j: int| 0 <= j < ranges@.len() ==> ranges@[j] == want[j],
            decreases end_slice + 1 - slice_index,
        {
            let range = if slice_index == start_slice {
                ChunkVisitRange::Last { start: start - slice_index * per_slice }
            } else if slice_index == end_slice {
                ChunkVisitRange::First { end: end - slice_index * per_slice }
            } else {
                ChunkVisitRange::All
            };
            ranges.push(range);
            slice_index = slice_index + 1;
        }
        assert(ranges@ =~= want);
        (ranges, start_slice)
    }

    /// The visits that a cursor over `[start, end)` has to make, in stripe
    /// order: none for an empty range.
    pub fn plan(start: usize, end: usize, per_slice: usize, slices: usize) -> (res: Vec<
        ChunkVisit,
    >)
        requires
            slices >= 1,
            start <= end,
        ensures
            res@ == visits_of(start as int, end as int, per_slice as int, slices as int),
            forall|j: int| 0 <= j < res@.len() ==> (#[trigger] res@[j]).chunk_id < slices,
            forall|i: int, j: int|
                0 <= i < j < res@.len() ==> (#[trigger] res@[i]).chunk_id < (
                #[trigger] res@[j]).chunk_id,
    {
        let mut visits: Vec<ChunkVisit> = Vec::new();
        if start == end {
            return visits;
        }
        let (ranges, start_slice) = ChunkVisit::create_range(start, end, per_slice, slices);
        let ghost want = visits_of(start as int, end as int, per_slice as int, slices as int);
        let mut j: usize = 0;
        while j < ranges.len()
            invariant
                0 <= j <= ranges@.len(),
                ranges@ == ranges_of(start as int, end as int, per_slice as int, slices as int),
                start_slice == first_slice_of(start as int, per_slice as int, slices as int),
                want == visits_of(start as int, end as int, per_slice as int, slices as int),
                start != end,
                slices >= 1,
                visits@.len() == j,
                forall|i: int| 0 <= i < j ==> visits@[i] == want[i],
                forall|i: int| 0 <= i < j ==> (#[trigger] visits@[i]).chunk_id == start_slice + i,
            decreases ranges@.len() - j,
        {
            visits.push(ChunkVisit { chunk_id: start_slice + j, range: ranges[j] });
            j = j + 1;
        }
        assert(visits@ =~= want);
        visits
    }
}

/// The stripe in which an index is looked up is one of the stripes, starts
/// at or before the index, and, unless it is the last, ends behind it.
pub proof fn lemma_slice_index_bounds(per_slice: int, slices: int, index: int)
    requires
        0 <= per_slice,
        0 <= index,
        1 <= slices,
    ensures
        0 <= slice_index_of(per_slice, slices, index) <= slices - 1,
        slice_index_of(per_slice, slices, index) * per_slice <= index,
        slice_index_of(per_slice, slices, index) < slices - 1 ==> index < slice_index_of(
            per_slice,
            slices,
            index,
        ) * per_slice + per_slice,
{
    let k = slice_index_of(per_slice, slices, index);
    if per_slice > 0 {
        let q = index / per_slice;
        vstd::arithmetic::div_mod::lemma_fundamental_div_mod(index, per_slice);
        assert(q * per_slice == per_slice * q) by (nonlinear_arith);
        assert(0 <= q) by (nonlinear_arith)
            requires
                q == index / per_slice,
                0 <= index,
                0 < per_slice,
        ;
        if q >= slices {
            assert(k * per_slice <= q * per_slice) by (nonlinear_arith)
                requires
                    k <= q,
                    0 < per_slice,
            ;
        }
    } else {
        assert(k * per_slice == 0) by (nonlinear_arith)
            requires
                per_slice == 0,
        ;
    }
}

/// Of two indices, the later is looked up in the same stripe or a later one.
pub proof fn lemma_slice_index_monotone(per_slice: int, slices: int, one: int, other: int)
    requires
        0 <= per_slice,
        0 <= one <= other,
        1 <= slices,
    ensures
        slice_index_of(per_slice, slices, one) <= slice_index_of(per_slice, slices, other),
{
    lemma_slice_index_bounds(per_slice, slices, one);
    lemma_slice_index_bounds(per_slice, slices, other);
    if per_slice > 0 {
        assert(one / per_slice <= other / per_slice) by (nonlinear_arith)
            requires
                0 <= one <= other,
                per_slice > 0,
        ;
    }
}

} // verus!
