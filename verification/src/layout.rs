//! Stripe geometry: how a buffer of `len` elements is cut into a fixed number
//! of contiguous stripes, and how the stripes are put back together.
//!
//! Every stripe but the last holds `len / slices` elements; the last one also
//! takes the `len % slices` elements that are left over.

use vstd::prelude::*;
use vstd::arithmetic::div_mod::lemma_fundamental_div_mod;

verus! {

/// Number of elements that every stripe holds at least.
pub open spec fn per_slice_of(len: int, slices: int) -> int {
    len / slices
}

/// Index of the first element of stripe `k`.
pub open spec fn slice_start_of(len: int, slices: int, k: int) -> int {
    k * (len / slices)
}

/// Number of elements of stripe `k`.
pub open spec fn slice_len_of(len: int, slices: int, k: int) -> int {
    if k == slices - 1 {
        len / slices + len % slices
    } else {
        len / slices
    }
}

/// Index one past the last element of stripe `k`.
pub open spec fn slice_end_of(len: int, slices: int, k: int) -> int {
    slice_start_of(len, slices, k) + slice_len_of(len, slices, k)
}

/// Whether element `index` lies in stripe `k`.
pub open spec fn slice_holds(len: int, slices: int, k: int, index: int) -> bool {
    slice_start_of(len, slices, k) <= index < slice_end_of(len, slices, k)
}

/// The stripe in which `index` is looked up, given the number of elements
/// that every stripe holds at least: `index / per_slice`, but the last
/// stripe for whatever lies beyond it, and for every index when `per_slice`
/// is 0.
pub open spec fn slice_index_of(per_slice: int, slices: int, index: int) -> int {
    if per_slice == 0 || index / per_slice >= slices {
        slices - 1
    } else {
        index / per_slice
    }
}

/// The stripe that owns element `index` of a buffer of `len` elements.
pub open spec fn owner_of(len: int, slices: int, index: int) -> int {
    slice_index_of(len / slices, slices, index)
}

/// The contents of each stripe of `data`, in stripe order.
pub open spec fn stripes_of<T>(data: Seq<T>, slices: int) -> Seq<Seq<T>> {
    Seq::new(
        slices as nat,
        |k: int|
            data.subrange(
                slice_start_of(data.len() as int, slices, k),
                slice_end_of(data.len() as int, slices, k),
            ),
    )
}

/// One stripe of the buffer: where it starts in the whole, and its elements.
/// Its length is the number of elements it holds.
pub struct Chunk<T> {
    pub start: usize,
    pub items: Vec<T>,
}

impl<T> Chunk<T> {
    /// Number of elements in the stripe.
    pub open spec fn spec_length(&self) -> nat {
        self.items@.len()
    }

    /// Number of elements in the stripe.
    pub fn length(&self) -> (n: usize)
        ensures
            n == self.spec_length(),
    {
        self.items.len()
    }
}

/// Number of elements of stripe `k` of a buffer of `len` elements.
pub fn slice_len(len: usize, slices: usize, k: usize) -> (length: usize)
    requires
        slices >= 1,
        k < slices,
    ensures
        length == slice_len_of(len as int, slices as int, k as int),
        length <= len,
{
    proof {
        lemma_stripes_contiguous(len as int, slices as int, k as int);
    }
    let per_slice = len / slices;
    if k == slices - 1 {
        per_slice + len % slices
    } else {
        per_slice
    }
}

/// The elements of each chunk, in order.
pub open spec fn items_of<T>(chunks: Seq<Chunk<T>>) -> Seq<Seq<T>> {
    Seq::new(chunks.len(), |k: int| chunks[k].items@)
}

/// The stripes are laid end to end: each starts inside the buffer, the first
/// at 0, each next one where the one before ends, and the last ends at `len`.
pub proof fn lemma_stripes_contiguous(len: int, slices: int, k: int)
    requires
        0 <= len,
        1 <= slices,
        0 <= k < slices,
    ensures
        0 <= slice_start_of(len, slices, k) <= slice_end_of(len, slices, k) <= len,
        slice_start_of(len, slices, 0) == 0,
        k + 1 < slices ==> slice_end_of(len, slices, k) == slice_start_of(len, slices, k + 1),
        k == slices - 1 ==> slice_end_of(len, slices, k) == len,
        slice_len_of(len, slices, k) == len / slices + (if k == slices - 1 {
            len % slices
        } else {
            0
        }),
{
    let base = len / slices;
    lemma_fundamental_div_mod(len, slices);
    assert(len == slices * base + len % slices);
    assert(0 <= base) by (nonlinear_arith)
        requires
            0 <= len,
            1 <= slices,
            base == len / slices,
    ;
    assert(0 <= k * base) by (nonlinear_arith)
        requires
            0 <= k,
            0 <= base,
    ;
    assert((k + 1) * base == k * base + base) by (nonlinear_arith);
    assert(k * base + base <= slices * base) by (nonlinear_arith)
        requires
            k + 1 <= slices,
            0 <= base,
    ;
    assert(slices * base == (slices - 1) * base + base) by (nonlinear_arith);
}

/// Every element belongs to exactly one stripe: the stripes cover `[0, len)`
/// and no two of them overlap.
pub proof fn lemma_stripes_partition(len: int, slices: int, index: int)
    requires
        1 <= slices,
        0 <= index < len,
    ensures
        0 <= owner_of(len, slices, index) < slices,
        slice_holds(len, slices, owner_of(len, slices, index), index),
        forall|k: int|
            0 <= k < slices && #[trigger] slice_holds(len, slices, k, index) ==> k == owner_of(
                len,
                slices,
                index,
            ),
{
    let base = len / slices;
    let own = owner_of(len, slices, index);
    lemma_fundamental_div_mod(len, slices);
    assert(0 <= base) by (nonlinear_arith)
        requires
            0 <= len,
            1 <= slices,
            base == len / slices,
    ;
    lemma_stripes_contiguous(len, slices, slices - 1);
    if base > 0 {
        lemma_fundamental_div_mod(index, base);
        assert(0 <= index / base) by (nonlinear_arith)
            requires
                0 <= index,
                0 < base,
        ;
        if index / base < slices {
            lemma_stripes_contiguous(len, slices, own);
            assert(own * base == base * own) by (nonlinear_arith);
            assert(own * base <= index < own * base + base);
        } else {
            assert((slices - 1) * base <= index) by (nonlinear_arith)
                requires
                    index / base >= slices,
                    index == base * (index / base) + index % base,
                    0 <= index % base,
                    0 < base,
            ;
        }
    } else {
        assert((slices - 1) * base == 0) by (nonlinear_arith)
            requires
                base == 0,
        ;
    }
    assert forall|k: int|
        0 <= k < slices && #[trigger] slice_holds(len, slices, k, index) implies k == own by {
        lemma_stripes_contiguous(len, slices, k);
        if k < own {
            assert((k + 1) * base <= own * base) by (nonlinear_arith)
                requires
                    k + 1 <= own,
                    0 <= base,
            ;
            assert((k + 1) * base == k * base + base) by (nonlinear_arith);
        } else if k > own {
            assert((own + 1) * base <= k * base) by (nonlinear_arith)
                requires
                    own + 1 <= k,
                    0 <= base,
            ;
            assert((own + 1) * base == own * base + base) by (nonlinear_arith);
        }
    }
}

/// Cutting a buffer into stripes and laying the stripes end to end gives the
/// buffer back.
pub proof fn lemma_stripes_flatten<T>(data: Seq<T>, slices: int)
    requires
        1 <= slices,
    ensures
        stripes_of(data, slices).len() == slices,
        stripes_of(data, slices).flatten() == data,
{
    let len = data.len() as int;
    let all = stripes_of(data, slices);
    all.lemma_flatten_and_flatten_alt_are_equivalent();
    lemma_flatten_prefix(data, slices, slices);
    lemma_stripes_contiguous(len, slices, slices - 1);
    assert(all.take(slices) == all);
    assert(data.subrange(0, len) == data);
}

/// The first `upto` stripes, laid end to end, are the buffer up to where
/// stripe `upto` starts.
proof fn lemma_flatten_prefix<T>(data: Seq<T>, slices: int, upto: int)
    requires
        1 <= slices,
        0 <= upto <= slices,
    ensures
        stripes_of(data, slices).take(upto).flatten_alt() == data.subrange(
            0,
            if upto == slices {
                data.len() as int
            } else {
                slice_start_of(data.len() as int, slices, upto)
            },
        ),
    decreases upto,
{
    let len = data.len() as int;
    let all = stripes_of(data, slices);
    let head = all.take(upto);
    if upto == 0 {
        lemma_stripes_contiguous(len, slices, 0);
        assert(head.flatten_alt() == Seq::<T>::empty());
        assert(data.subrange(0, 0) == Seq::<T>::empty());
    } else {
        lemma_flatten_prefix(data, slices, upto - 1);
        lemma_stripes_contiguous(len, slices, upto - 1);
        assert(head.drop_last() == all.take(upto - 1));
        assert(head.last() == data.subrange(
            slice_start_of(len, slices, upto - 1),
            slice_end_of(len, slices, upto - 1),
        ));
        let mid = slice_start_of(len, slices, upto - 1);
        let end = slice_end_of(len, slices, upto - 1);
        assert(data.subrange(0, mid) + data.subrange(mid, end) == data.subrange(0, end));
    }
}

/// Cuts `data` into `slices` stripes. Returns the stripes in order, each with
/// its start, and the number of elements that every stripe holds at least.
pub fn create_slices<T>(data: Vec<T>, slices: usize) -> (res: (Vec<Chunk<T>>, usize))
    requires
        slices >= 1,
    ensures
        res.1 == per_slice_of(data@.len() as int, slices as int),
        res.0@.len() == slices,
        forall|k: int|
            0 <= k < slices ==> (#[trigger] res.0@[k]).start == slice_start_of(
                data@.len() as int,
                slices as int,
                k,
            ),
        forall|k: int|
            0 <= k < slices ==> (#[trigger] res.0@[k]).spec_length() == slice_len_of(
                data@.len() as int,
                slices as int,
                k,
            ),
        items_of(res.0@) == stripes_of(data@, slices as int),
{
    let len = data.len();
    let per_slice = len / slices;
    let ghost whole = data@;
    let mut rest = data;
    let mut backwards: Vec<Chunk<T>> = Vec::new();
    let mut k: usize = slices;
    while k > 0
        invariant
            slices >= 1,
            0 <= k <= slices,
            len == whole.len(),
            per_slice == len as int / slices as int,
            backwards@.len() == slices - k,
            rest@ == whole.subrange(
                0,
                if k == slices {
                    len as int
                } else {
                    slice_start_of(len as int, slices as int, k as int)
                },
            ),
            forall|j: int|
                0 <= j < backwards@.len() ==> (#[trigger] backwards@[j]).start == slice_start_of(
                    len as int,
                    slices as int,
                    slices - 1 - j,
                ),
            forall|j: int|
                0 <= j < backwards@.len() ==> (#[trigger] backwards@[j]).items@ == whole.subrange(
                    slice_start_of(len as int, slices as int, slices - 1 - j),
                    slice_end_of(len as int, slices as int, slices - 1 - j),
                ),
        decreases k,
    {
        k = k - 1;
        proof {
            lemma_stripes_contiguous(len as int, slices as int, k as int);
        }
        let start = k * per_slice;
        let items = rest.split_off(start);
        backwards.push(Chunk { start, items });
    }
    let mut chunks: Vec<Chunk<T>> = Vec::new();
    while backwards.len() > 0
        invariant
            slices >= 1,
            len == whole.len(),
            chunks@.len() + backwards@.len() == slices,
            forall|j: int|
                0 <= j < backwards@.len() ==> (#[trigger] backwards@[j]).start == slice_start_of(
                    len as int,
                    slices as int,
                    slices - 1 - j,
                ),
            forall|j: int|
                0 <= j < backwards@.len() ==> (#[trigger] backwards@[j]).items@ == whole.subrange(
                    slice_start_of(len as int, slices as int, slices - 1 - j),
                    slice_end_of(len as int, slices as int, slices - 1 - j),
                ),
            forall|j: int|
                0 <= j < chunks@.len() ==> (#[trigger] chunks@[j]).start == slice_start_of(
                    len as int,
                    slices as int,
                    j,
                ),
            forall|j: int|
                0 <= j < chunks@.len() ==> (#[trigger] chunks@[j]).items@ == whole.subrange(
                    slice_start_of(len as int, slices as int, j),
                    slice_end_of(len as int, slices as int, j),
                ),
        decreases backwards@.len(),
    {
        let next = backwards.pop();
        match next {
            Some(chunk) => chunks.push(chunk),
            None => {},
        }
    }
    proof {
        assert forall|j: int| 0 <= j < slices implies (#[trigger] chunks@[j]).spec_length()
            == slice_len_of(len as int, slices as int, j) by {
            lemma_stripes_contiguous(len as int, slices as int, j);
        }
        assert(items_of(chunks@) =~= stripes_of(whole, slices as int));
    }
    (chunks, per_slice)
}

/// Lays the chunks end to end, in order, into one buffer.
pub fn gather<T>(chunks: Vec<Chunk<T>>) -> (data: Vec<T>)
    ensures
        data@ == items_of(chunks@).flatten(),
{
    let ghost parts = items_of(chunks@);
    let mut rest = chunks;
    let mut backwards: Vec<Vec<T>> = Vec::new();
    while rest.len() > 0
        invariant
            rest@.len() + backwards@.len() == parts.len(),
            forall|j: int| 0 <= j < rest@.len() ==> (#[trigger] rest@[j]).items@ == parts[j],
            forall|j: int|
                0 <= j < backwards@.len() ==> (#[trigger] backwards@[j])@ == parts[parts.len() - 1
                    - j],
        decreases rest@.len(),
    {
        let next = rest.pop();
        match next {
            Some(chunk) => backwards.push(chunk.items),
            None => {},
        }
    }
    let mut data: Vec<T> = Vec::new();
    let ghost mut done: int = 0;
    proof {
        assert(parts.take(0).flatten_alt() == Seq::<T>::empty());
    }
    while backwards.len() > 0
        invariant
            0 <= done <= parts.len(),
            backwards@.len() == parts.len() - done,
            forall|j: int|
                0 <= j < backwards@.len() ==> (#[trigger] backwards@[j])@ == parts[parts.len() - 1
                    - j],
            data@ == parts.take(done).flatten_alt(),
        decreases backwards@.len(),
    {
        let next = backwards.pop();
        match next {
            Some(mut items) => {
                proof {
                    assert(items@ == parts[done]);
                    assert(parts.take(done + 1).drop_last() == parts.take(done));
                    assert(parts.take(done + 1).last() == parts[done]);
                }
                data.append(&mut items);
                proof {
                    done = done + 1;
                }
            },
            None => {},
        }
    }
    proof {
        assert(parts.take(parts.len() as int) == parts);
        parts.lemma_flatten_and_flatten_alt_are_equivalent();
    }
    data
}

/// Cutting a buffer into stripes and gathering them gives the buffer back.
pub proof fn lemma_gather_create_slices<T>(data: Seq<T>, slices: int, chunks: Seq<Chunk<T>>)
    requires
        1 <= slices,
        items_of(chunks) == stripes_of(data, slices),
    ensures
        items_of(chunks).flatten() == data,
{
    lemma_stripes_flatten(data, slices);
}

/// Gathering the stripes of a buffer and cutting the result again gives the
/// same number per stripe, the same starts and lengths, and the same contents.
pub proof fn lemma_rebuild_unchanged<T>(data: Seq<T>, slices: int)
    requires
        1 <= slices,
    ensures
        stripes_of(data, slices).flatten().len() == data.len(),
        per_slice_of(stripes_of(data, slices).flatten().len() as int, slices) == per_slice_of(
            data.len() as int,
            slices,
        ),
        forall|k: int|
            0 <= k < slices ==> slice_start_of(
                stripes_of(data, slices).flatten().len() as int,
                slices,
                k,
            ) == slice_start_of(data.len() as int, slices, k) && slice_len_of(
                stripes_of(data, slices).flatten().len() as int,
                slices,
                k,
            ) == slice_len_of(data.len() as int, slices, k),
        stripes_of(stripes_of(data, slices).flatten(), slices) == stripes_of(data, slices),
{
    lemma_stripes_flatten(data, slices);
}

} // verus!
