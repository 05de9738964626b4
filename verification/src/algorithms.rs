//! The five sorting routines and their helpers. Every routine mutates its
//! vector in place and promises the same two things: the result is sorted,
//! and it holds exactly the elements the input held (as a multiset).

use crate::specs::{merge_spec, min_int, sorted, sorted_between};
use vstd::prelude::*;

verus! {

/// Exchange the elements at positions `i` and `j`, leaving every other
/// position untouched and the multiset of elements unchanged.
fn swap_elems(arr: &mut Vec<i32>, i: usize, j: usize)
    requires
        i < old(arr).len(),
        j < old(arr).len(),
    ensures
        final(arr)@.len() == old(arr)@.len(),
        final(arr)@[i as int] == old(arr)@[j as int],
        final(arr)@[j as int] == old(arr)@[i as int],
        forall|k: int|
            0 <= k < final(arr)@.len() && k != i && k != j ==> final(arr)@[k] == old(arr)@[k],
        final(arr)@.to_multiset() == old(arr)@.to_multiset(),
{
    let a = arr[i];
    let b = arr[j];
    arr.set(i, b);
    arr.set(j, a);
    proof {
        crate::specs::lemma_two_point_exchange_multiset(old(arr)@, arr@, i as int, j as int, 0, arr@.len() as int);
        assert(arr@.subrange(0, arr@.len() as int) =~= arr@);
        assert(old(arr)@.subrange(0, old(arr)@.len() as int) =~= old(arr)@);
    }
}

/// Selection sort: for each position, find the leftmost minimum of the
/// unsorted tail and exchange it into place.
pub fn selection_sort(arr: &mut Vec<i32>)
    ensures
        sorted(final(arr)@),
        final(arr)@.to_multiset() == old(arr)@.to_multiset(),
{
    let n = arr.len();
    let mut i: usize = 0;
    while n - i > 1
        invariant
            i <= n,
            n == arr@.len(),
            arr@.to_multiset() == old(arr)@.to_multiset(),
            sorted_between(arr@, 0, i as int),
            forall|k: int, l: int|
                0 <= k < i && i <= l < n ==> #[trigger] arr@[k] <= #[trigger] arr@[l],
        decreases n - i,
    {
        let mut min_idx = i;
        let mut j = i + 1;
        while j < n
            invariant
                i <= min_idx < j <= n,
                n == arr@.len(),
                forall|k: int| i <= k < j ==> arr@[min_idx as int] <= #[trigger] arr@[k],
            decreases n - j,
        {
            if arr[j] < arr[min_idx] {
                min_idx = j;
            }
            j += 1;
        }
        swap_elems(arr, i, min_idx);
        i += 1;
    }
}

/// Bubble sort: repeated adjacent-exchange passes over a shrinking prefix,
/// stopping early as soon as a full pass performs no exchange.
pub fn bubble_sort(arr: &mut Vec<i32>)
    ensures
        sorted(final(arr)@),
        final(arr)@.to_multiset() == old(arr)@.to_multiset(),
{
    let n = arr.len();
    let mut end = n;
    while end > 1
        invariant
            end <= n,
            n == arr@.len(),
            arr@.to_multiset() == old(arr)@.to_multiset(),
            sorted_between(arr@, end as int, n as int),
            forall|k: int, l: int|
                0 <= k < end && end <= l < n ==> #[trigger] arr@[k] <= #[trigger] arr@[l],
        ensures
            n == arr@.len(),
            arr@.to_multiset() == old(arr)@.to_multiset(),
            sorted(arr@),
        decreases end,
    {
        let mut swapped = false;
        let mut i: usize = 1;
        while i < end
            invariant
                1 <= i <= end <= n,
                n == arr@.len(),
                arr@.to_multiset() == old(arr)@.to_multiset(),
                sorted_between(arr@, end as int, n as int),
                forall|k: int, l: int|
                    0 <= k < end && end <= l < n ==> #[trigger] arr@[k] <= #[trigger] arr@[l],
                forall|k: int| 0 <= k < i ==> #[trigger] arr@[k] <= arr@[i - 1],
                !swapped ==> sorted_between(arr@, 0, i as int),
            decreases end - i,
        {
            if arr[i - 1] > arr[i] {
                swap_elems(arr, i - 1, i);
                swapped = true;
            }
            i += 1;
        }
        if !swapped {
            // A full pass without an exchange: the scanned prefix is sorted,
            // and it sits entirely below the already-sorted suffix.
            break;
        }
        end -= 1;
    }
}

/// Insertion sort: walk each element backwards through the sorted prefix by
/// adjacent exchanges until its predecessor is no longer greater.
pub fn insertion_sort(arr: &mut Vec<i32>)
    ensures
        sorted(final(arr)@),
        final(arr)@.to_multiset() == old(arr)@.to_multiset(),
{
    let n = arr.len();
    if n == 0 {
        return ;
    }
    let mut i: usize = 1;
    while i < n
        invariant
            1 <= i <= n,
            n == arr@.len(),
            arr@.to_multiset() == old(arr)@.to_multiset(),
            sorted_between(arr@, 0, i as int),
        decreases n - i,
    {
        let mut j = i;
        while j > 0 && arr[j - 1] > arr[j]
            invariant
                j <= i < n,
                n == arr@.len(),
                arr@.to_multiset() == old(arr)@.to_multiset(),
                sorted_between(arr@, 0, j as int),
                sorted_between(arr@, j as int, i as int + 1),
                forall|k: int, l: int|
                    0 <= k < j && j < l <= i ==> #[trigger] arr@[k] <= #[trigger] arr@[l],
            decreases j,
        {
            swap_elems(arr, j - 1, j);
            j -= 1;
        }
        i += 1;
    }
}

/// Lomuto partition step of quick sort: take the element at `upper_bound` as
/// the pivot and rearrange `arr[lower_bound..=upper_bound]` so that everything
/// strictly below the pivot sits left of it and everything else right of it.
/// Returns the pivot's final resting position. Positions outside the range
/// are untouched, and the range keeps its multiset of elements.
pub fn partition(arr: &mut Vec<i32>, lower_bound: usize, upper_bound: usize) -> (p: usize)
    requires
        lower_bound <= upper_bound < old(arr).len(),
    ensures
        lower_bound <= p <= upper_bound,
        final(arr)@.len() == old(arr)@.len(),
        final(arr)@[p as int] == old(arr)@[upper_bound as int],
        forall|k: int|
            0 <= k < final(arr)@.len() && !(lower_bound <= k <= upper_bound) ==> final(arr)@[k]
                == old(arr)@[k],
        final(arr)@.subrange(lower_bound as int, upper_bound as int + 1).to_multiset() == old(
            arr,
        )@.subrange(lower_bound as int, upper_bound as int + 1).to_multiset(),
        forall|k: int| lower_bound <= k < p ==> final(arr)@[k] < final(arr)@[p as int],
        forall|k: int| p < k <= upper_bound ==> final(arr)@[p as int] <= #[trigger] final(arr)@[k],
{
    let pivot = arr[upper_bound];
    let mut boundary = lower_bound;
    let mut i = lower_bound;
    while i < upper_bound
        invariant
            lower_bound <= boundary <= i <= upper_bound < arr@.len(),
            arr@.len() == old(arr)@.len(),
            arr@[upper_bound as int] == pivot,
            forall|k: int| lower_bound <= k < boundary ==> #[trigger] arr@[k] < pivot,
            forall|k: int| boundary <= k < i ==> pivot <= #[trigger] arr@[k],
            forall|k: int|
                0 <= k < arr@.len() && !(lower_bound <= k <= upper_bound) ==> arr@[k] == old(
                    arr,
                )@[k],
            arr@.subrange(lower_bound as int, upper_bound as int + 1).to_multiset() == old(
                arr,
            )@.subrange(lower_bound as int, upper_bound as int + 1).to_multiset(),
        decreases upper_bound - i,
    {
        if arr[i] < pivot {
            let ghost prev = arr@;
            swap_elems(arr, boundary, i);
            proof {
                crate::specs::lemma_two_point_exchange_multiset(
                    prev,
                    arr@,
                    boundary as int,
                    i as int,
                    lower_bound as int,
                    upper_bound as int + 1,
                );
            }
            boundary += 1;
        }
        i += 1;
    }
    let ghost prev = arr@;
    swap_elems(arr, boundary, upper_bound);
    proof {
        crate::specs::lemma_two_point_exchange_multiset(
            prev,
            arr@,
            boundary as int,
            upper_bound as int,
            lower_bound as int,
            upper_bound as int + 1,
        );
    }
    boundary
}

/// Sort the inclusive range `arr[low..=high]` by recursive partition-exchange.
/// A range of at most one element (`low >= high`) is left as it is.
fn quick_sort_range(arr: &mut Vec<i32>, low: usize, high: usize)
    requires
        low <= high + 1,
        low > high || high < old(arr).len(),
    ensures
        final(arr)@.len() == old(arr)@.len(),
        forall|k: int|
            0 <= k < final(arr)@.len() && !(low <= k <= high) ==> final(arr)@[k] == old(arr)@[k],
        final(arr)@.subrange(low as int, high as int + 1).to_multiset() == old(arr)@.subrange(
            low as int,
            high as int + 1,
        ).to_multiset(),
        sorted_between(final(arr)@, low as int, high as int + 1),
    decreases high + 1 - low,
{
    if low >= high {
        return ;
    }
    let ghost orig = arr@;
    let p = partition(arr, low, high);
    let ghost after_part = arr@;
    let ghost piv = arr@[p as int];
    if p > 0 {
        quick_sort_range(arr, low, p - 1);
    }
    let ghost after_left = arr@;
    quick_sort_range(arr, p + 1, high);
    let ghost after_right = arr@;
    proof {
        let n = orig.len() as int;
        let lo = low as int;
        let hi = high as int;
        let pi = p as int;
        // The left recursion left positions p..=high alone; the right one left
        // positions low..=p alone.
        assert(after_left.subrange(lo, pi) =~= after_right.subrange(lo, pi));
        assert(after_part.subrange(pi + 1, hi + 1) =~= after_left.subrange(pi + 1, hi + 1));
        assert(after_right[pi] == piv);
        // Everything left of the pivot is still strictly below it, and
        // everything right of it still at least it: the recursive calls only
        // rearranged those ranges.
        assert(after_left.subrange(lo, pi).to_multiset() == after_part.subrange(
            lo,
            pi,
        ).to_multiset());
        crate::specs::lemma_multiset_members_bound(
            after_part.subrange(lo, pi),
            after_right.subrange(lo, pi),
            |x: i32| x < piv,
        );
        crate::specs::lemma_multiset_members_bound(
            after_part.subrange(pi + 1, hi + 1),
            after_right.subrange(pi + 1, hi + 1),
            |x: i32| piv <= x,
        );
        assert forall|k: int| lo <= k < pi implies after_right[k] < piv by {
            assert(after_right.subrange(lo, pi)[k - lo] == after_right[k]);
        };
        assert forall|k: int| pi < k <= hi implies piv <= after_right[k] by {
            assert(after_right.subrange(pi + 1, hi + 1)[k - (pi + 1)] == after_right[k]);
        };
        // The two sorted halves and the pivot between them make the whole
        // range sorted.
        assert forall|a: int, b: int| lo <= a && a < b && b < hi + 1 implies after_right[a]
            <= after_right[b] by {
            if b < pi {
                assert(sorted_between(after_right, lo, pi));
            } else if a > pi {
                assert(sorted_between(after_right, pi + 1, hi + 1));
            }
        };
        // The range as a whole keeps its multiset: chain the three stages,
        // splitting at the pivot.
        crate::specs::lemma_subrange_split_multiset(after_part, lo, pi, pi + 1, hi + 1);
        crate::specs::lemma_subrange_split_multiset(after_left, lo, pi, pi + 1, hi + 1);
        crate::specs::lemma_subrange_split_multiset(after_right, lo, pi, pi + 1, hi + 1);
        assert(after_left.subrange(pi, pi + 1) =~= after_part.subrange(pi, pi + 1));
        assert(after_right.subrange(pi, pi + 1) =~= after_left.subrange(pi, pi + 1));
        assert(after_right.subrange(lo, pi) =~= after_left.subrange(lo, pi));
        assert(after_right.subrange(lo, hi + 1).to_multiset() == orig.subrange(
            lo,
            hi + 1,
        ).to_multiset());
    }
}

/// Quick sort: partition around the last element of the range, then sort each
/// side recursively. The empty vector is handled up front.
pub fn quick_sort(arr: &mut Vec<i32>)
    ensures
        sorted(final(arr)@),
        final(arr)@.to_multiset() == old(arr)@.to_multiset(),
{
    let n = arr.len();
    if n == 0 {
        return ;
    }
    quick_sort_range(arr, 0, n - 1);
    proof {
        assert(arr@.subrange(0, n as int) =~= arr@);
        assert(old(arr)@.subrange(0, n as int) =~= old(arr)@);
    }
}

/// A fresh vector holding a copy of `src[from..to]`.
fn copy_range(src: &Vec<i32>, from: usize, to: usize) -> (out: Vec<i32>)
    requires
        from <= to <= src.len(),
    ensures
        out@ == src@.subrange(from as int, to as int),
{
    let mut out: Vec<i32> = Vec::new();
    let mut k = from;
    proof {
        assert(out@ =~= src@.subrange(from as int, from as int));
    }
    while k < to
        invariant
            from <= k <= to <= src@.len(),
            out@ == src@.subrange(from as int, k as int),
        decreases to - k,
    {
        out.push(src[k]);
        proof {
            assert(out@ =~= src@.subrange(from as int, k as int + 1));
        }
        k += 1;
    }
    out
}

/// Overwrite `dst[at..at + src.len()]` with the contents of `src`, leaving
/// every other position of `dst` untouched.
fn write_range(dst: &mut Vec<i32>, at: usize, src: &Vec<i32>)
    requires
        at + src.len() <= old(dst).len(),
    ensures
        final(dst)@.len() == old(dst)@.len(),
        forall|t: int| 0 <= t < at ==> final(dst)@[t] == old(dst)@[t],
        forall|t: int|
            at + src@.len() <= t < final(dst)@.len() ==> final(dst)@[t] == old(dst)@[t],
        final(dst)@.subrange(at as int, at as int + src@.len() as int) == src@,
{
    let m = src.len();
    let n = dst.len();
    let mut k: usize = 0;
    while k < m
        invariant
            k <= m,
            m == src@.len(),
            at + m <= n,
            n == dst@.len(),
            dst@.len() == old(dst)@.len(),
            forall|t: int| 0 <= t < at ==> dst@[t] == old(dst)@[t],
            forall|t: int| at + m <= t < dst@.len() ==> dst@[t] == old(dst)@[t],
            forall|t: int| 0 <= t < k ==> dst@[at + t] == src@[t],
        decreases m - k,
    {
        dst.set(at + k, src[k]);
        k += 1;
    }
    proof {
        assert(dst@.subrange(at as int, at as int + src@.len() as int) =~= src@);
    }
}

/// Overwrite `dst` with the contents of `src`, which must have the same
/// length.
fn copy_into(dst: &mut Vec<i32>, src: &Vec<i32>)
    requires
        old(dst).len() == src.len(),
    ensures
        final(dst)@ == src@,
{
    let m = src.len();
    let mut k: usize = 0;
    while k < m
        invariant
            k <= m,
            m == src@.len(),
            dst@.len() == m,
            forall|t: int| 0 <= t < k ==> dst@[t] == src@[t],
        decreases m - k,
    {
        dst.set(k, src[k]);
        k += 1;
    }
    proof {
        assert(dst@ =~= src@);
    }
}

/// Two-way merge: fill `arr`, which must be exactly as long as the two
/// sources together, with their merge — the smaller front first, the front of
/// `left_arr` on ties, then the remainder of whichever source is left.
pub fn merge(arr: &mut Vec<i32>, left_arr: &Vec<i32>, right_arr: &Vec<i32>)
    requires
        old(arr).len() == left_arr.len() + right_arr.len(),
    ensures
        final(arr)@ == merge_spec(left_arr@, right_arr@),
{
    let llen = left_arr.len();
    let rlen = right_arr.len();
    let total = arr.len();
    let mut i: usize = 0;
    let mut j: usize = 0;
    proof {
        assert(left_arr@.skip(0) =~= left_arr@);
        assert(right_arr@.skip(0) =~= right_arr@);
        assert(arr@.subrange(0, 0) + merge_spec(left_arr@, right_arr@) =~= merge_spec(
            left_arr@,
            right_arr@,
        ));
    }
    while i < llen && j < rlen
        invariant
            i <= llen,
            j <= rlen,
            llen == left_arr@.len(),
            rlen == right_arr@.len(),
            arr@.len() == llen + rlen,
            total == arr@.len(),
            merge_spec(left_arr@, right_arr@) == arr@.subrange(0, i as int + j as int)
                + merge_spec(left_arr@.skip(i as int), right_arr@.skip(j as int)),
        decreases llen + rlen - i - j,
    {
        let ghost prev = arr@;
        if left_arr[i] <= right_arr[j] {
            arr.set(i + j, left_arr[i]);
            proof {
                crate::specs::lemma_merge_spec_step_left(
                    left_arr@,
                    right_arr@,
                    i as int,
                    j as int,
                );
                assert(arr@.subrange(0, i as int + j as int + 1) =~= prev.subrange(
                    0,
                    i as int + j as int,
                ) + seq![left_arr@[i as int]]);
                assert((prev.subrange(0, i as int + j as int) + seq![left_arr@[i as int]])
                    + merge_spec(left_arr@.skip(i as int + 1), right_arr@.skip(j as int))
                    =~= prev.subrange(0, i as int + j as int) + (seq![left_arr@[i as int]]
                    + merge_spec(left_arr@.skip(i as int + 1), right_arr@.skip(j as int))));
            }
            i += 1;
        } else {
            arr.set(i + j, right_arr[j]);
            proof {
                crate::specs::lemma_merge_spec_step_right(
                    left_arr@,
                    right_arr@,
                    i as int,
                    j as int,
                );
                assert(arr@.subrange(0, i as int + j as int + 1) =~= prev.subrange(
                    0,
                    i as int + j as int,
                ) + seq![right_arr@[j as int]]);
                assert((prev.subrange(0, i as int + j as int) + seq![right_arr@[j as int]])
                    + merge_spec(left_arr@.skip(i as int), right_arr@.skip(j as int + 1))
                    =~= prev.subrange(0, i as int + j as int) + (seq![right_arr@[j as int]]
                    + merge_spec(left_arr@.skip(i as int), right_arr@.skip(j as int + 1))));
            }
            j += 1;
        }
    }
    while i < llen
        invariant
            i <= llen,
            j <= rlen,
            i == llen || j == rlen,
            llen == left_arr@.len(),
            rlen == right_arr@.len(),
            arr@.len() == llen + rlen,
            total == arr@.len(),
            merge_spec(left_arr@, right_arr@) == arr@.subrange(0, i as int + j as int)
                + merge_spec(left_arr@.skip(i as int), right_arr@.skip(j as int)),
        decreases llen - i,
    {
        let ghost prev = arr@;
        arr.set(i + j, left_arr[i]);
        proof {
            crate::specs::lemma_merge_spec_step_left(left_arr@, right_arr@, i as int, j as int);
            assert(arr@.subrange(0, i as int + j as int + 1) =~= prev.subrange(
                0,
                i as int + j as int,
            ) + seq![left_arr@[i as int]]);
            assert((prev.subrange(0, i as int + j as int) + seq![left_arr@[i as int]])
                + merge_spec(left_arr@.skip(i as int + 1), right_arr@.skip(j as int))
                =~= prev.subrange(0, i as int + j as int) + (seq![left_arr@[i as int]]
                + merge_spec(left_arr@.skip(i as int + 1), right_arr@.skip(j as int))));
        }
        i += 1;
    }
    while j < rlen
        invariant
            i == llen,
            j <= rlen,
            llen == left_arr@.len(),
            rlen == right_arr@.len(),
            arr@.len() == llen + rlen,
            total == arr@.len(),
            merge_spec(left_arr@, right_arr@) == arr@.subrange(0, i as int + j as int)
                + merge_spec(left_arr@.skip(i as int), right_arr@.skip(j as int)),
        decreases rlen - j,
    {
        let ghost prev = arr@;
        arr.set(i + j, right_arr[j]);
        proof {
            crate::specs::lemma_merge_spec_step_right(left_arr@, right_arr@, i as int, j as int);
            assert(arr@.subrange(0, i as int + j as int + 1) =~= prev.subrange(
                0,
                i as int + j as int,
            ) + seq![right_arr@[j as int]]);
            assert((prev.subrange(0, i as int + j as int) + seq![right_arr@[j as int]])
                + merge_spec(left_arr@.skip(i as int), right_arr@.skip(j as int + 1))
                =~= prev.subrange(0, i as int + j as int) + (seq![right_arr@[j as int]]
                + merge_spec(left_arr@.skip(i as int), right_arr@.skip(j as int + 1))));
        }
        j += 1;
    }
    proof {
        assert(left_arr@.skip(llen as int) =~= Seq::<i32>::empty());
        assert(right_arr@.skip(rlen as int) =~= Seq::<i32>::empty());
        assert(merge_spec(Seq::<i32>::empty(), Seq::<i32>::empty()) =~= Seq::<i32>::empty());
        assert(arr@.subrange(0, llen as int + rlen as int) + Seq::<i32>::empty() =~= arr@.subrange(
            0,
            llen as int + rlen as int,
        ));
        assert(arr@.subrange(0, llen as int + rlen as int) =~= arr@);
    }
}

/// The `k`-th aligned chunk of width `w` of `s` — positions `k*w` up to but
/// not including `k*w + w`, cut short at the end of the sequence — is sorted.
spec fn chunk_sorted(s: Seq<i32>, w: int, k: int) -> bool {
    sorted_between(s, k * w, min_int(k * w + w, s.len() as int))
}

/// Every aligned chunk of width `w` of `s` is sorted.
spec fn chunks_sorted(s: Seq<i32>, w: int) -> bool {
    forall|k: int| 0 <= k ==> #[trigger] chunk_sorted(s, w, k)
}

/// Chunks of width one are always sorted.
proof fn lemma_unit_chunks_sorted(s: Seq<i32>)
    ensures
        chunks_sorted(s, 1),
{
    assert forall|k: int| 0 <= k implies chunk_sorted(s, 1, k) by {
        assert(k * 1 == k);
    };
}

/// Once a single chunk covers the whole sequence, the sequence is sorted.
proof fn lemma_wide_chunk_sorted(s: Seq<i32>, w: int)
    requires
        chunks_sorted(s, w),
        w >= s.len(),
    ensures
        sorted(s),
{
    assert(chunk_sorted(s, w, 0));
    assert(0 * w == 0);
}

/// Iterative bottom-up merge sort: merge pairs of adjacent sorted runs of
/// doubling width from the live vector into a scratch buffer, copy the buffer
/// back after each full pass, and stop once one run covers the whole vector.
pub fn merge_sort(arr: &mut Vec<i32>)
    ensures
        sorted(final(arr)@),
        final(arr)@.to_multiset() == old(arr)@.to_multiset(),
{
    let n = arr.len();
    if n <= 1 {
        return ;
    }
    let mut buf = copy_range(arr, 0, n);
    proof {
        lemma_unit_chunks_sorted(arr@);
        assert(arr@.subrange(0, n as int) =~= arr@);
    }
    let mut w: usize = 1;
    loop
        invariant_except_break
            1 <= w < n,
            chunks_sorted(arr@, w as int),
        invariant
            n == arr@.len(),
            buf@.len() == n,
            arr@.to_multiset() == old(arr)@.to_multiset(),
        ensures
            sorted(arr@),
        decreases n - w,
    {
        let mut start: usize = 0;
        let ghost mut k_pass: int = 0;
        proof {
            assert(buf@.subrange(0, 0) =~= arr@.subrange(0, 0));
        }
        while start < n
            invariant
                start <= n,
                1 <= w,
                n == arr@.len(),
                buf@.len() == n,
                chunks_sorted(arr@, w as int),
                arr@.to_multiset() == old(arr)@.to_multiset(),
                0 <= k_pass,
                start as int == k_pass * (2 * w as int) || start == n,
                start as int <= k_pass * (2 * w as int),
                forall|k: int| 0 <= k < k_pass ==> #[trigger] chunk_sorted(buf@, 2 * w as int, k),
                buf@.subrange(0, start as int).to_multiset() == arr@.subrange(
                    0,
                    start as int,
                ).to_multiset(),
            decreases n - start,
        {
            let mid = if n - start > w {
                start + w
            } else {
                n
            };
            let end = if n - mid > w {
                mid + w
            } else {
                n
            };
            let left_run = copy_range(arr, start, mid);
            let right_run = copy_range(arr, mid, end);
            let mut seg = copy_range(arr, start, end);
            proof {
                let wi = w as int;
                let st = start as int;
                let mi = mid as int;
                let en = end as int;
                let ni = n as int;
                // The two runs to merge are the aligned width-w chunks number
                // 2*k_pass and 2*k_pass + 1 of arr, so both are sorted.
                assert(chunk_sorted(arr@, wi, 2 * k_pass));
                assert(chunk_sorted(arr@, wi, 2 * k_pass + 1));
                assert(2 * k_pass * wi == k_pass * (2 * wi)) by (nonlinear_arith);
                assert((2 * k_pass + 1) * wi == k_pass * (2 * wi) + wi) by (nonlinear_arith);
                assert(mi == min_int(st + wi, ni));
                assert(en == min_int(st + wi + wi, ni));
                assert(sorted_between(arr@, st, mi));
                assert(sorted_between(arr@, mi, en));
                assert forall|a: int, b: int|
                    0 <= a && a < b && b < left_run@.len() implies left_run@[a]
                    <= left_run@[b] by {
                    assert(left_run@[a] == arr@[st + a]);
                    assert(left_run@[b] == arr@[st + b]);
                };
                assert(sorted(left_run@));
                assert forall|a: int, b: int|
                    0 <= a && a < b && b < right_run@.len() implies right_run@[a]
                    <= right_run@[b] by {
                    assert(right_run@[a] == arr@[mi + a]);
                    assert(right_run@[b] == arr@[mi + b]);
                };
                assert(sorted(right_run@));
            }
            merge(&mut seg, &left_run, &right_run);
            proof {
                crate::specs::lemma_merge_spec_sorted(left_run@, right_run@);
                crate::specs::lemma_merge_spec_multiset(left_run@, right_run@);
                vstd::seq_lib::lemma_multiset_commutative(left_run@, right_run@);
                assert(left_run@ + right_run@ =~= arr@.subrange(start as int, end as int));
            }
            let ghost prev_buf = buf@;
            write_range(&mut buf, start, &seg);
            proof {
                let wi = w as int;
                let w2 = 2 * wi;
                let st = start as int;
                let en = end as int;
                let ni = n as int;
                assert(en == min_int(st + w2, ni));
                assert(buf@.subrange(st, en) == seg@);
                // All merged chunks written so far, the fresh one included,
                // are sorted in the buffer.
                assert forall|k: int| 0 <= k < k_pass + 1 implies chunk_sorted(buf@, w2, k) by {
                    if k < k_pass {
                        vstd::arithmetic::mul::lemma_mul_inequality(k + 1, k_pass, w2);
                        assert((k + 1) * (2 * wi) == k * (2 * wi) + 2 * wi) by (nonlinear_arith);
                        assert(chunk_sorted(prev_buf, w2, k));
                        assert forall|a: int, b: int|
                            k * w2 <= a && a < b && b < min_int(k * w2 + w2, ni) implies buf@[a]
                            <= buf@[b] by {
                            assert(buf@[a] == prev_buf[a]);
                            assert(buf@[b] == prev_buf[b]);
                        };
                    } else {
                        assert(k * w2 == st);
                        assert(min_int(k * w2 + w2, ni) == en);
                        assert forall|a: int, b: int|
                            st <= a && a < b && b < en implies buf@[a] <= buf@[b] by {
                            assert(buf@[a] == seg@[a - st]);
                            assert(buf@[b] == seg@[b - st]);
                        };
                    }
                };
                // The written prefix of the buffer keeps holding the same
                // elements as the corresponding prefix of arr.
                assert(buf@.subrange(0, st) =~= prev_buf.subrange(0, st));
                assert(buf@.subrange(0, en) =~= buf@.subrange(0, st) + buf@.subrange(st, en));
                vstd::seq_lib::lemma_multiset_commutative(
                    buf@.subrange(0, st),
                    buf@.subrange(st, en),
                );
                assert(arr@.subrange(0, en) =~= arr@.subrange(0, st) + arr@.subrange(st, en));
                vstd::seq_lib::lemma_multiset_commutative(
                    arr@.subrange(0, st),
                    arr@.subrange(st, en),
                );
                assert(buf@.subrange(0, en).to_multiset() == arr@.subrange(0, en).to_multiset());
                assert((k_pass + 1) * (2 * wi) == k_pass * (2 * wi) + 2 * wi) by (nonlinear_arith);
                k_pass = k_pass + 1;
            }
            start = end;
        }
        proof {
            let w2 = 2 * w as int;
            let ni = n as int;
            // Chunks past the written region start at or beyond the end of
            // the buffer, so they are trivially sorted.
            assert forall|k: int| 0 <= k implies chunk_sorted(buf@, w2, k) by {
                if k >= k_pass {
                    vstd::arithmetic::mul::lemma_mul_inequality(k_pass, k, w2);
                }
            };
            assert(chunks_sorted(buf@, w2));
            assert(buf@.subrange(0, ni) =~= buf@);
            assert(arr@.subrange(0, ni) =~= arr@);
        }
        let ghost pre_copy = arr@;
        copy_into(arr, &buf);
        proof {
            assert(arr@ == buf@);
            assert(buf@.to_multiset() == pre_copy.to_multiset());
        }
        if n - w > w {
            w = w + w;
        } else {
            proof {
                lemma_wide_chunk_sorted(arr@, 2 * w as int);
            }
            break ;
        }
    }
}

} // verus!

