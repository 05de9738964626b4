//! The mathematical vocabulary of the crate: what it means for a sequence to
//! be sorted, what a two-way merge returns, and the laws that every sorting
//! routine's contract forces — a sorted rearrangement is unique, so sorting is
//! idempotent and leaves short sequences untouched.

use vstd::multiset::Multiset;
use vstd::prelude::*;

verus! {

/// The elements of `s` at positions `lo..hi` are in non-decreasing order.
/// An empty or reversed range is trivially sorted.
pub open spec fn sorted_between(s: Seq<i32>, lo: int, hi: int) -> bool {
    forall|i: int, j: int| lo <= i && i < j && j < hi ==> #[trigger] s[i] <= #[trigger] s[j]
}

/// The whole sequence is in non-decreasing order.
pub open spec fn sorted(s: Seq<i32>) -> bool {
    sorted_between(s, 0, s.len() as int)
}

/// The smaller of two integers.
pub open spec fn min_int(a: int, b: int) -> int {
    if a <= b {
        a
    } else {
        b
    }
}

/// Exchanging the values at two positions of a sequence leaves the multiset
/// of elements of any range enclosing both positions unchanged.
pub proof fn lemma_two_point_exchange_multiset(s: Seq<i32>, t: Seq<i32>, i: int, j: int, a: int, b: int)
    requires
        s.len() == t.len(),
        0 <= a <= i < b <= s.len(),
        a <= j < b,
        t[i] == s[j],
        t[j] == s[i],
        forall|k: int| 0 <= k < s.len() && k != i && k != j ==> t[k] == s[k],
    ensures
        t.subrange(a, b).to_multiset() == s.subrange(a, b).to_multiset(),
{
    broadcast use vstd::seq_lib::group_to_multiset_ensures;
    broadcast use vstd::multiset::group_multiset_axioms;

    let u = s.subrange(a, b);
    let v = t.subrange(a, b);
    if i == j {
        assert(v =~= u);
    } else {
        let w = u.update(i - a, u[j - a]);
        assert(v =~= w.update(j - a, u[i - a]));
        assert(w.to_multiset() == u.to_multiset().insert(u[j - a]).remove(u[i - a]));
        assert(w[j - a] == u[j - a]);
        assert(v.to_multiset() == w.to_multiset().insert(u[i - a]).remove(u[j - a]));
        assert(u.contains(u[i - a]));
        assert(u.contains(u[j - a]));
        assert(v.to_multiset() =~= u.to_multiset());
    }
}

/// A range of a sequence, cut at two interior points, holds the multisets of
/// its three pieces added together.
pub proof fn lemma_subrange_split_multiset(s: Seq<i32>, a: int, m1: int, m2: int, b: int)
    requires
        0 <= a <= m1 <= m2 <= b <= s.len(),
    ensures
        s.subrange(a, b).to_multiset() == s.subrange(a, m1).to_multiset().add(
            s.subrange(m1, m2).to_multiset(),
        ).add(s.subrange(m2, b).to_multiset()),
{
    assert(s.subrange(a, b) =~= s.subrange(a, m1) + s.subrange(m1, m2) + s.subrange(m2, b));
    vstd::seq_lib::lemma_multiset_commutative(
        s.subrange(a, m1) + s.subrange(m1, m2),
        s.subrange(m2, b),
    );
    vstd::seq_lib::lemma_multiset_commutative(s.subrange(a, m1), s.subrange(m1, m2));
}

/// A property that holds of every element of a sequence holds of every
/// element of any sequence with the same multiset of elements.
pub proof fn lemma_multiset_members_bound(s: Seq<i32>, t: Seq<i32>, p: spec_fn(i32) -> bool)
    requires
        s.to_multiset() == t.to_multiset(),
        forall|k: int| 0 <= k < s.len() ==> p(#[trigger] s[k]),
    ensures
        forall|k: int| 0 <= k < t.len() ==> p(#[trigger] t[k]),
{
    broadcast use vstd::seq_lib::group_to_multiset_ensures;

    assert forall|k: int| 0 <= k < t.len() implies p(t[k]) by {
        assert(t.contains(t[k]));
        assert(t.to_multiset().count(t[k]) > 0);
        assert(s.to_multiset().count(t[k]) > 0);
        assert(s.contains(t[k]));
        let idx = choose|idx: int| 0 <= idx < s.len() && s[idx] == t[k];
        assert(p(s[idx]));
    };
}

/// A sorted rearrangement is unique: two sorted sequences holding the same
/// multiset of elements are the same sequence.
pub proof fn lemma_sorted_rearrangement_unique(a: Seq<i32>, b: Seq<i32>)
    requires
        sorted(a),
        sorted(b),
        a.to_multiset() == b.to_multiset(),
    ensures
        a == b,
{
    let leq = |x: i32, y: i32| x <= y;
    assert(vstd::relations::total_ordering(leq));
    assert(vstd::relations::sorted_by(a, leq));
    assert(vstd::relations::sorted_by(b, leq));
    vstd::seq_lib::lemma_sorted_unique(a, b, leq);
    assert(a =~= b);
}

/// Sorting is idempotent: on an already-sorted input, any output that the
/// sorted-permutation contract of a sorting routine admits is the input
/// itself, unchanged.
pub proof fn lemma_sorting_sorted_input_is_noop(input: Seq<i32>, output: Seq<i32>)
    requires
        sorted(input),
        sorted(output),
        output.to_multiset() == input.to_multiset(),
    ensures
        output == input,
{
    lemma_sorted_rearrangement_unique(output, input);
}

/// An empty or one-element input is left unchanged by every sorting routine:
/// with at most one element, any output that the sorted-permutation contract
/// admits is the input itself.
pub proof fn lemma_short_input_is_noop(input: Seq<i32>, output: Seq<i32>)
    requires
        input.len() <= 1,
        sorted(output),
        output.to_multiset() == input.to_multiset(),
    ensures
        output == input,
{
    assert(sorted(input));
    lemma_sorted_rearrangement_unique(output, input);
}

/// The two-way merge of `l` and `r`: repeatedly move the smaller front to the
/// output, the front of `l` when the two are equal, then append whatever is
/// left of the other side.
pub open spec fn merge_spec(l: Seq<i32>, r: Seq<i32>) -> Seq<i32>
    decreases l.len() + r.len(),
{
    if l.len() == 0 {
        r
    } else if r.len() == 0 {
        l
    } else if l[0] <= r[0] {
        seq![l[0]] + merge_spec(l.drop_first(), r)
    } else {
        seq![r[0]] + merge_spec(l, r.drop_first())
    }
}

/// The merge of two sequences is as long as both together.
pub proof fn lemma_merge_spec_len(l: Seq<i32>, r: Seq<i32>)
    ensures
        merge_spec(l, r).len() == l.len() + r.len(),
    decreases l.len() + r.len(),
{
    if l.len() == 0 {
    } else if r.len() == 0 {
    } else if l[0] <= r[0] {
        lemma_merge_spec_len(l.drop_first(), r);
    } else {
        lemma_merge_spec_len(l, r.drop_first());
    }
}

/// Unrolling the merge of the tails `l[i..]` and `r[j..]` when the merge
/// takes the element of `l`: either `r` is exhausted or `l[i]` wins the
/// comparison (ties included).
pub proof fn lemma_merge_spec_step_left(l: Seq<i32>, r: Seq<i32>, i: int, j: int)
    requires
        0 <= i < l.len(),
        0 <= j <= r.len(),
        j == r.len() || l[i] <= r[j],
    ensures
        merge_spec(l.skip(i), r.skip(j)) == seq![l[i]] + merge_spec(l.skip(i + 1), r.skip(j)),
{
    let ls = l.skip(i);
    let rs = r.skip(j);
    assert(ls[0] == l[i]);
    assert(ls.drop_first() =~= l.skip(i + 1));
    if rs.len() == 0 {
        assert(merge_spec(ls, rs) == ls);
        if i + 1 == l.len() {
            assert(merge_spec(l.skip(i + 1), rs) == rs);
            assert(seq![l[i]] + rs =~= ls);
        } else {
            assert(merge_spec(l.skip(i + 1), rs) == l.skip(i + 1));
            assert(seq![l[i]] + l.skip(i + 1) =~= ls);
        }
    } else {
        assert(rs[0] == r[j]);
        assert(merge_spec(ls, rs) == seq![ls[0]] + merge_spec(ls.drop_first(), rs));
    }
}

/// Unrolling the merge of the tails `l[i..]` and `r[j..]` when the merge
/// takes the element of `r`: either `l` is exhausted or `r[j]` is strictly
/// smaller.
pub proof fn lemma_merge_spec_step_right(l: Seq<i32>, r: Seq<i32>, i: int, j: int)
    requires
        0 <= i <= l.len(),
        0 <= j < r.len(),
        i == l.len() || r[j] < l[i],
    ensures
        merge_spec(l.skip(i), r.skip(j)) == seq![r[j]] + merge_spec(l.skip(i), r.skip(j + 1)),
{
    let ls = l.skip(i);
    let rs = r.skip(j);
    assert(rs[0] == r[j]);
    assert(rs.drop_first() =~= r.skip(j + 1));
    if ls.len() == 0 {
        assert(merge_spec(ls, rs) == rs);
        assert(merge_spec(ls, r.skip(j + 1)) == r.skip(j + 1));
        assert(seq![r[j]] + r.skip(j + 1) =~= rs);
    } else {
        assert(ls[0] == l[i]);
        assert(!(ls[0] <= rs[0]));
        assert(merge_spec(ls, rs) == seq![rs[0]] + merge_spec(ls, rs.drop_first()));
    }
}

/// Merging two sorted sequences yields a sorted sequence, whose first element
/// is the front of one of the inputs.
pub proof fn lemma_merge_spec_sorted(l: Seq<i32>, r: Seq<i32>)
    requires
        sorted(l),
        sorted(r),
    ensures
        sorted(merge_spec(l, r)),
        merge_spec(l, r).len() == l.len() + r.len(),
        l.len() + r.len() > 0 ==> ((l.len() > 0 && merge_spec(l, r)[0] == l[0]) || (r.len() > 0
            && merge_spec(l, r)[0] == r[0])),
    decreases l.len() + r.len(),
{
    lemma_merge_spec_len(l, r);
    if l.len() == 0 {
    } else if r.len() == 0 {
    } else if l[0] <= r[0] {
        assert(sorted(l.drop_first())) by {
            assert forall|a: int, b: int|
                0 <= a && a < b && b < l.drop_first().len() implies l.drop_first()[a]
                <= l.drop_first()[b] by {
                assert(l.drop_first()[a] == l[a + 1]);
                assert(l.drop_first()[b] == l[b + 1]);
            };
        };
        lemma_merge_spec_sorted(l.drop_first(), r);
        let m = merge_spec(l.drop_first(), r);
        let res = seq![l[0]] + m;
        assert(res[0] == l[0]);
        if m.len() > 0 {
            assert(l[0] <= m[0]) by {
                if l.drop_first().len() > 0 && m[0] == l.drop_first()[0] {
                    assert(l.drop_first()[0] == l[1]);
                }
            };
        }
        assert forall|a: int, b: int| 0 <= a && a < b && b < res.len() implies res[a]
            <= res[b] by {
            if a == 0 {
                assert(res[b] == m[b - 1]);
                if b - 1 > 0 {
                    assert(m[0] <= m[b - 1]);
                }
            } else {
                assert(res[a] == m[a - 1]);
                assert(res[b] == m[b - 1]);
            }
        };
    } else {
        assert(sorted(r.drop_first())) by {
            assert forall|a: int, b: int|
                0 <= a && a < b && b < r.drop_first().len() implies r.drop_first()[a]
                <= r.drop_first()[b] by {
                assert(r.drop_first()[a] == r[a + 1]);
                assert(r.drop_first()[b] == r[b + 1]);
            };
        };
        lemma_merge_spec_sorted(l, r.drop_first());
        let m = merge_spec(l, r.drop_first());
        let res = seq![r[0]] + m;
        assert(res[0] == r[0]);
        if m.len() > 0 {
            assert(r[0] <= m[0]) by {
                if r.drop_first().len() > 0 && m[0] == r.drop_first()[0] {
                    assert(r.drop_first()[0] == r[1]);
                }
            };
        }
        assert forall|a: int, b: int| 0 <= a && a < b && b < res.len() implies res[a]
            <= res[b] by {
            if a == 0 {
                assert(res[b] == m[b - 1]);
                if b - 1 > 0 {
                    assert(m[0] <= m[b - 1]);
                }
            } else {
                assert(res[a] == m[a - 1]);
                assert(res[b] == m[b - 1]);
            }
        };
    }
}

/// The merge of two sequences holds the multisets of both added together.
pub proof fn lemma_merge_spec_multiset(l: Seq<i32>, r: Seq<i32>)
    ensures
        merge_spec(l, r).to_multiset() == l.to_multiset().add(r.to_multiset()),
    decreases l.len() + r.len(),
{
    broadcast use vstd::seq_lib::group_to_multiset_ensures;
    broadcast use vstd::multiset::group_multiset_axioms;

    if l.len() == 0 {
        l.to_multiset_ensures();
        assert(l.to_multiset() =~= Multiset::<i32>::empty());
        assert(l.to_multiset().add(r.to_multiset()) =~= r.to_multiset());
    } else if r.len() == 0 {
        r.to_multiset_ensures();
        assert(r.to_multiset() =~= Multiset::<i32>::empty());
        assert(l.to_multiset().add(r.to_multiset()) =~= l.to_multiset());
    } else if l[0] <= r[0] {
        lemma_merge_spec_multiset(l.drop_first(), r);
        let m = merge_spec(l.drop_first(), r);
        assert(seq![l[0]] + m =~= m.insert(0, l[0]));
        assert(l =~= l.drop_first().insert(0, l[0]));
        assert((seq![l[0]] + m).to_multiset() == m.to_multiset().insert(l[0]));
        assert(l.to_multiset() == l.drop_first().to_multiset().insert(l[0]));
        assert(l.drop_first().to_multiset().add(r.to_multiset()).insert(l[0])
            =~= l.drop_first().to_multiset().insert(l[0]).add(r.to_multiset()));
    } else {
        lemma_merge_spec_multiset(l, r.drop_first());
        let m = merge_spec(l, r.drop_first());
        assert(seq![r[0]] + m =~= m.insert(0, r[0]));
        assert(r =~= r.drop_first().insert(0, r[0]));
        assert((seq![r[0]] + m).to_multiset() == m.to_multiset().insert(r[0]));
        assert(r.to_multiset() == r.drop_first().to_multiset().insert(r[0]));
        assert(l.to_multiset().add(r.drop_first().to_multiset()).insert(r[0])
            =~= l.to_multiset().add(r.drop_first().to_multiset().insert(r[0])));
    }
}

} // verus!
