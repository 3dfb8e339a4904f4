//! In-place selection of an order statistic along one axis.

use crate::perm::{
    exchanged, lemma_exchange_keeps_multiset, lemma_rearranged_keeps_images,
    lemma_rearranged_keeps_property,
};
use vstd::multiset::Multiset;
use vstd::prelude::*;
use vstd::relations::{sorted_by, total_ordering};
use vstd::seq_lib::*;

verus! {

/// The points held by a vector of points, each as the sequence of its
/// coordinates.
pub open spec fn rows(points: Seq<Vec<i64>>) -> Seq<Seq<i64>> {
    Seq::new(points.len(), |i: int| points[i]@)
}

/// The points at the indices `begin..end`, as a multiset.
pub open spec fn range_points(points: Seq<Vec<i64>>, begin: int, end: int) -> Multiset<Seq<i64>> {
    rows(points).subrange(begin, end).to_multiset()
}

/// Whether the points at `begin..end` are arranged around index `n` along
/// `axis`: none before `n` has a larger coordinate than the point at `n`,
/// none after it a smaller one.  The point at `n` is then one that a sort of
/// the range by that coordinate could leave at `n`.
pub open spec fn arranged_around(
    r: Seq<Seq<i64>>,
    begin: int,
    end: int,
    axis: int,
    n: int,
) -> bool {
    &&& forall|i: int| begin <= i < n ==> (#[trigger] r[i])[axis] <= r[n][axis]
    &&& forall|i: int| n < i < end ==> r[n][axis] <= (#[trigger] r[i])[axis]
}

/// The coordinates along `axis` of the points listed, in the same order.
pub open spec fn keys(s: Seq<Seq<i64>>, axis: int) -> Seq<int> {
    Seq::new(s.len(), |i: int| s[i][axis] as int)
}

/// Whether the coordinates along `axis` never decrease along the sequence.
pub open spec fn sorted_along(s: Seq<Seq<i64>>, axis: int) -> bool {
    forall|i: int, j: int|
        0 <= i <= j < s.len() ==> (#[trigger] s[i])[axis] <= (#[trigger] s[j])[axis]
}

/// The point around which a range is arranged has the coordinate that any
/// sort of the range along that axis puts at the same place: it is the order
/// statistic of its index.  Here `t` is any such sort of the points at
/// `begin..end` of `r`.
pub proof fn lemma_arranged_is_order_statistic(
    r: Seq<Seq<i64>>,
    begin: int,
    end: int,
    axis: int,
    n: int,
    t: Seq<Seq<i64>>,
)
    requires
        0 <= begin <= n < end <= r.len(),
        arranged_around(r, begin, end, axis, n),
        t.to_multiset() == r.subrange(begin, end).to_multiset(),
        sorted_along(t, axis),
    ensures
        t[n - begin][axis] == r[n][axis],
{
    let s = r.subrange(begin, end);
    let n = n - begin;
    broadcast use vstd::multiset::group_multiset_axioms;

    let leq = |a: int, b: int| a <= b;
    let key = |p: Seq<i64>| p[axis] as int;
    let ks = keys(s, axis);
    let kt = keys(t, axis);
    let len = s.len() as int;
    let pivot = ks[n];
    to_multiset_len(s);
    to_multiset_len(t);
    lemma_rearranged_keeps_images(s, t, key);
    assert(ks =~= s.map_values(key));
    assert(kt =~= t.map_values(key));
    assert(total_ordering(leq));
    // The keys before `n` and those after it, each part sorted by itself,
    // with the key at `n` between them, are the keys in sorted order.
    let below = ks.subrange(0, n);
    let above = ks.subrange(n + 1, len);
    below.lemma_sort_by_ensures(leq);
    above.lemma_sort_by_ensures(leq);
    let lo = below.sort_by(leq);
    let hi = above.sort_by(leq);
    to_multiset_len(below);
    to_multiset_len(above);
    to_multiset_len(lo);
    to_multiset_len(hi);
    assert forall|i: int| 0 <= i < below.len() implies (|x: int| x <= pivot)(
        #[trigger] below[i],
    ) by {
        assert(s[i] == r[begin + i]);
        assert(r[begin + i][axis] <= r[begin + n][axis]);
    }
    assert forall|i: int| 0 <= i < above.len() implies (|x: int| pivot <= x)(
        #[trigger] above[i],
    ) by {
        assert(s[n + 1 + i] == r[begin + n + 1 + i]);
        assert(r[begin + n][axis] <= r[begin + n + 1 + i][axis]);
    }
    lemma_rearranged_keeps_property(below, lo, |x: int| x <= pivot);
    lemma_rearranged_keeps_property(above, hi, |x: int| pivot <= x);
    let merged = lo.push(pivot) + hi;
    assert(sorted_by(merged, leq)) by {
        assert forall|i: int, j: int| 0 <= i < j < merged.len() implies #[trigger] leq(
            merged[i],
            merged[j],
        ) by {
            if i < n {
                assert(merged[i] == lo[i]);
                assert((|x: int| x <= pivot)(lo[i]));
            }
            if i > n {
                assert(merged[i] == hi[i - n - 1]);
            }
            if j < n {
                assert(merged[j] == lo[j]);
                assert(leq(lo[i], lo[j]));
            }
            if j > n {
                assert(merged[j] == hi[j - n - 1]);
                assert((|x: int| pivot <= x)(hi[j - n - 1]));
                if i > n {
                    assert(leq(hi[i - n - 1], hi[j - n - 1]));
                }
            }
        }
    }
    assert(sorted_by(kt, leq)) by {
        assert forall|i: int, j: int| 0 <= i < j < kt.len() implies #[trigger] leq(
            kt[i],
            kt[j],
        ) by {
            assert(t[i][axis] <= t[j][axis]);
        }
    }
    assert(ks =~= below.push(pivot) + above);
    lemma_multiset_commutative(below.push(pivot), above);
    lemma_multiset_commutative(lo.push(pivot), hi);
    to_multiset_build(below, pivot);
    to_multiset_build(lo, pivot);
    lemma_sorted_unique(merged, kt, leq);
    assert(merged[n] == pivot);
}

/// Exchanges the points at `i` and `j`.
pub fn swap_rows(points: &mut Vec<Vec<i64>>, i: usize, j: usize)
    requires
        i < old(points).len(),
        j < old(points).len(),
    ensures
        final(points)@ == exchanged(old(points)@, i as int, j as int),
{
    if i != j {
        let mut held: Vec<i64> = Vec::new();
        core::mem::swap(&mut held, &mut points[i]);
        core::mem::swap(&mut held, &mut points[j]);
        core::mem::swap(&mut held, &mut points[i]);
    }
    assert(points@ =~= exchanged(old(points)@, i as int, j as int));
}

/// Exchanging two points inside a range keeps the multiset of the range.
pub proof fn lemma_exchange_in_range(
    before: Seq<Vec<i64>>,
    after: Seq<Vec<i64>>,
    begin: int,
    end: int,
    i: int,
    j: int,
)
    requires
        0 <= begin <= i < end <= before.len(),
        begin <= j < end,
        after == exchanged(before, i, j),
    ensures
        range_points(after, begin, end) == range_points(before, begin, end),
{
    let b = rows(before).subrange(begin, end);
    let a = rows(after).subrange(begin, end);
    assert(a =~= exchanged(b, i - begin, j - begin));
    lemma_exchange_keeps_multiset(b, i - begin, j - begin);
}

/// The multiset of a range is the sum of the multisets of its two parts.
pub proof fn lemma_range_split(points: Seq<Vec<i64>>, begin: int, mid: int, end: int)
    requires
        0 <= begin <= mid <= end <= points.len(),
    ensures
        range_points(points, begin, end) == range_points(points, begin, mid).add(
            range_points(points, mid, end),
        ),
{
    let r = rows(points);
    assert(r.subrange(begin, end) =~= r.subrange(begin, mid) + r.subrange(mid, end));
    lemma_multiset_commutative(r.subrange(begin, mid), r.subrange(mid, end));
}

/// Two ranges that hold the same vectors hold the same points.
pub proof fn lemma_range_unchanged(
    before: Seq<Vec<i64>>,
    after: Seq<Vec<i64>>,
    begin: int,
    end: int,
)
    requires
        0 <= begin <= end <= before.len(),
        after.len() == before.len(),
        forall|i: int| begin <= i < end ==> (#[trigger] after[i]) == before[i],
    ensures
        range_points(after, begin, end) == range_points(before, begin, end),
{
    assert(rows(after).subrange(begin, end) =~= rows(before).subrange(begin, end));
}

/// A range of one index holds the one point at that index.
pub proof fn lemma_range_of_one(points: Seq<Vec<i64>>, i: int)
    requires
        0 <= i < points.len(),
    ensures
        range_points(points, i, i + 1) == Multiset::singleton(points[i]@),
{
    broadcast use vstd::multiset::group_multiset_axioms;

    let one = rows(points).subrange(i, i + 1);
    assert(one =~= Seq::<Seq<i64>>::empty().push(points[i]@));
    to_multiset_build(Seq::<Seq<i64>>::empty(), points[i]@);
    to_multiset_len(Seq::<Seq<i64>>::empty());
    assert(Seq::<Seq<i64>>::empty().to_multiset() =~= Multiset::empty());
    assert(one.to_multiset() =~= Multiset::singleton(points[i]@));
}

/// An empty range holds no point.
pub proof fn lemma_empty_range(points: Seq<Vec<i64>>, i: int)
    requires
        0 <= i <= points.len(),
    ensures
        range_points(points, i, i) == Multiset::<Seq<i64>>::empty(),
{
    broadcast use vstd::multiset::group_multiset_axioms;

    let none = rows(points).subrange(i, i);
    to_multiset_len(none);
    assert(none.to_multiset() =~= Multiset::empty());
}

/// A point that occurs in the multiset of a range stands at some index of
/// the range, which is returned.
pub proof fn lemma_point_in_range(points: Seq<Vec<i64>>, begin: int, end: int, p: Seq<i64>) -> (i:
    int)
    requires
        0 <= begin <= end <= points.len(),
        range_points(points, begin, end).count(p) > 0,
    ensures
        begin <= i < end,
        points[i]@ == p,
{
    let r = rows(points).subrange(begin, end);
    to_multiset_contains(r, p);
    let j = choose|j: int| 0 <= j < r.len() && r[j] == p;
    begin + j
}

/// A copy of a point.
pub fn copy_point(p: &Vec<i64>) -> (r: Vec<i64>)
    ensures
        r@ == p@,
{
    let r = p.clone();
    assert(r@ =~= p@);
    r
}

/// Rearranges the points at `begin..end` so that the point at index `n` is
/// one that sorting the range by the coordinate `axis` could put there, and
/// returns a copy of that point.
///
/// The range is split in three bands around the coordinate of the point in
/// its middle: smaller, equal, larger.  The search goes on in the band that
/// holds `n`, or ends if that is the band of equal coordinates.  The pivot is
/// always the middle point, so the work is linear on average and quadratic
/// at worst.
pub fn nth_element(
    points: &mut Vec<Vec<i64>>,
    begin: usize,
    end: usize,
    axis: usize,
    n: usize,
) -> (r: Vec<i64>)
    requires
        begin <= n < end <= old(points).len(),
        forall|i: int| begin <= i < end ==> axis < (#[trigger] old(points)@[i]).len(),
    ensures
        final(points).len() == old(points).len(),
        forall|i: int|
            0 <= i < begin || end <= i < old(points).len() ==> (#[trigger] final(points)@[i])
                == old(points)@[i],
        range_points(final(points)@, begin as int, end as int) == range_points(
            old(points)@,
            begin as int,
            end as int,
        ),
        forall|i: int| begin <= i < end ==> axis < (#[trigger] final(points)@[i]).len(),
        arranged_around(rows(final(points)@), begin as int, end as int, axis as int, n as int),
        r@ == final(points)@[n as int]@,
    decreases end - begin,
{
    if end - begin <= 1 {
        return copy_point(&points[n]);
    }
    let mid: usize = begin + (end - begin) / 2;
    let pivot: i64 = points[mid][axis];
    let mut i: usize = begin;
    let mut j: usize = begin;
    let mut k: usize = end;
    let ghost mut w: int = mid as int;
    while i < k
        invariant
            begin <= j <= i <= k <= end <= points.len(),
            points.len() == old(points).len(),
            forall|x: int|
                0 <= x < begin || end <= x < points.len() ==> (#[trigger] points@[x]) == old(
                    points,
                )@[x],
            range_points(points@, begin as int, end as int) == range_points(
                old(points)@,
                begin as int,
                end as int,
            ),
            forall|x: int| begin <= x < end ==> axis < (#[trigger] points@[x]).len(),
            forall|x: int| begin <= x < j ==> (#[trigger] points@[x])[axis as int] < pivot,
            forall|x: int| j <= x < i ==> (#[trigger] points@[x])[axis as int] == pivot,
            forall|x: int| k <= x < end ==> (#[trigger] points@[x])[axis as int] > pivot,
            j <= w < k,
            points@[w][axis as int] == pivot,
        decreases k - i,
    {
        let c: i64 = points[i][axis];
        let ghost before = points@;
        if c < pivot {
            swap_rows(points, i, j);
            proof {
                lemma_exchange_in_range(before, points@, begin as int, end as int, i as int, j as int);
                if w == j {
                    w = i as int;
                }
            }
            i += 1;
            j += 1;
        } else if c > pivot {
            k -= 1;
            swap_rows(points, i, k);
            proof {
                lemma_exchange_in_range(before, points@, begin as int, end as int, i as int, k as int);
                if w == k {
                    w = i as int;
                }
            }
        } else {
            i += 1;
        }
    }
    let ghost split = points@;
    if j > n {
        let r = nth_element(points, begin, j, axis, n);
        proof {
            lemma_range_split(split, begin as int, j as int, end as int);
            lemma_range_split(points@, begin as int, j as int, end as int);
            lemma_range_unchanged(split, points@, j as int, end as int);
            lemma_rearranged_keeps_property(
                rows(split).subrange(begin as int, j as int),
                rows(points@).subrange(begin as int, j as int),
                |p: Seq<i64>| p[axis as int] < pivot,
            );
            assert(rows(points@).subrange(begin as int, j as int)[n - begin] == rows(points@)[n as int]);
        }
        r
    } else if n >= k {
        let r = nth_element(points, k, end, axis, n);
        proof {
            lemma_range_split(split, begin as int, k as int, end as int);
            lemma_range_split(points@, begin as int, k as int, end as int);
            lemma_range_unchanged(split, points@, begin as int, k as int);
            lemma_rearranged_keeps_property(
                rows(split).subrange(k as int, end as int),
                rows(points@).subrange(k as int, end as int),
                |p: Seq<i64>| p[axis as int] > pivot,
            );
            assert(rows(points@).subrange(k as int, end as int)[n - k] == rows(points@)[n as int]);
        }
        r
    } else {
        copy_point(&points[n])
    }
}

} // verus!
