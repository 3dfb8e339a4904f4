//! Rearrangements of sequences, stated over the multisets of their items.

use vstd::multiset::Multiset;
use vstd::prelude::*;
use vstd::seq_lib::*;

verus! {

/// `s` with the items at `i` and `j` exchanged.
pub open spec fn exchanged<A>(s: Seq<A>, i: int, j: int) -> Seq<A> {
    s.update(i, s[j]).update(j, s[i])
}

/// Overwriting one item of a sequence removes the old item from its
/// multiset and adds the new one.
pub proof fn lemma_update_to_multiset<A>(s: Seq<A>, i: int, v: A)
    requires
        0 <= i < s.len(),
    ensures
        s.update(i, v).to_multiset() =~= s.to_multiset().remove(s[i]).insert(v),
{
    broadcast use group_to_multiset_ensures;

    assert(s.update(i, v) =~= s.remove(i).insert(i, v));
    to_multiset_remove(s, i);
    to_multiset_insert(s.remove(i), i, v);
}

/// Exchanging two items of a sequence keeps its multiset.
pub proof fn lemma_exchange_keeps_multiset<A>(s: Seq<A>, i: int, j: int)
    requires
        0 <= i < s.len(),
        0 <= j < s.len(),
    ensures
        exchanged(s, i, j).to_multiset() =~= s.to_multiset(),
{
    broadcast use vstd::multiset::group_multiset_axioms;

    let t = s.update(i, s[j]);
    lemma_update_to_multiset(s, i, s[j]);
    lemma_update_to_multiset(t, j, s[i]);
    to_multiset_contains(s, s[i]);
    to_multiset_contains(s, s[j]);
    assert(s.contains(s[i]));
    assert(s.contains(s[j]));
}

/// What holds of every item of a sequence holds of every item of any
/// rearrangement of it.
pub proof fn lemma_rearranged_keeps_property<A>(a: Seq<A>, b: Seq<A>, pred: spec_fn(A) -> bool)
    requires
        a.to_multiset() == b.to_multiset(),
        forall|i: int| 0 <= i < a.len() ==> pred(#[trigger] a[i]),
    ensures
        forall|i: int| 0 <= i < b.len() ==> pred(#[trigger] b[i]),
{
    assert forall|i: int| 0 <= i < b.len() implies pred(#[trigger] b[i]) by {
        to_multiset_contains(b, b[i]);
        to_multiset_contains(a, b[i]);
        assert(b.contains(b[i]));
        let j = choose|j: int| 0 <= j < a.len() && a[j] == b[i];
        assert(pred(a[j]));
    }
}

/// Applying one function to every item of two rearrangements of the same
/// items gives two rearrangements of the same images.
pub proof fn lemma_rearranged_keeps_images<A, B>(a: Seq<A>, b: Seq<A>, f: spec_fn(A) -> B)
    requires
        a.to_multiset() == b.to_multiset(),
    ensures
        a.map_values(f).to_multiset() == b.map_values(f).to_multiset(),
    decreases a.len(),
{
    broadcast use vstd::multiset::group_multiset_axioms;

    to_multiset_len(a);
    to_multiset_len(b);
    let fa = a.map_values(f);
    let fb = b.map_values(f);
    if a.len() == 0 {
        assert(fa =~= fb);
    } else {
        let x = a.last();
        let last = a.len() - 1;
        to_multiset_contains(a, x);
        to_multiset_contains(b, x);
        assert(a.contains(x));
        let j = choose|j: int| 0 <= j < b.len() && b[j] == x;
        to_multiset_remove(a, last);
        to_multiset_remove(b, j);
        lemma_rearranged_keeps_images(a.remove(last), b.remove(j), f);
        assert(a.remove(last).map_values(f) =~= fa.remove(last));
        assert(b.remove(j).map_values(f) =~= fb.remove(j));
        to_multiset_remove(fa, last);
        to_multiset_remove(fb, j);
        to_multiset_contains(fa, fa[last]);
        to_multiset_contains(fb, fb[j]);
        assert(fa.contains(fa[last]));
        assert(fb.contains(fb[j]));
        assert(fa[last] == f(x));
        assert(fb[j] == f(x));
        assert(fa.to_multiset() =~= fa.remove(last).to_multiset().insert(fa[last]));
        assert(fb.to_multiset() =~= fb.remove(j).to_multiset().insert(fb[j]));
    }
}

/// A multiset contained in another of the same size is that other one.
pub proof fn lemma_contained_same_size<A>(a: Multiset<A>, b: Multiset<A>)
    requires
        a.subset_of(b),
        a.len() == b.len(),
    ensures
        a =~= b,
{
    broadcast use vstd::multiset::group_multiset_axioms;

    assert(b.sub(a).len() == 0);
    assert forall|v: A| a.count(v) == b.count(v) by {
        assert(b.sub(a).count(v) <= b.sub(a).len());
    }
}

} // verus!
