//! What follows for every tree and every query from the contracts of
//! [`KDTree::new`](crate::tree::KDTree::new) and
//! [`KDTree::k_nearest`](crate::tree::KDTree::k_nearest).

use crate::dist::sq_dist;
use crate::nearest::is_k_nearest;
use crate::perm::{
    lemma_contained_same_size, lemma_rearranged_keeps_images, lemma_update_to_multiset,
};
use vstd::multiset::Multiset;
use vstd::prelude::*;
use vstd::seq_lib::*;

verus! {

/// The squared distances from `q` of the points listed, in the same order.
pub open spec fn distances(found: Seq<Seq<i64>>, q: Seq<i64>) -> Seq<nat> {
    Seq::new(found.len(), |i: int| sq_dist(found[i], q))
}

/// Asking for no neighbour yields none, and asking for at least as many as
/// there are points yields every point, each as often as it is stored.
pub proof fn lemma_degenerate_k(
    all: Multiset<Seq<i64>>,
    q: Seq<i64>,
    k: nat,
    found: Seq<Seq<i64>>,
)
    requires
        is_k_nearest(all, q, k, found),
    ensures
        k == 0 ==> found.len() == 0,
        k >= all.len() ==> found.to_multiset() == all,
{
    if k >= all.len() {
        to_multiset_len(found);
        lemma_contained_same_size(found.to_multiset(), all);
    }
}

/// A tree of one point answers every query for at least one neighbour with
/// that point.
pub proof fn lemma_single_point(
    given: Seq<Seq<i64>>,
    q: Seq<i64>,
    k: nat,
    found: Seq<Seq<i64>>,
)
    requires
        given.len() == 1,
        k >= 1,
        is_k_nearest(given.to_multiset(), q, k, found),
    ensures
        found == given,
{
    to_multiset_len(given);
    lemma_degenerate_k(given.to_multiset(), q, k, found);
    to_multiset_len(found);
    to_multiset_contains(found, found[0]);
    to_multiset_contains(given, found[0]);
    assert(found.contains(found[0]));
    assert(found =~= given);
}

/// A point given several times is found as many times, once enough
/// neighbours are asked for: equal points are not merged.
pub proof fn lemma_duplicates_preserved(
    given: Seq<Seq<i64>>,
    q: Seq<i64>,
    k: nat,
    found: Seq<Seq<i64>>,
    p: Seq<i64>,
)
    requires
        is_k_nearest(given.to_multiset(), q, k, found),
        k >= given.len(),
    ensures
        found.to_multiset().count(p) == given.to_multiset().count(p),
        found.len() == given.len(),
{
    to_multiset_len(given);
    lemma_degenerate_k(given.to_multiset(), q, k, found);
}

/// The distances of the `k` nearest neighbours are determined by the points
/// and the query: whatever lists of `k` nearest neighbours there are, among
/// them the one that comparing the query with every point gives, all show
/// the same distances in the same order.  Only between points at the same
/// distance is there a choice.
pub proof fn lemma_distances_determined(
    all: Multiset<Seq<i64>>,
    q: Seq<i64>,
    k: nat,
    a: Seq<Seq<i64>>,
    b: Seq<Seq<i64>>,
)
    requires
        is_k_nearest(all, q, k, a),
        is_k_nearest(all, q, k, b),
    ensures
        distances(a, q) == distances(b, q),
    decreases a.to_multiset().sub(b.to_multiset()).len(),
{
    broadcast use vstd::multiset::group_multiset_axioms;

    let in_a = a.to_multiset();
    let in_b = b.to_multiset();
    to_multiset_len(a);
    to_multiset_len(b);
    if in_a.sub(in_b).len() == 0 {
        assert forall|v: Seq<i64>| in_a.count(v) <= in_b.count(v) by {
            assert(in_a.sub(in_b).count(v) <= in_a.sub(in_b).len());
        }
        lemma_contained_same_size(in_a, in_b);
        let to_q = |p: Seq<i64>| sq_dist(p, q);
        lemma_rearranged_keeps_images(a, b, to_q);
        assert(distances(a, q) =~= a.map_values(to_q));
        assert(distances(b, q) =~= b.map_values(to_q));
        let leq = |x: nat, y: nat| x <= y;
        let da = distances(a, q);
        let db = distances(b, q);
        assert(vstd::relations::sorted_by(da, leq)) by {
            assert forall|i: int, j: int| 0 <= i < j < da.len() implies #[trigger] leq(
                da[i],
                da[j],
            ) by {
                assert(sq_dist(a[i], q) <= sq_dist(a[j], q));
            }
        }
        assert(vstd::relations::sorted_by(db, leq)) by {
            assert forall|i: int, j: int| 0 <= i < j < db.len() implies #[trigger] leq(
                db[i],
                db[j],
            ) by {
                assert(sq_dist(b[i], q) <= sq_dist(b[j], q));
            }
        }
        assert(vstd::relations::total_ordering(leq));
        lemma_sorted_unique(da, db, leq);
    } else {
        // Some point is taken more often by `a` than by `b`, and some other
        // point more often by `b` than by `a`.  Each is left out by the other
        // list, so neither is nearer than the other: the two are at the same
        // distance, and `a` may take the second in place of the first.
        let p = in_a.sub(in_b).choose();
        assert(in_a.sub(in_b).count(p) > 0);
        assert(in_a.count(p) > in_b.count(p));
        if in_b.subset_of(in_a) {
            lemma_contained_same_size(in_b, in_a);
        }
        let r = choose|r: Seq<i64>| in_b.count(r) > in_a.count(r);
        to_multiset_contains(a, p);
        to_multiset_contains(b, r);
        let i = choose|i: int| 0 <= i < a.len() && a[i] == p;
        let j = choose|j: int| 0 <= j < b.len() && b[j] == r;
        assert(all.count(p) > in_b.count(p));
        assert(all.count(r) > in_a.count(r));
        assert(sq_dist(b[j], q) <= sq_dist(p, q));
        assert(sq_dist(a[i], q) <= sq_dist(r, q));
        let c = a.update(i, r);
        let in_c = c.to_multiset();
        lemma_update_to_multiset(a, i, r);
        assert(distances(c, q) =~= distances(a, q));
        assert(is_k_nearest(all, q, k, c)) by {
            assert forall|x: int, y: int| 0 <= x <= y < c.len() implies sq_dist(
                #[trigger] c[x],
                q,
            ) <= sq_dist(#[trigger] c[y], q) by {
                assert(distances(c, q)[x] == distances(a, q)[x]);
                assert(distances(c, q)[y] == distances(a, q)[y]);
                assert(sq_dist(a[x], q) <= sq_dist(a[y], q));
            }
            assert forall|v: Seq<i64>, x: int|
                #![trigger all.count(v), c[x]]
                0 <= x < c.len() && all.count(v) > in_c.count(v) implies sq_dist(c[x], q)
                <= sq_dist(v, q) by {
                assert(distances(c, q)[x] == distances(a, q)[x]);
                if v == p {
                    assert(sq_dist(a[x], q) <= sq_dist(r, q));
                } else {
                    assert(all.count(v) > in_a.count(v));
                    assert(sq_dist(a[x], q) <= sq_dist(v, q));
                }
            }
        }
        assert(in_c.sub(in_b) =~= in_a.sub(in_b).remove(p));
        lemma_distances_determined(all, q, k, c, b);
    }
}

} // verus!
