//! What it means to hold the nearest points, and why offering candidates to
//! a bounded buffer and skipping far subtrees preserves it.

use crate::dist::sq_dist;
use crate::perm::lemma_contained_same_size;
use crate::topk::{ascending, lemma_offered_ascending, lemma_slot_for, offered, points_of, slot_for};
use vstd::multiset::Multiset;
use vstd::prelude::*;
use vstd::seq_lib::*;

verus! {

/// The smaller of two numbers.
pub open spec fn at_most(a: nat, b: nat) -> nat {
    if a <= b {
        a
    } else {
        b
    }
}

/// Whether `found` lists `k` nearest neighbours of `q` among the points
/// `all`, nearest first: it holds `k` of the points, or all of them if there
/// are fewer; it takes no point more often than `all` holds it; and no point
/// left out is nearer to `q` than a point taken.
pub open spec fn is_k_nearest(
    all: Multiset<Seq<i64>>,
    q: Seq<i64>,
    k: nat,
    found: Seq<Seq<i64>>,
) -> bool {
    &&& found.len() == at_most(k, all.len())
    &&& found.to_multiset().subset_of(all)
    &&& forall|i: int, j: int|
        0 <= i <= j < found.len() ==> sq_dist(#[trigger] found[i], q) <= sq_dist(
            #[trigger] found[j],
            q,
        )
    &&& forall|p: Seq<i64>, i: int|
        #![trigger all.count(p), found[i]]
        0 <= i < found.len() && all.count(p) > found.to_multiset().count(p) ==> sq_dist(
            found[i],
            q,
        ) <= sq_dist(p, q)
}

/// Whether each candidate carries the squared distance of its point from `q`.
pub open spec fn faithful(h: Seq<(nat, Seq<i64>)>, q: Seq<i64>) -> bool {
    forall|i: int| 0 <= i < h.len() ==> (#[trigger] h[i]).0 == sq_dist(h[i].1, q)
}

/// The state of a search that has dealt with the points `seen`, by offering
/// them or by skipping them, and holds the candidates `h` in a buffer of
/// capacity `k`: the buffer is as full as `seen` allows, holds only points
/// of `seen`, and every point of `seen` that it does not hold is at least as
/// far from `q` as the farthest candidate.
pub open spec fn keeps_nearest(
    seen: Multiset<Seq<i64>>,
    h: Seq<(nat, Seq<i64>)>,
    q: Seq<i64>,
    k: nat,
) -> bool {
    &&& ascending(h)
    &&& faithful(h, q)
    &&& h.len() == at_most(k, seen.len())
    &&& points_of(h).to_multiset().subset_of(seen)
    &&& forall|p: Seq<i64>| #[trigger]
        seen.count(p) > points_of(h).to_multiset().count(p) ==> h.len() > 0 && h.last().0
            <= sq_dist(p, q)
}

/// A search that has seen nothing holds nothing.
pub proof fn lemma_nothing_seen(q: Seq<i64>, k: nat)
    ensures
        keeps_nearest(Multiset::empty(), Seq::empty(), q, k),
{
    broadcast use vstd::multiset::group_multiset_axioms;

    let none = points_of(Seq::<(nat, Seq<i64>)>::empty());
    to_multiset_len(none);
    assert(none.to_multiset() =~= Multiset::empty());
}

/// Offering a point to the buffer accounts for that point.
pub proof fn lemma_offer_keeps_nearest(
    seen: Multiset<Seq<i64>>,
    h: Seq<(nat, Seq<i64>)>,
    q: Seq<i64>,
    k: nat,
    c: (nat, Seq<i64>),
)
    requires
        keeps_nearest(seen, h, q, k),
        c.0 == sq_dist(c.1, q),
        k >= 1,
    ensures
        keeps_nearest(seen.insert(c.1), offered(h, c, k), q, k),
{
    broadcast use vstd::multiset::group_multiset_axioms;

    lemma_slot_for(h, c.0);
    lemma_offered_ascending(h, c, k);
    let pos = slot_for(h, c.0);
    let grown = h.insert(pos, c);
    let kept = offered(h, c, k);
    let held = points_of(h).to_multiset();
    assert(points_of(grown) =~= points_of(h).insert(pos, c.1));
    to_multiset_insert(points_of(h), pos, c.1);
    to_multiset_len(points_of(h));
    assert(faithful(grown, q)) by {
        assert forall|i: int| 0 <= i < grown.len() implies (#[trigger] grown[i]).0 == sq_dist(
            grown[i].1,
            q,
        ) by {
            if i < pos {
                assert(grown[i] == h[i]);
            } else if i > pos {
                assert(grown[i] == h[i - 1]);
            }
        }
    }
    if h.len() < k {
        assert(kept == grown);
        lemma_contained_same_size(held, seen);
    } else {
        let last = k as int;
        let out = grown[last];
        assert(kept =~= grown.remove(last));
        assert(points_of(kept) =~= points_of(grown).remove(last));
        to_multiset_remove(points_of(grown), last);
        assert(points_of(grown)[last] == out.1);
        assert(points_of(grown).to_multiset().count(out.1) > 0) by {
            to_multiset_contains(points_of(grown), out.1);
            assert(points_of(grown).contains(out.1));
        }
        assert(faithful(kept, q)) by {
            assert forall|i: int| 0 <= i < kept.len() implies (#[trigger] kept[i]).0 == sq_dist(
                kept[i].1,
                q,
            ) by {
                assert(kept[i] == grown[i]);
            }
        }
        assert(kept.last() == grown[last - 1]);
        assert(grown[last - 1].0 <= grown[last].0);
        assert(grown[last - 1].0 <= h.last().0) by {
            if pos == last {
                assert(grown[last - 1] == h[last - 1]);
            } else if pos == last - 1 {
                assert(h[pos].0 > c.0);
            } else {
                assert(grown[last - 1] == h[last - 2]);
            }
        }
        assert forall|p: Seq<i64>| #[trigger]
            seen.insert(c.1).count(p) > points_of(kept).to_multiset().count(p) implies kept.len()
            > 0 && kept.last().0 <= sq_dist(p, q) by {
            if p != out.1 {
                assert(seen.count(p) > held.count(p));
            }
        }
    }
}

/// Skipping points that are all at least as far as the farthest candidate
/// of a full buffer accounts for those points.
pub proof fn lemma_skip_keeps_nearest(
    seen: Multiset<Seq<i64>>,
    h: Seq<(nat, Seq<i64>)>,
    q: Seq<i64>,
    k: nat,
    far: Multiset<Seq<i64>>,
)
    requires
        keeps_nearest(seen, h, q, k),
        h.len() == k,
        k >= 1,
        forall|p: Seq<i64>| #[trigger] far.count(p) > 0 ==> h.last().0 <= sq_dist(p, q),
    ensures
        keeps_nearest(seen.add(far), h, q, k),
{
    broadcast use vstd::multiset::group_multiset_axioms;

    assert forall|p: Seq<i64>| #[trigger]
        seen.add(far).count(p) > points_of(h).to_multiset().count(p) implies h.len() > 0
        && h.last().0 <= sq_dist(p, q) by {
        if far.count(p) == 0 {
            assert(seen.count(p) > points_of(h).to_multiset().count(p));
        }
    }
}

/// When every point has been dealt with, the buffer lists the nearest ones.
pub proof fn lemma_kept_is_k_nearest(
    all: Multiset<Seq<i64>>,
    h: Seq<(nat, Seq<i64>)>,
    q: Seq<i64>,
    k: nat,
)
    requires
        keeps_nearest(all, h, q, k),
    ensures
        is_k_nearest(all, q, k, points_of(h)),
{
    let found = points_of(h);
    assert forall|i: int, j: int| 0 <= i <= j < found.len() implies sq_dist(
        #[trigger] found[i],
        q,
    ) <= sq_dist(#[trigger] found[j], q) by {
        assert(h[i].0 <= h[j].0);
    }
    assert forall|p: Seq<i64>, i: int|
        #![trigger all.count(p), found[i]]
        0 <= i < found.len() && all.count(p) > found.to_multiset().count(p) implies sq_dist(
        found[i],
        q,
    ) <= sq_dist(p, q) by {
        assert(h[i].0 <= h.last().0);
    }
}

} // verus!
