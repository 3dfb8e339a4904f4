//! The nodes of a KD-tree and their construction.

use crate::dist::{lemma_sq_dist_bounds_axis, lemma_sq_monotone, sq_dist, sq_distance, Dist};
use crate::nearest::{keeps_nearest, lemma_offer_keeps_nearest, lemma_skip_keeps_nearest};
use crate::perm::lemma_rearranged_keeps_property;
use crate::select::{
    copy_point, lemma_empty_range, lemma_point_in_range, lemma_range_of_one, lemma_range_split,
    lemma_range_unchanged, nth_element, range_points, rows,
};
use crate::topk::{Candidate, TopK};
use vstd::multiset::Multiset;
use vstd::prelude::*;
use vstd::seq_lib::*;

verus! {

/// One node of a KD-tree: a point and the two subtrees that it separates.
/// A node owns its subtrees outright; no node has two parents.
#[derive(Debug)]
pub struct Node {
    pub(crate) left: Option<Box<Node>>,
    pub(crate) point: Vec<i64>,
    pub(crate) right: Option<Box<Node>>,
}

/// The points of a subtree that may be absent.
pub open spec fn subtree_points(tree: Option<Box<Node>>) -> Multiset<Seq<i64>>
    decreases tree,
{
    match tree {
        None => Multiset::empty(),
        Some(node) => node.points(),
    }
}

/// Whether a subtree that may be absent is ordered, see [`Node::ordered`].
pub open spec fn subtree_ordered(tree: Option<Box<Node>>, axis: int, dim: int) -> bool
    decreases tree,
{
    match tree {
        None => true,
        Some(node) => node.ordered(axis, dim),
    }
}

/// Whether a subtree that may be absent is halved, see [`Node::halved`].
pub open spec fn subtree_halved(tree: Option<Box<Node>>) -> bool
    decreases tree,
{
    match tree {
        None => true,
        Some(node) => node.halved(),
    }
}

impl Node {
    /// The points stored in this node and below it, each as often as it is
    /// stored.
    pub closed spec fn points(self) -> Multiset<Seq<i64>>
        decreases self,
    {
        subtree_points(self.left).add(subtree_points(self.right)).insert(self.point@)
    }

    /// The ordering that makes this a KD-tree of `dim`-dimensional points
    /// whose root splits along `axis`: along that axis no point on the left
    /// lies beyond the node's own point and none on the right lies before
    /// it, and the subtrees are ordered likewise along the next axis.
    pub closed spec fn ordered(self, axis: int, dim: int) -> bool
        decreases self,
    {
        &&& 0 <= axis < dim
        &&& self.point@.len() == dim
        &&& forall|p: Seq<i64>| #[trigger]
            subtree_points(self.left).count(p) > 0 ==> p.len() == dim && p[axis]
                <= self.point@[axis]
        &&& forall|p: Seq<i64>| #[trigger]
            subtree_points(self.right).count(p) > 0 ==> p.len() == dim && self.point@[axis]
                <= p[axis]
        &&& subtree_ordered(self.left, (axis + 1) % dim, dim)
        &&& subtree_ordered(self.right, (axis + 1) % dim, dim)
    }

    /// The split at every node is at the middle: of the points of a subtree
    /// half, rounded down, are on the left of its root, and the others but
    /// the root's own are on the right.  With the ordering this makes each
    /// node's point a median of its subtree along the node's axis.
    pub closed spec fn halved(self) -> bool
        decreases self,
    {
        &&& subtree_points(self.left).len() == self.points().len() / 2
        &&& subtree_halved(self.left)
        &&& subtree_halved(self.right)
    }

    /// The number of coordinates of the node's own point.
    pub closed spec fn dim(self) -> nat {
        self.point@.len()
    }

    /// The number of coordinates of the node's own point.
    pub(crate) fn dimension(&self) -> (d: usize)
        ensures
            d == self.dim(),
    {
        self.point.len()
    }

    /// The root of an ordered tree has the tree's dimension, and the axis
    /// along which it splits is one of its axes.
    pub proof fn lemma_ordered_root(self, axis: int, dim: int)
        requires
            self.ordered(axis, dim),
        ensures
            0 <= axis < dim,
            self.dim() == dim,
    {
    }

    /// Every point of an ordered tree has the tree's dimension.
    pub proof fn lemma_points_have_dim(self, axis: int, dim: int, p: Seq<i64>)
        requires
            self.ordered(axis, dim),
            self.points().count(p) > 0,
        ensures
            p.len() == dim,
    {
        broadcast use vstd::multiset::group_multiset_axioms;

        if p != self.point@ {
            assert(subtree_points(self.left).count(p) > 0 || subtree_points(self.right).count(p)
                > 0);
        }
    }

    /// Builds the subtree of the points at `begin..end`, splitting along
    /// `axis` at its root, or nothing if the range is empty.
    ///
    /// The median of the range along `axis` is selected in place and becomes
    /// the root; the points before it form the left subtree and those after
    /// it the right one, both split along the next axis.  The points of the
    /// range are rearranged and all others left alone.
    pub(crate) fn build(
        points: &mut Vec<Vec<i64>>,
        begin: usize,
        end: usize,
        axis: usize,
        Ghost(dim): Ghost<int>,
    ) -> (tree: Option<Box<Node>>)
        requires
            begin <= end <= old(points).len(),
            0 <= axis < dim,
            forall|i: int| begin <= i < end ==> (#[trigger] old(points)@[i]).len() == dim,
        ensures
            final(points).len() == old(points).len(),
            forall|i: int|
                0 <= i < begin || end <= i < old(points).len() ==> (#[trigger] final(points)@[i])
                    == old(points)@[i],
            range_points(final(points)@, begin as int, end as int) == range_points(
                old(points)@,
                begin as int,
                end as int,
            ),
            tree is None <==> begin == end,
            subtree_points(tree) == range_points(old(points)@, begin as int, end as int),
            subtree_ordered(tree, axis as int, dim),
            subtree_halved(tree),
        decreases end - begin,
    {
        if begin >= end {
            proof {
                lemma_empty_range(points@, begin as int);
            }
            return None;
        }
        let mid: usize = begin + (end - begin) / 2;
        let median = nth_element(points, begin, end, axis, mid);
        let ghost selected = points@;
        proof {
            lemma_rearranged_keeps_property(
                rows(old(points)@).subrange(begin as int, end as int),
                rows(selected).subrange(begin as int, end as int),
                |p: Seq<i64>| p.len() == dim,
            );
            assert forall|i: int| begin <= i < end implies (#[trigger] selected[i]).len()
                == dim by {
                assert(rows(selected).subrange(begin as int, end as int)[i - begin] == selected[i]@);
            }
        }
        let next: usize = (axis + 1) % median.len();
        let left = Node::build(points, begin, mid, next, Ghost(dim));
        let ghost halfway = points@;
        let right = Node::build(points, mid + 1, end, next, Ghost(dim));
        let node = Node { left, point: median, right };
        proof {
            broadcast use vstd::multiset::group_multiset_axioms;

            let b = begin as int;
            let m = mid as int;
            let e = end as int;
            lemma_range_unchanged(selected, halfway, m + 1, e);
            lemma_range_unchanged(selected, halfway, m, m + 1);
            lemma_range_unchanged(halfway, points@, b, m);
            lemma_range_unchanged(halfway, points@, m, m + 1);
            lemma_range_split(selected, b, m, e);
            lemma_range_split(selected, m, m + 1, e);
            lemma_range_split(points@, b, m, e);
            lemma_range_split(points@, m, m + 1, e);
            lemma_range_of_one(selected, m);
            assert forall|p: Seq<i64>| #[trigger]
                subtree_points(node.left).count(p) > 0 implies p.len() == dim && p[axis as int]
                <= node.point@[axis as int] by {
                let i = lemma_point_in_range(selected, b, m, p);
                assert(rows(selected)[i] == p);
            }
            assert forall|p: Seq<i64>| #[trigger]
                subtree_points(node.right).count(p) > 0 implies p.len() == dim
                && node.point@[axis as int] <= p[axis as int] by {
                let i = lemma_point_in_range(selected, m + 1, e, p);
                assert(rows(selected)[i] == p);
            }
            assert(node.points() =~= range_points(selected, b, e));
            to_multiset_len(rows(selected).subrange(b, m));
            to_multiset_len(rows(selected).subrange(b, e));
        }
        Some(Box::new(node))
    }

    /// Searches this subtree, which splits along `axis` at its root, for
    /// points nearer to `query` than those that `best` holds.
    ///
    /// The side of the splitting plane on which the query lies is searched
    /// first, then the node's own point is offered.  The other side is
    /// searched only if the buffer is not full yet or its farthest candidate
    /// is farther from the query than the splitting plane is: otherwise
    /// nothing behind the plane can be nearer than what is already kept.
    /// A node without subtrees only offers its point.  No node is reached
    /// twice, since no node has two parents, so no record of the nodes
    /// visited is kept.
    pub(crate) fn knn_helper(
        &self,
        query: &Vec<i64>,
        k: usize,
        best: &mut TopK,
        axis: usize,
        Ghost(dim): Ghost<int>,
        Ghost(seen): Ghost<Multiset<Seq<i64>>>,
    )
        requires
            self.ordered(axis as int, dim),
            query.len() == dim,
            k >= 1,
            old(best).wf(),
            old(best).capacity() == k,
            keeps_nearest(seen, old(best)@, query@, k as nat),
        ensures
            final(best).wf(),
            final(best).capacity() == k,
            keeps_nearest(seen.add(self.points()), final(best)@, query@, k as nat),
        decreases self,
    {
        broadcast use vstd::multiset::group_multiset_axioms;

        let here = Candidate { dist: sq_distance(&self.point, query), point: copy_point(&self.point) };
        if self.left.is_none() && self.right.is_none() {
            proof {
                lemma_offer_keeps_nearest(seen, best@, query@, k as nat, here@);
                assert(seen.add(self.points()) =~= seen.insert(self.point@));
            }
            best.push(here);
        } else {
            let next: usize = (axis + 1) % self.point.len();
            let go_left: bool = query[axis] < self.point[axis];
            let (near, far) = if go_left {
                (&self.left, &self.right)
            } else {
                (&self.right, &self.left)
            };
            let ghost seen_near = seen.add(subtree_points(*near));
            if let Some(child) = near {
                child.knn_helper(query, k, best, next, Ghost(dim), Ghost(seen));
            } else {
                assert(seen_near =~= seen);
            }
            proof {
                lemma_offer_keeps_nearest(seen_near, best@, query@, k as nat, here@);
            }
            best.push(here);
            let ghost seen_here = seen_near.insert(self.point@);
            assert(seen.add(self.points()) =~= seen_here.add(subtree_points(*far)));
            let gap = Dist::zero().add_square(self.point[axis], query[axis]);
            let explore = best.len() < k || match best.worst() {
                Some(worst) => gap.lt(&worst),
                None => true,
            };
            if explore {
                if let Some(child) = far {
                    child.knn_helper(query, k, best, next, Ghost(dim), Ghost(seen_here));
                } else {
                    assert(seen_here.add(subtree_points(*far)) =~= seen_here);
                }
            } else {
                proof {
                    let a = axis as int;
                    assert forall|p: Seq<i64>| #[trigger]
                        subtree_points(*far).count(p) > 0 implies best@.last().0 <= sq_dist(
                        p,
                        query@,
                    ) by {
                        lemma_sq_monotone(self.point@[a] - query@[a], p[a] - query@[a]);
                        lemma_sq_dist_bounds_axis(p, query@, dim, a);
                    }
                    lemma_skip_keeps_nearest(
                        seen_here,
                        best@,
                        query@,
                        k as nat,
                        subtree_points(*far),
                    );
                }
            }
        }
    }
}

} // verus!
