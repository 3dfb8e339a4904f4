//! The KD-tree: built once from a collection of points, then queried.

use crate::error::KdError;
use crate::nearest::{is_k_nearest, lemma_kept_is_k_nearest, lemma_nothing_seen};
use crate::node::Node;
use crate::perm::lemma_contained_same_size;
use crate::select::rows;
use crate::topk::TopK;
use vstd::multiset::Multiset;
use vstd::prelude::*;
use vstd::seq_lib::*;

verus! {

/// Whether every point has exactly `dim` coordinates.
pub open spec fn uniform(points: Seq<Seq<i64>>, dim: nat) -> bool {
    forall|i: int| 0 <= i < points.len() ==> (#[trigger] points[i]).len() == dim
}

/// Whether every point has as many coordinates as the first one.
pub fn is_uniform(points: &Vec<Vec<i64>>, dim: usize) -> (b: bool)
    ensures
        b == uniform(rows(points@), dim as nat),
{
    let mut i: usize = 0;
    while i < points.len()
        invariant
            i <= points.len(),
            forall|x: int| 0 <= x < i ==> (#[trigger] rows(points@)[x]).len() == dim,
        decreases points.len() - i,
    {
        if points[i].len() != dim {
            assert(rows(points@)[i as int].len() != dim);
            return false;
        }
        i += 1;
    }
    true
}

/// A KD-tree over points of one dimension: a binary tree whose nodes each
/// hold one point and split the remaining points along an axis that cycles
/// with the depth.  It is immutable once built.
#[derive(Debug)]
pub struct KDTree {
    root: Box<Node>,
}

impl View for KDTree {
    type V = Multiset<Seq<i64>>;

    /// The points stored in the tree, each as often as it is stored.
    closed spec fn view(&self) -> Multiset<Seq<i64>> {
        self.root.points()
    }
}

impl KDTree {
    /// The root splits along the first axis, the whole tree is ordered, and
    /// every split is at the middle.
    #[verifier::type_invariant]
    spec fn ordered(self) -> bool {
        &&& self.root.ordered(0, self.root.dim() as int)
        &&& self.root.halved()
    }

    /// The number of coordinates of every point of the tree.
    pub closed spec fn dim(&self) -> nat {
        self.root.dim()
    }

    /// Builds the tree of the given points.
    ///
    /// The collection is taken over and rearranged while the tree is built.
    /// No point is lost, repeated or invented: the tree stores exactly the
    /// points given, each as often as it was given.  An empty collection is
    /// refused, and so is one whose points do not all have the same positive
    /// number of coordinates.
    pub fn new(points: Vec<Vec<i64>>) -> (r: Result<KDTree, KdError>)
        ensures
            match r {
                Ok(tree) => {
                    &&& points.len() > 0
                    &&& tree.dim() > 0
                    &&& tree.dim() == points@[0].len()
                    &&& uniform(rows(points@), tree.dim())
                    &&& tree@ == rows(points@).to_multiset()
                    &&& tree@.len() == points.len()
                },
                Err(KdError::EmptyInput) => points.len() == 0,
                Err(KdError::DimensionMismatch) => {
                    &&& points.len() > 0
                    &&& !(points@[0].len() > 0 && uniform(rows(points@), points@[0].len() as nat))
                },
            },
    {
        let mut points = points;
        let n = points.len();
        if n == 0 {
            return Err(KdError::EmptyInput);
        }
        let dim = points[0].len();
        if dim == 0 || !is_uniform(&points, dim) {
            return Err(KdError::DimensionMismatch);
        }
        let ghost given = points@;
        assert forall|i: int| 0 <= i < n implies (#[trigger] given[i]).len() == dim by {
            assert(rows(given)[i].len() == dim);
        }
        let built = Node::build(&mut points, 0, n, 0, Ghost(dim as int));
        assert(rows(given).subrange(0, n as int) =~= rows(given));
        proof {
            to_multiset_len(rows(given));
        }
        let root = built.unwrap();
        proof {
            root.lemma_ordered_root(0, dim as int);
        }
        Ok(KDTree { root })
    }

    /// Finds the `k` points of the tree that are nearest to `query` by
    /// Euclidean distance, nearest first.
    ///
    /// A tree of fewer than `k` points yields all of them, and `k = 0`
    /// yields none.  Among points at the same distance from the query any
    /// may be taken.  A query of another dimension than the tree's is
    /// refused.
    pub fn k_nearest(&self, query: &Vec<i64>, k: usize) -> (r: Result<Vec<Vec<i64>>, KdError>)
        ensures
            match r {
                Ok(found) => {
                    &&& query.len() == self.dim()
                    &&& is_k_nearest(self@, query@, k as nat, rows(found@))
                    &&& uniform(rows(found@), self.dim())
                    &&& k >= self@.len() ==> rows(found@).to_multiset() == self@
                },
                Err(e) => e == KdError::DimensionMismatch && query.len() != self.dim(),
            },
    {
        proof {
            use_type_invariant(self);
            self.root.lemma_ordered_root(0, self.root.dim() as int);
        }
        if query.len() != self.root.dimension() {
            return Err(KdError::DimensionMismatch);
        }
        let mut best = TopK::new(k);
        if k > 0 {
            proof {
                lemma_nothing_seen(query@, k as nat);
            }
            self.root.knn_helper(
                query,
                k,
                &mut best,
                0,
                Ghost(query.len() as int),
                Ghost(Multiset::empty()),
            );
            proof {
                broadcast use vstd::multiset::group_multiset_axioms;

                assert(Multiset::<Seq<i64>>::empty().add(self@) =~= self@);
                lemma_kept_is_k_nearest(self@, best@, query@, k as nat);
            }
        }
        let found = best.into_points();
        proof {
            to_multiset_len(rows(found@));
            if k >= self@.len() && k > 0 {
                lemma_contained_same_size(rows(found@).to_multiset(), self@);
            }
            assert forall|i: int| 0 <= i < found.len() implies (#[trigger] rows(found@)[i]).len()
                == self.dim() by {
                let p = rows(found@)[i];
                to_multiset_contains(rows(found@), p);
                assert(rows(found@).contains(p));
                self.root.lemma_points_have_dim(0, self.root.dim() as int, p);
            }
        }
        Ok(found)
    }
}

} // verus!
