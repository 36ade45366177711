//! The index façade: validate dimensions once at construction and per
//! query, build the tree, and answer the two query operations.
//!
//! A `BallTree` is a space-partitioning structure for finding nearest
//! neighbours in sub-linear expected time: nested bounding spheres make
//! it cheap to bound the distance from a query point to a whole subtree
//! (distance to the sphere's center minus its radius), so candidates
//! inside a sphere that is already too far need never be examined.

use vstd::prelude::*;

use crate::batch::PointBatch;
use crate::batch::batch_ncols;
use crate::batch::batch_rows;
use crate::distance::Distance;
use crate::distance::L2Dist;
use crate::errors::BuildError;
use crate::errors::NnError;
use crate::points::lemma_pigeonhole;
use crate::points::range_idxs;
use crate::points::rows_wf;
use crate::points::views_of;
use crate::query::nn_helper;
use crate::query::query_post;
use crate::query::rd_of;
use crate::tree::Node;
use crate::tree::build_node;
use crate::tree::leaf_bounds;
use crate::tree::node_pts;
use crate::tree::node_wf;

verus! {

/// An immutable spatial index over a batch of fixed-dimension points.
/// Built once from a batch; query results are indices of rows of that
/// batch, so callers can relate them to any associated labels.
pub struct BallTree<D: Distance = L2Dist> {
    points: Vec<Vec<i32>>,
    nodes: Vec<Node>,
    root: usize,
    dist: D,
    dim: usize,
    len: usize,
}

impl<D: Distance> BallTree<D> {
    /// The indexed points, as sequences of coordinates.
    pub closed spec fn pts(&self) -> Seq<Seq<i32>> {
        views_of(self.points@)
    }

    /// The fixed dimensionality of the index.
    pub closed spec fn spec_dim(&self) -> int {
        self.dim as int
    }

    /// The number of indexed points.
    pub closed spec fn spec_len(&self) -> int {
        self.points@.len() as int
    }

    /// Every leaf of the tree holds at most `cap` points: construction
    /// with a leaf-size threshold never overfills a leaf.
    pub closed spec fn leaves_within(&self, cap: int) -> bool {
        leaf_bounds(self.nodes@, self.root as int, cap)
    }

    /// Well-formedness: every row has the index's dimensionality, the
    /// tree's spheres really bound their subtrees (each node's radius is
    /// exactly the farthest reduced distance from its center, leaf
    /// centers are centroids, branch centers are partition medians from
    /// their own subtree), and the leaves hold exactly the batch's row
    /// indices.
    pub closed spec fn wf(&self) -> bool {
        &&& self.dim >= 1
        &&& rows_wf(self.pts(), self.dim as nat)
        &&& self.points@.len() == self.len
        &&& node_wf::<D>(self.pts(), self.nodes@, self.root as int, self.dim as nat)
        &&& node_pts(self.nodes@, self.root as int).to_multiset() == range_idxs(
            self.points@.len() as int,
        ).to_multiset()
    }

    /// Build an index over `batch` with the given leaf-size threshold and
    /// distance function.  Fails exactly when the batch has zero columns;
    /// zero rows yield a valid, empty index.
    pub fn new(batch: &PointBatch, leaf_size: usize, dist_fn: D) -> (r: Result<
        BallTree<D>,
        BuildError,
    >)
        requires
            leaf_size >= 1,
        ensures
            match r {
                Ok(t) => {
                    &&& batch_ncols(*batch) >= 1
                    &&& t.wf()
                    &&& t.leaves_within(leaf_size as int)
                    &&& t.pts() == batch_rows(*batch)
                    &&& t.spec_dim() == batch_ncols(*batch)
                    &&& t.spec_len() == batch_rows(*batch).len()
                },
                Err(e) => e == BuildError::ZeroDimension && batch_ncols(*batch) == 0,
            },
    {
        let dim = batch.ncols();
        let n = batch.nrows();
        if dim == 0 {
            return Err(BuildError::ZeroDimension);
        }
        let mut points: Vec<Vec<i32>> = Vec::new();
        let mut i: usize = 0;
        while i < n
            invariant
                0 <= i <= n,
                n as int == batch_rows(*batch).len(),
                points@.len() == i,
                forall|j: int| 0 <= j < i ==> (#[trigger] points@[j])@ == batch_rows(*batch)[j],
            decreases n - i,
        {
            let row = batch.row(i);
            points.push(row);
            i = i + 1;
        }
        let mut idxs: Vec<usize> = Vec::new();
        let mut i2: usize = 0;
        while i2 < n
            invariant
                0 <= i2 <= n,
                idxs@.len() == i2,
                forall|j: int| 0 <= j < i2 ==> (#[trigger] idxs@[j]) == j as usize,
            decreases n - i2,
        {
            idxs.push(i2);
            i2 = i2 + 1;
        }
        proof {
            assert(views_of(points@) =~= batch_rows(*batch)) by {
                assert forall|j: int|
                    0 <= j < points@.len() implies views_of(points@)[j] == batch_rows(*batch)[j] by {
                    assert(views_of(points@)[j] == points@[j]@);
                }
            }
            assert(rows_wf(views_of(points@), dim as nat)) by {
                assert forall|j: int|
                    0 <= j < views_of(points@).len() implies (#[trigger] views_of(points@)[j]).len()
                    == dim as nat by {
                    assert(batch_rows(*batch)[j].len() == batch_ncols(*batch));
                }
            }
            crate::points::lemma_range_idxs(n as int);
            assert(idxs@ =~= range_idxs(n as int));
        }
        let mut nodes: Vec<Node> = Vec::new();
        let root = build_node(&points, idxs, leaf_size, dim, &dist_fn, &mut nodes);
        Ok(BallTree { points, nodes, root, dist: dist_fn, dim, len: n })
    }

    /// The number of indexed points.
    pub fn len(&self) -> (n: usize)
        requires
            self.wf(),
        ensures
            n as int == self.spec_len(),
    {
        self.len
    }

    /// The fixed dimensionality of the index.
    pub fn dim(&self) -> (d: usize)
        requires
            self.wf(),
        ensures
            d as int == self.spec_dim(),
    {
        self.dim
    }

    /// The `k` nearest indexed points to `point`, nearest first.  Fails
    /// exactly when `point` has the wrong dimensionality; an empty index
    /// answers with an empty sequence.
    pub fn k_nearest(&self, point: &Vec<i32>, k: usize) -> (r: Result<Vec<usize>, NnError>)
        requires
            self.wf(),
        ensures
            match r {
                Ok(res) => {
                    &&& point@.len() == self.spec_dim()
                    &&& query_post::<D>(self.pts(), point@, k as int, u128::MAX as int, res@)
                    &&& forall|j: usize|
                        #![trigger res@.contains(j)]
                        (j as int) < self.spec_len() && !res@.contains(j) ==> res@.len() == k as int
                            && (k == 0 || rd_of::<D>(self.pts(), point@, j) >= rd_of::<D>(
                            self.pts(),
                            point@,
                            res@[k - 1],
                        ))
                    &&& self.spec_len() == 0 ==> res@.len() == 0
                },
                Err(e) => e == NnError::WrongDimension && point@.len() != self.spec_dim(),
            },
    {
        if point.len() != self.dim {
            return Err(NnError::WrongDimension);
        }
        let res = nn_helper(
            &self.points,
            &self.nodes,
            self.root,
            &self.dist,
            point,
            k,
            u128::MAX,
            Ghost(self.dim as nat),
        );
        proof {
            // nothing is ever beyond the unreachable cap, so the only way
            // to be left out is a full result of closer points
            assert forall|j: usize|
                #![trigger res@.contains(j)]
                (j as int) < self.spec_len() && !res@.contains(j) implies res@.len() == k as int && (
            k == 0 || rd_of::<D>(self.pts(), point@, j) >= rd_of::<D>(
                self.pts(),
                point@,
                res@[k - 1],
            )) by {
                D::lemma_rdist_fits(point@, self.pts()[j as int]);
                assert(rd_of::<D>(self.pts(), point@, j) < u128::MAX as int);
                assert(!(rd_of::<D>(self.pts(), point@, j) > u128::MAX as int));
            }
            if self.spec_len() == 0 && res@.len() > 0 {
                assert((res@[0] as int) < 0);
            }
        }
        Ok(res)
    }

    /// All indexed points whose distance to `point` is at most `range`,
    /// nearest first: exactly the points whose reduced distance is at
    /// most the reduced form of `range`.  Fails exactly when `point` has
    /// the wrong dimensionality; an empty index answers with an empty
    /// sequence.
    pub fn within_range(&self, point: &Vec<i32>, range: u64) -> (r: Result<Vec<usize>, NnError>)
        requires
            self.wf(),
        ensures
            match r {
                Ok(res) => {
                    &&& point@.len() == self.spec_dim()
                    &&& res@.no_duplicates()
                    &&& forall|i: int|
                        0 <= i < res@.len() ==> ((#[trigger] res@[i]) as int) < self.spec_len()
                    &&& forall|i: int|
                        0 <= i < res@.len() ==> rd_of::<D>(self.pts(), point@, #[trigger] res@[i])
                            <= D::rdist_of_dist(range as int)
                    &&& forall|i: int, j: int|
                        #![trigger res@[i], res@[j]]
                        0 <= i <= j < res@.len() ==> rd_of::<D>(self.pts(), point@, res@[i])
                            <= rd_of::<D>(self.pts(), point@, res@[j])
                    &&& forall|j: usize|
                        #![trigger rd_of::<D>(self.pts(), point@, j)]
                        (j as int) < self.spec_len() && rd_of::<D>(self.pts(), point@, j)
                            <= D::rdist_of_dist(range as int) ==> res@.contains(j)
                    &&& self.spec_len() == 0 ==> res@.len() == 0
                },
                Err(e) => e == NnError::WrongDimension && point@.len() != self.spec_dim(),
            },
    {
        if point.len() != self.dim {
            return Err(NnError::WrongDimension);
        }
        let conv = self.dist.dist_to_rdist(range);
        let res = nn_helper(
            &self.points,
            &self.nodes,
            self.root,
            &self.dist,
            point,
            self.len,
            conv,
            Ghost(self.dim as nat),
        );
        proof {
            let n = self.spec_len();
            // completeness: with the cap set to the index size, a full
            // result already holds every point
            assert forall|j: usize|
                #![trigger rd_of::<D>(self.pts(), point@, j)]
                (j as int) < n && rd_of::<D>(self.pts(), point@, j) <= D::rdist_of_dist(
                    range as int,
                ) implies res@.contains(j) by {
                if !res@.contains(j) {
                    assert(res@.len() == n);
                    lemma_pigeonhole(res@, n);
                    assert(res@.contains(j));
                }
            }
            if self.spec_len() == 0 && res@.len() > 0 {
                assert((res@[0] as int) < 0);
            }
        }
        Ok(res)
    }
}

/// Law: querying a well-formed index for as many neighbours as it holds
/// returns every indexed point exactly once, fully sorted by reduced
/// distance — `k_nearest(point, index.len())` is a total distance sort.
pub proof fn lemma_k_nearest_all<D: Distance>(
    pts: Seq<Seq<i32>>,
    q: Seq<i32>,
    res: Seq<usize>,
    dim: nat,
)
    requires
        rows_wf(pts, dim),
        q.len() == dim,
        dim <= usize::MAX,
        pts.len() <= usize::MAX,
        query_post::<D>(pts, q, pts.len() as int, u128::MAX as int, res),
    ensures
        res.len() == pts.len(),
        forall|j: usize| (j as int) < pts.len() ==> res.contains(j),
        forall|i: int, j: int|
            #![trigger res[i], res[j]]
            0 <= i <= j < res.len() ==> rd_of::<D>(pts, q, res[i]) <= rd_of::<D>(pts, q, res[j]),
{
    broadcast use vstd::set::group_set_axioms;
    broadcast use vstd::seq_lib::seq_to_set_is_finite;

    let n = pts.len() as int;
    assert forall|j: usize| (j as int) < n implies res.contains(j) by {
        if !res.contains(j) {
            // the contract then demands a full result of closer points,
            // but nothing is ever beyond the unreachable cap
            D::lemma_rdist_fits(q, pts[j as int]);
            assert(rd_of::<D>(pts, q, j) < u128::MAX as int);
            assert(!(rd_of::<D>(pts, q, j) > u128::MAX as int));
            assert(res.len() == n);
            lemma_pigeonhole(res, n);
        }
    }
    // a duplicate-free sequence over n indices containing all of them has
    // exactly n entries
    let si = res.map_values(|u: usize| u as int);
    assert(si.no_duplicates()) by {
        assert forall|p: int, p2: int|
            0 <= p < si.len() && 0 <= p2 < si.len() && p != p2 implies si[p] != si[p2] by {
            assert(res[p] != res[p2]);
        }
    }
    si.unique_seq_to_set();
    assert(vstd::set_lib::set_int_range(0, n).subset_of(si.to_set())) by {
        assert forall|x: int| vstd::set_lib::set_int_range(0, n).contains(x) implies si.to_set().contains(
            x,
        ) by {
            assert(res.contains(x as usize));
            let p = choose|p: int| 0 <= p < res.len() && res[p] == x as usize;
            assert(si[p] == x);
        }
    }
    vstd::set_lib::lemma_int_range(0, n);
    vstd::set_lib::lemma_len_subset(vstd::set_lib::set_int_range(0, n), si.to_set());
    assert(res.len() >= n);
}

/// A builder that fixes the leaf-size threshold at sixteen points.
#[derive(Default)]
pub struct BallTreeBuilder;

impl BallTreeBuilder {
    pub fn new() -> (b: BallTreeBuilder)
        ensures
            true,
    {
        BallTreeBuilder
    }

    /// Build an index over `batch` with the default leaf size.
    pub fn from_batch<D: Distance>(&self, batch: &PointBatch, dist_fn: D) -> (r: Result<
        BallTree<D>,
        BuildError,
    >)
        ensures
            match r {
                Ok(t) => {
                    &&& batch_ncols(*batch) >= 1
                    &&& t.wf()
                    &&& t.leaves_within(16)
                    &&& t.pts() == batch_rows(*batch)
                    &&& t.spec_dim() == batch_ncols(*batch)
                    &&& t.spec_len() == batch_rows(*batch).len()
                },
                Err(e) => e == BuildError::ZeroDimension && batch_ncols(*batch) == 0,
            },
    {
        BallTree::new(batch, 16, dist_fn)
    }
}

} // verus!
