//! The tree builder: a binary tree of bounding spheres over the point
//! set, built by recursive partitioning and stored as a node table
//! addressed by index, children before parents.
//!
//! A leaf owns its centroid, its bounding radius and the points it holds;
//! a branch's center is a literal input point — the partition median — and
//! its radius bounds every point of both subtrees.  The well-formedness
//! predicate `node_wf` records exactly that sphere invariant, which is
//! what the query engine's pruning rests on.

use vstd::multiset::Multiset;
use vstd::prelude::*;

use crate::distance::Distance;
use crate::partition::count_on_dim_le;
use crate::partition::count_on_dim_lt;
use crate::partition::good_split;
use crate::partition::lemma_count_perm;
use crate::partition::lemma_spread_perm;
use crate::partition::partition;
use crate::partition::spread_on;
use crate::points::all_on_dim_ge;
use crate::points::all_on_dim_lt;
use crate::points::coord_of;
use crate::points::lemma_concat_multiset;
use crate::points::lemma_views_len;
use crate::points::rows_wf;
use crate::points::views_of;

verus! {

/// A node of the tree: a leaf holding points, or a branch owning two
/// children (by node-table index).
pub(crate) enum Node {
    Leaf { center: Vec<i32>, radius: u128, pts: Vec<usize> },
    Branch { center: usize, radius: u128, left: usize, right: usize },
}

/// The point indices held under node `i`, left to right.
pub(crate) open spec fn node_pts(nodes: Seq<Node>, i: int) -> Seq<usize>
    decreases i,
{
    if 0 <= i < nodes.len() {
        match nodes[i] {
            Node::Leaf { pts, .. } => pts@,
            Node::Branch { left, right, .. } => {
                if left < i && right < i {
                    node_pts(nodes, left as int) + node_pts(nodes, right as int)
                } else {
                    Seq::empty()
                }
            },
        }
    } else {
        Seq::empty()
    }
}

/// The center of node `i`'s bounding sphere.
pub(crate) open spec fn node_center(pts: Seq<Seq<i32>>, nodes: Seq<Node>, i: int) -> Seq<i32> {
    match nodes[i] {
        Node::Leaf { center, .. } => center@,
        Node::Branch { center, .. } => pts[center as int],
    }
}

/// The radius of node `i`'s bounding sphere, in reduced units.
pub(crate) open spec fn node_radius(nodes: Seq<Node>, i: int) -> int {
    match nodes[i] {
        Node::Leaf { radius, .. } => radius as int,
        Node::Branch { radius, .. } => radius as int,
    }
}

/// The split shape of a branch: on some dimension of greatest coordinate
/// spread over the subtree's points, the center is the element of middle
/// rank (at most half lie strictly below its coordinate, a strict
/// majority at or below), the right subtree never goes below that
/// coordinate, and the left subtree stays strictly below it — unless
/// nothing does, in which case it is a single moved-over point at or
/// above it.
pub(crate) open spec fn branch_split(
    pts: Seq<Seq<i32>>,
    l: Seq<usize>,
    c: usize,
    r: Seq<usize>,
    dim: nat,
) -> bool {
    exists|dd: int|
        0 <= dd < dim && (#[trigger] all_on_dim_ge(pts, r, dd, coord_of(pts, c, dd))) && (
        all_on_dim_lt(pts, l, dd, coord_of(pts, c, dd)) || (l.len() == 1 && all_on_dim_ge(
            pts,
            l,
            dd,
            coord_of(pts, c, dd),
        ))) && count_on_dim_lt(pts, l + r, dd, coord_of(pts, c, dd)) <= (l + r).len() / 2
            && count_on_dim_le(pts, l + r, dd, coord_of(pts, c, dd)) >= (l + r).len() / 2 + 1 && (
        forall|d2: int|
            0 <= d2 < dim ==> #[trigger] spread_on(pts, l + r, d2) <= spread_on(pts, l + r, dd))
}

/// Every leaf of the subtree rooted at `i` holds at most `cap` points.
pub(crate) open spec fn leaf_bounds(nodes: Seq<Node>, i: int, cap: int) -> bool
    decreases i,
{
    if 0 <= i < nodes.len() {
        match nodes[i] {
            Node::Leaf { pts, .. } => pts@.len() <= cap,
            Node::Branch { left, right, .. } => {
                if left < i && right < i {
                    leaf_bounds(nodes, left as int, cap) && leaf_bounds(nodes, right as int, cap)
                } else {
                    true
                }
            },
        }
    } else {
        true
    }
}

/// Well-formedness of the subtree rooted at `i`: indices in range,
/// children strictly earlier in the table, both children non-empty; the
/// node's radius is exactly the greatest reduced distance from its center
/// to any point under it (zero for the empty index); a leaf's center is
/// the centroid of its points (the zero vector when it has none); a
/// branch's center is a literal point of its own subtree — the partition
/// median — and its children realize a split around that center's
/// coordinate on the chosen dimension.
pub(crate) open spec fn node_wf<D: Distance>(
    pts: Seq<Seq<i32>>,
    nodes: Seq<Node>,
    i: int,
    dim: nat,
) -> bool
    decreases i,
{
    &&& 0 <= i < nodes.len()
    &&& node_center(pts, nodes, i).len() == dim
    &&& forall|p: int|
        0 <= p < node_pts(nodes, i).len() ==> (#[trigger] node_pts(nodes, i)[p]) < pts.len()
    &&& forall|p: int|
        0 <= p < node_pts(nodes, i).len() ==> D::rdist(
            node_center(pts, nodes, i),
            pts[(#[trigger] node_pts(nodes, i)[p]) as int],
        ) <= node_radius(nodes, i)
    &&& (node_pts(nodes, i).len() == 0 ==> node_radius(nodes, i) == 0)
    &&& (node_pts(nodes, i).len() >= 1 ==> exists|p: int|
        0 <= p < node_pts(nodes, i).len() && D::rdist(
            node_center(pts, nodes, i),
            pts[(#[trigger] node_pts(nodes, i)[p]) as int],
        ) == node_radius(nodes, i))
    &&& match nodes[i] {
        Node::Leaf { center, pts: lp, .. } => {
            &&& (lp@.len() == 0 ==> forall|k: int|
                0 <= k < center@.len() ==> (#[trigger] center@[k]) == 0i32)
            &&& (lp@.len() >= 1 ==> forall|k: int|
                0 <= k < center@.len() ==> (#[trigger] center@[k]) as int == div_toward_zero(
                    csum(pts, lp@, k),
                    lp@.len() as int,
                ))
        },
        Node::Branch { center, left, right, .. } => {
            &&& (center as int) < pts.len()
            &&& node_pts(nodes, i).to_multiset().contains(center)
            &&& (left as int) < i
            &&& (right as int) < i
            &&& node_wf::<D>(pts, nodes, left as int, dim)
            &&& node_wf::<D>(pts, nodes, right as int, dim)
            &&& node_pts(nodes, left as int).len() >= 1
            &&& node_pts(nodes, right as int).len() >= 1
            &&& branch_split(pts, node_pts(nodes, left as int), center, node_pts(nodes, right as int), dim)
        },
    }
}

/// Leaf capacity bounds survive appending nodes to the table.
pub(crate) proof fn lemma_leaf_bounds_prefix(
    nodes1: Seq<Node>,
    nodes2: Seq<Node>,
    i: int,
    cap: int,
)
    requires
        nodes1.len() <= nodes2.len(),
        nodes2.subrange(0, nodes1.len() as int) == nodes1,
        0 <= i < nodes1.len(),
    ensures
        leaf_bounds(nodes1, i, cap) ==> leaf_bounds(nodes2, i, cap),
    decreases i,
{
    assert(nodes2[i] == nodes2.subrange(0, nodes1.len() as int)[i]);
    assert(nodes2[i] == nodes1[i]);
    match nodes1[i] {
        Node::Leaf { .. } => {},
        Node::Branch { left, right, .. } => {
            if (left as int) < i && (right as int) < i {
                lemma_leaf_bounds_prefix(nodes1, nodes2, left as int, cap);
                lemma_leaf_bounds_prefix(nodes1, nodes2, right as int, cap);
            }
        },
    }
}

/// Appending nodes to the table never disturbs an existing subtree.
pub(crate) proof fn lemma_node_prefix<D: Distance>(
    pts: Seq<Seq<i32>>,
    nodes1: Seq<Node>,
    nodes2: Seq<Node>,
    i: int,
    dim: nat,
)
    requires
        nodes1.len() <= nodes2.len(),
        nodes2.subrange(0, nodes1.len() as int) == nodes1,
        0 <= i < nodes1.len(),
    ensures
        node_pts(nodes2, i) == node_pts(nodes1, i),
        node_wf::<D>(pts, nodes1, i, dim) ==> node_wf::<D>(pts, nodes2, i, dim),
    decreases i,
{
    assert(nodes2[i] == nodes2.subrange(0, nodes1.len() as int)[i]);
    assert(nodes2[i] == nodes1[i]);
    match nodes1[i] {
        Node::Leaf { .. } => {},
        Node::Branch { left, right, .. } => {
            if (left as int) < i && (right as int) < i {
                lemma_node_prefix::<D>(pts, nodes1, nodes2, left as int, dim);
                lemma_node_prefix::<D>(pts, nodes1, nodes2, right as int, dim);
            }
        },
    }
}

/// Truncating division: the quotient rounded toward zero.
pub open spec fn div_toward_zero(a: int, n: int) -> int {
    if a >= 0 {
        a / n
    } else {
        -((-a) / n)
    }
}

/// The sum of coordinate `k` over the indexed points.
pub open spec fn csum(pts: Seq<Seq<i32>>, s: Seq<usize>, k: int) -> int
    decreases s.len(),
{
    if s.len() == 0 {
        0
    } else {
        csum(pts, s.drop_last(), k) + pts[s.last() as int][k]
    }
}

/// The all-zero point: the centroid of an empty point set.
pub fn zero_point(dim: usize) -> (c: Vec<i32>)
    ensures
        c@.len() == dim,
        forall|k: int| 0 <= k < dim ==> (#[trigger] c@[k]) == 0i32,
{
    let mut c: Vec<i32> = Vec::new();
    let mut k: usize = 0;
    while k < dim
        invariant
            0 <= k <= dim,
            c@.len() == k,
            forall|p: int| 0 <= p < k ==> (#[trigger] c@[p]) == 0i32,
        decreases dim - k,
    {
        c.push(0);
        k = k + 1;
    }
    c
}

/// The centroid of a non-empty point set: the coordinate-wise mean,
/// rounded toward zero onto the coordinate grid.
pub fn centroid(points: &Vec<Vec<i32>>, idxs: &Vec<usize>, dim: usize) -> (c: Vec<i32>)
    requires
        idxs@.len() >= 1,
        forall|i: int| 0 <= i < idxs@.len() ==> (#[trigger] idxs@[i]) < points@.len(),
        forall|i: int|
            0 <= i < idxs@.len() ==> points@[(#[trigger] idxs@[i]) as int]@.len() == dim as int,
    ensures
        c@.len() == dim,
        forall|k: int|
            0 <= k < dim ==> (#[trigger] c@[k]) as int == div_toward_zero(
                csum(views_of(points@), idxs@, k),
                idxs@.len() as int,
            ),
{
    let ghost pts = views_of(points@);
    let n = idxs.len();
    let mut c: Vec<i32> = Vec::new();
    let mut k: usize = 0;
    while k < dim
        invariant
            0 <= k <= dim,
            n == idxs@.len(),
            n >= 1,
            pts == views_of(points@),
            forall|i: int| 0 <= i < idxs@.len() ==> (#[trigger] idxs@[i]) < points@.len(),
            forall|i: int|
                0 <= i < idxs@.len() ==> points@[(#[trigger] idxs@[i]) as int]@.len() == dim as int,
            c@.len() == k,
            forall|p: int|
                0 <= p < k ==> (#[trigger] c@[p]) as int == div_toward_zero(
                    csum(pts, idxs@, p),
                    n as int,
                ),
        decreases dim - k,
    {
        let mut sum: i128 = 0;
        let mut i: usize = 0;
        while i < n
            invariant
                0 <= i <= n,
                n == idxs@.len(),
                (k as int) < dim as int,
                pts == views_of(points@),
                forall|q: int| 0 <= q < idxs@.len() ==> (#[trigger] idxs@[q]) < points@.len(),
                forall|q: int|
                    0 <= q < idxs@.len() ==> points@[(#[trigger] idxs@[q]) as int]@.len()
                        == dim as int,
                sum as int == csum(pts, idxs@.take(i as int), k as int),
                -(i as int) * 2147483648 <= sum as int <= (i as int) * 2147483647,
            decreases n - i,
        {
            let j = idxs[i];
            let v: i32 = points[j][k];
            proof {
                assert(idxs@.take(i as int + 1).drop_last() =~= idxs@.take(i as int));
                assert(idxs@.take(i as int + 1).last() == idxs@[i as int]);
                assert(pts[j as int] == points@[j as int]@);
                assert(-(i as int + 1) * 2147483648 <= sum as int + v as int <= (i as int + 1)
                    * 2147483647) by (nonlinear_arith)
                    requires
                        -(i as int) * 2147483648 <= sum as int <= (i as int) * 2147483647,
                        -2147483648 <= v as int <= 2147483647,
                ;
                assert((i as int + 1) * 2147483647 < i128::MAX && -(i as int + 1) * 2147483648
                    > i128::MIN) by (nonlinear_arith)
                    requires
                        0 <= i as int + 1 <= (0xFFFF_FFFF_FFFF_FFFFu64 as int),
                ;
            }
            sum = sum + v as i128;
            i = i + 1;
        }
        proof {
            assert(idxs@.take(n as int) =~= idxs@);
            assert(-(n as int) * 2147483648 <= sum as int <= (n as int) * 2147483647);
        }
        let q: i32 = if sum >= 0 {
            let qq: u128 = (sum as u128) / (n as u128);
            proof {
                assert(qq as int <= 2147483647) by (nonlinear_arith)
                    requires
                        qq as int == (sum as int) / (n as int),
                        0 <= sum as int <= (n as int) * 2147483647,
                        n as int >= 1,
                ;
            }
            qq as i32
        } else {
            let neg: i128 = -sum;
            let qq: u128 = (neg as u128) / (n as u128);
            proof {
                assert(qq as int <= 2147483648) by (nonlinear_arith)
                    requires
                        qq as int == (neg as int) / (n as int),
                        0 <= neg as int <= (n as int) * 2147483648,
                        n as int >= 1,
                ;
            }
            let qi: i64 = -(qq as i64);
            qi as i32
        };
        c.push(q);
        k = k + 1;
        proof {
            assert(c@.drop_last() =~= c@.subrange(0, c@.len() - 1));
            assert forall|p: int|
                0 <= p < k implies (#[trigger] c@[p]) as int == div_toward_zero(
                csum(pts, idxs@, p),
                n as int,
            ) by {
                if p < k - 1 {
                    assert(c@[p] == c@.subrange(0, c@.len() - 1)[p]);
                }
            }
        }
    }
    c
}

/// The bounding radius, in reduced units, of the indexed points around
/// `center`: the largest reduced distance from `center` to any of them,
/// and zero when there are none.
pub fn calc_radius<D: Distance>(
    points: &Vec<Vec<i32>>,
    idxs: &Vec<usize>,
    center: &Vec<i32>,
    dist: &D,
) -> (r: u128)
    requires
        forall|i: int| 0 <= i < idxs@.len() ==> (#[trigger] idxs@[i]) < points@.len(),
        forall|i: int|
            0 <= i < idxs@.len() ==> points@[(#[trigger] idxs@[i]) as int]@.len() == center@.len(),
    ensures
        forall|p: int|
            0 <= p < idxs@.len() ==> D::rdist(
                center@,
                views_of(points@)[(#[trigger] idxs@[p]) as int],
            ) <= r as int,
        idxs@.len() > 0 ==> exists|p: int|
            0 <= p < idxs@.len() && D::rdist(
                center@,
                views_of(points@)[(#[trigger] idxs@[p]) as int],
            ) == r as int,
        idxs@.len() == 0 ==> r == 0,
{
    let ghost pts = views_of(points@);
    let mut r: u128 = 0;
    let mut i: usize = 0;
    while i < idxs.len()
        invariant
            0 <= i <= idxs@.len(),
            pts == views_of(points@),
            forall|q: int| 0 <= q < idxs@.len() ==> (#[trigger] idxs@[q]) < points@.len(),
            forall|q: int|
                0 <= q < idxs@.len() ==> points@[(#[trigger] idxs@[q]) as int]@.len()
                    == center@.len(),
            forall|p: int|
                0 <= p < i ==> D::rdist(center@, pts[(#[trigger] idxs@[p]) as int]) <= r as int,
            i > 0 ==> exists|p: int|
                0 <= p < i && D::rdist(center@, pts[(#[trigger] idxs@[p]) as int]) == r as int,
            i == 0 ==> r == 0,
        decreases idxs@.len() - i,
    {
        let j = idxs[i];
        let d = dist.rdistance(center, &points[j]);
        proof {
            assert(pts[j as int] == points@[j as int]@);
        }
        if d > r {
            r = d;
        }
        i = i + 1;
    }
    r
}

/// Build the subtree over the given point indices and append its nodes to
/// the table, returning the root's index.  Sets no larger than
/// `leaf_size` become a leaf around their centroid; larger sets are split
/// by the partitioning routine, and the median becomes the branch center.
pub(crate) fn build_node<D: Distance>(
    points: &Vec<Vec<i32>>,
    idxs: Vec<usize>,
    leaf_size: usize,
    dim: usize,
    dist: &D,
    nodes: &mut Vec<Node>,
) -> (root: usize)
    requires
        leaf_size >= 1,
        dim >= 1,
        rows_wf(views_of(points@), dim as nat),
        forall|i: int| 0 <= i < idxs@.len() ==> (#[trigger] idxs@[i]) < points@.len(),
    ensures
        final(nodes)@.len() > old(nodes)@.len(),
        root as int == final(nodes)@.len() - 1,
        final(nodes)@.subrange(0, old(nodes)@.len() as int) == old(nodes)@,
        node_wf::<D>(views_of(points@), final(nodes)@, root as int, dim as nat),
        leaf_bounds(final(nodes)@, root as int, leaf_size as int),
        node_pts(final(nodes)@, root as int).to_multiset() == idxs@.to_multiset(),
    decreases idxs@.len(),
{
    broadcast use vstd::seq_lib::group_to_multiset_ensures;

    let ghost pts = views_of(points@);
    proof {
        lemma_views_len(points@, dim as nat);
    }
    let n_set = idxs.len();
    if n_set <= leaf_size {
        let center = if n_set == 0 {
            zero_point(dim)
        } else {
            proof {
                assert(points@[idxs@[0] as int]@.len() == dim as int);
            }
            centroid(points, &idxs, dim)
        };
        let radius = calc_radius(points, &idxs, &center, dist);
        let ghost idview = idxs@;
        let ghost cview = center@;
        nodes.push(Node::Leaf { center, radius, pts: idxs });
        let root = nodes.len() - 1;
        proof {
            assert(nodes@.subrange(0, nodes@.len() - 1) =~= old(nodes)@);
            assert(node_pts(nodes@, root as int) == idview);
            assert(node_center(pts, nodes@, root as int) == cview);
            if idview.len() >= 1 {
                // the radius is attained by one of the leaf's own points
                let q = choose|p: int|
                    0 <= p < idview.len() && D::rdist(cview, pts[(idview[p]) as int])
                        == radius as int;
                assert(node_pts(nodes@, root as int)[q] == idview[q]);
                assert(D::rdist(
                    node_center(pts, nodes@, root as int),
                    pts[(node_pts(nodes@, root as int)[q]) as int],
                ) == node_radius(nodes@, root as int));
            }
            assert(node_wf::<D>(pts, nodes@, root as int, dim as nat));
            assert(leaf_bounds(nodes@, root as int, leaf_size as int));
        }
        root
    } else {
        proof {
            assert(idxs@.len() >= 2);
            assert(points@[idxs@[0] as int]@.len() == dim as int);
            assert forall|i: int|
                0 <= i < idxs@.len() implies points@[(#[trigger] idxs@[i]) as int]@.len()
                == points@[idxs@[0] as int]@.len() by {}
        }
        let ghost idview = idxs@;
        let (l, m, r) = partition(points, idxs);
        proof {
            broadcast use vstd::multiset::group_multiset_axioms;

            assert forall|i: int| 0 <= i < l@.len() implies (#[trigger] l@[i]) < points@.len() by {
                assert(l@.contains(l@[i]));
                assert(l@.to_multiset().count(l@[i]) > 0);
                assert(idview.to_multiset().count(l@[i]) > 0);
                assert(idview.contains(l@[i]));
                let p1 = choose|t: int| 0 <= t < idview.len() && idview[t] == l@[i];
                assert(idview[p1] < points@.len());
            }
            assert forall|i: int| 0 <= i < r@.len() implies (#[trigger] r@[i]) < points@.len() by {
                assert(r@.contains(r@[i]));
                assert(r@.to_multiset().count(r@[i]) > 0);
                assert(idview.to_multiset().count(r@[i]) > 0);
                assert(idview.contains(r@[i]));
                let p1 = choose|t: int| 0 <= t < idview.len() && idview[t] == r@[i];
                assert(idview[p1] < points@.len());
            }
        }
        let ghost lview = l@;
        let ghost rview = r@;
        let mut both: Vec<usize> = Vec::new();
        let mut i: usize = 0;
        while i < l.len()
            invariant
                0 <= i <= l@.len(),
                both@ =~= l@.take(i as int),
            decreases l@.len() - i,
        {
            let v = l[i];
            both.push(v);
            proof {
                assert(both@ =~= l@.take(i as int + 1));
            }
            i = i + 1;
        }
        let mut i2: usize = 0;
        while i2 < r.len()
            invariant
                0 <= i2 <= r@.len(),
                both@ =~= l@ + r@.take(i2 as int),
            decreases r@.len() - i2,
        {
            let v = r[i2];
            both.push(v);
            proof {
                assert(both@ =~= l@ + r@.take(i2 as int + 1));
            }
            i2 = i2 + 1;
        }
        proof {
            assert(l@.take(l@.len() as int) =~= l@);
            assert(r@.take(r@.len() as int) =~= r@);
            assert(both@ =~= l@ + r@);
            assert forall|p: int| 0 <= p < both@.len() implies (#[trigger] both@[p])
                < points@.len() by {
                assert(both@.contains(both@[p]));
                assert(both@.to_multiset().count(both@[p]) > 0) by {
                    lemma_concat_multiset(l@, r@);
                }
                assert(idview.to_multiset().count(both@[p]) > 0) by {
                    lemma_concat_multiset(l@, r@);
                }
                assert(idview.contains(both@[p]));
                let p1 = choose|t: int| 0 <= t < idview.len() && idview[t] == both@[p];
                assert(idview[p1] < points@.len());
            }
        }
        let radius = calc_radius(points, &both, &points[m], dist);
        let left_id = build_node(points, l, leaf_size, dim, dist, nodes);
        let ghost nodes_l = nodes@;
        let right_id = build_node(points, r, leaf_size, dim, dist, nodes);
        let ghost nodes_r = nodes@;
        nodes.push(Node::Branch { center: m, radius, left: left_id, right: right_id });
        let root = nodes.len() - 1;
        proof {
            broadcast use vstd::multiset::group_multiset_axioms;

            // the earlier subtrees survive the later appends untouched
            assert(nodes@.subrange(0, nodes_r.len() as int) =~= nodes_r);
            assert(nodes_r.subrange(0, nodes_l.len() as int) == nodes_l);
            assert(nodes@.subrange(0, nodes_l.len() as int) =~= nodes_l) by {
                assert forall|t: int| 0 <= t < nodes_l.len() implies nodes@.subrange(
                    0,
                    nodes_l.len() as int,
                )[t] == nodes_l[t] by {
                    assert(nodes@[t] == nodes_r[t]);
                    assert(nodes_r[t] == nodes_l[t]);
                }
            }
            assert(nodes@.subrange(0, old(nodes)@.len() as int) =~= old(nodes)@) by {
                assert forall|t: int| 0 <= t < old(nodes)@.len() implies nodes@.subrange(
                    0,
                    old(nodes)@.len() as int,
                )[t] == old(nodes)@[t] by {
                    assert(nodes@[t] == nodes_r[t]);
                    assert(nodes_r[t] == nodes_r.subrange(0, nodes_l.len() as int)[t]);
                    assert(nodes_l[t] == nodes_l.subrange(0, old(nodes)@.len() as int)[t]);
                }
            }
            lemma_node_prefix::<D>(pts, nodes_l, nodes@, left_id as int, dim as nat);
            lemma_node_prefix::<D>(pts, nodes_r, nodes@, right_id as int, dim as nat);
            assert(node_wf::<D>(pts, nodes@, left_id as int, dim as nat));
            assert(node_wf::<D>(pts, nodes@, right_id as int, dim as nat));
            let ghost lp = node_pts(nodes@, left_id as int);
            let ghost rp = node_pts(nodes@, right_id as int);
            assert(lp.to_multiset() == lview.to_multiset());
            assert(rp.to_multiset() == rview.to_multiset());
            assert(node_pts(nodes@, root as int) == lp + rp);
            lemma_concat_multiset(lp, rp);
            lemma_concat_multiset(lview, rview);
            assert(node_pts(nodes@, root as int).to_multiset() == idview.to_multiset());
            // the sphere invariant at the branch: every point under it was
            // measured by calc_radius through the combined list
            assert(lp.to_multiset().len() == lp.len());
            assert(lview.to_multiset().len() == lview.len());
            assert(rp.to_multiset().len() == rp.len());
            assert(rview.to_multiset().len() == rview.len());
            assert(lp.len() >= 1 && rp.len() >= 1);
            let ghost np = node_pts(nodes@, root as int);
            assert forall|p: int| 0 <= p < np.len() implies (#[trigger] np[p]) < points@.len()
                && D::rdist(node_center(pts, nodes@, root as int), pts[np[p] as int])
                <= node_radius(nodes@, root as int) by {
                assert(np.contains(np[p]));
                assert(np.to_multiset().count(np[p]) > 0);
                assert((lview + rview).to_multiset().count(np[p]) > 0);
                assert((lview + rview).contains(np[p]));
                let pv = np[p];
                let q = choose|t: int| 0 <= t < (lview + rview).len() && (lview + rview)[t] == pv;
                assert(both@[q] == np[p]);
                assert(both@[q] < points@.len());
                assert(D::rdist(points@[m as int]@, pts[both@[q] as int]) <= radius as int);
                assert(node_center(pts, nodes@, root as int) == pts[m as int]);
                assert(pts[m as int] == points@[m as int]@);
            }
            // the center is one of the subtree's own points: the median
            // stays inside the halves it splits
            assert(np.to_multiset().contains(m)) by {
                assert(idview.to_multiset().contains(m));
            }
            // the radius is attained: calc_radius found a farthest point in
            // the combined list, which the subtree also holds
            assert(exists|p: int|
                0 <= p < np.len() && D::rdist(
                    node_center(pts, nodes@, root as int),
                    pts[(#[trigger] np[p]) as int],
                ) == node_radius(nodes@, root as int)) by {
                let q = choose|q: int|
                    0 <= q < both@.len() && D::rdist(
                        points@[m as int]@,
                        pts[(both@[q]) as int],
                    ) == radius as int;
                let pv2 = both@[q];
                assert(both@.contains(pv2));
                assert((lview + rview).to_multiset().count(pv2) > 0);
                assert(np.to_multiset().count(pv2) > 0);
                assert(np.contains(pv2));
                let p2 = choose|t: int| 0 <= t < np.len() && np[t] == pv2;
                assert(np[p2] == pv2);
                assert(D::rdist(
                    node_center(pts, nodes@, root as int),
                    pts[(np[p2]) as int],
                ) == node_radius(nodes@, root as int));
            }
            // the split shape carries from the partitioning routine's
            // guarantee through the reordering of each half
            assert(points@[idview[0] as int]@.len() == dim as int);
            let dd = choose|dd: int|
                0 <= dd < dim as int && good_split(pts, idview, lview, m, rview, dd, dim as int);
            let mcv = coord_of(pts, m, dd);
            assert(all_on_dim_ge(pts, rp, dd, mcv)) by {
                assert forall|t: int|
                    0 <= t < rp.len() implies coord_of(pts, #[trigger] rp[t], dd) >= mcv by {
                    assert(rp.contains(rp[t]));
                    assert(rp.to_multiset().count(rp[t]) > 0);
                    assert(rview.to_multiset().count(rp[t]) > 0);
                    assert(rview.contains(rp[t]));
                    let t2 = choose|t2: int| 0 <= t2 < rview.len() && rview[t2] == rp[t];
                    assert(coord_of(pts, rview[t2], dd) >= mcv);
                }
            }
            if all_on_dim_lt(pts, lview, dd, mcv) {
                assert(all_on_dim_lt(pts, lp, dd, mcv)) by {
                    assert forall|t: int|
                        0 <= t < lp.len() implies coord_of(pts, #[trigger] lp[t], dd) < mcv by {
                        assert(lp.contains(lp[t]));
                        assert(lp.to_multiset().count(lp[t]) > 0);
                        assert(lview.to_multiset().count(lp[t]) > 0);
                        assert(lview.contains(lp[t]));
                        let t2 = choose|t2: int| 0 <= t2 < lview.len() && lview[t2] == lp[t];
                        assert(coord_of(pts, lview[t2], dd) < mcv);
                    }
                }
            } else {
                assert(lview.len() == 1 && all_on_dim_ge(pts, lview, dd, mcv));
                assert(lp.len() == 1);
                assert(all_on_dim_ge(pts, lp, dd, mcv)) by {
                    assert forall|t: int|
                        0 <= t < lp.len() implies coord_of(pts, #[trigger] lp[t], dd) >= mcv by {
                        assert(lp.contains(lp[t]));
                        assert(lp.to_multiset().count(lp[t]) > 0);
                        assert(lview.to_multiset().count(lp[t]) > 0);
                        assert(lview.contains(lp[t]));
                        let t2 = choose|t2: int| 0 <= t2 < lview.len() && lview[t2] == lp[t];
                        assert(coord_of(pts, lview[t2], dd) >= mcv);
                    }
                }
            }
            // the center's middle rank and the chosen dimension's maximal
            // spread carry through the reordering too
            lemma_count_perm(pts, lp + rp, idview, dd, mcv);
            assert((lp + rp).len() == idview.len());
            assert(count_on_dim_lt(pts, lp + rp, dd, mcv) <= (lp + rp).len() / 2);
            assert(count_on_dim_le(pts, lp + rp, dd, mcv) >= (lp + rp).len() / 2 + 1);
            assert forall|d2: int|
                0 <= d2 < dim as int implies #[trigger] spread_on(pts, lp + rp, d2) <= spread_on(
                pts,
                lp + rp,
                dd,
            ) by {
                lemma_spread_perm(pts, lp + rp, idview, d2);
                lemma_spread_perm(pts, lp + rp, idview, dd);
            }
            assert(branch_split(pts, lp, m, rp, dim as nat)) by {
                assert(0 <= dd < dim as nat && all_on_dim_ge(pts, rp, dd, coord_of(pts, m, dd)) && (
                all_on_dim_lt(pts, lp, dd, coord_of(pts, m, dd)) || (lp.len() == 1
                    && all_on_dim_ge(pts, lp, dd, coord_of(pts, m, dd)))) && count_on_dim_lt(
                    pts,
                    lp + rp,
                    dd,
                    coord_of(pts, m, dd),
                ) <= (lp + rp).len() / 2 && count_on_dim_le(pts, lp + rp, dd, coord_of(pts, m, dd))
                    >= (lp + rp).len() / 2 + 1 && (forall|d2: int|
                    0 <= d2 < dim as nat ==> #[trigger] spread_on(pts, lp + rp, d2) <= spread_on(
                        pts,
                        lp + rp,
                        dd,
                    )));
            }
            // leaf capacity carries from both children
            lemma_leaf_bounds_prefix(nodes_l, nodes@, left_id as int, leaf_size as int);
            lemma_leaf_bounds_prefix(nodes_r, nodes@, right_id as int, leaf_size as int);
            assert(leaf_bounds(nodes@, root as int, leaf_size as int));
            assert(node_wf::<D>(pts, nodes@, root as int, dim as nat));
        }
        root
    }
}

} // verus!
