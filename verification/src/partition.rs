//! The partitioning routine: split a point set (given as indices into the
//! owned rows) into two non-empty halves along the dimension of greatest
//! spread, around the element of middle rank on that dimension.

use vstd::multiset::Multiset;
use vstd::prelude::*;

use crate::points::all_on_dim_ge;
use crate::points::all_on_dim_lt;
use crate::points::coord_of;
use crate::points::views_of;

verus! {

/// Largest coordinate on dimension `d` among the indexed points (0 when
/// there are none).
pub open spec fn max_on(pts: Seq<Seq<i32>>, s: Seq<usize>, d: int) -> int
    decreases s.len(),
{
    if s.len() == 0 {
        0
    } else if s.len() == 1 {
        coord_of(pts, s[0], d)
    } else {
        let m = max_on(pts, s.drop_last(), d);
        let c = coord_of(pts, s.last(), d);
        if c > m {
            c
        } else {
            m
        }
    }
}

/// Smallest coordinate on dimension `d` among the indexed points (0 when
/// there are none).
pub open spec fn min_on(pts: Seq<Seq<i32>>, s: Seq<usize>, d: int) -> int
    decreases s.len(),
{
    if s.len() == 0 {
        0
    } else if s.len() == 1 {
        coord_of(pts, s[0], d)
    } else {
        let m = min_on(pts, s.drop_last(), d);
        let c = coord_of(pts, s.last(), d);
        if c < m {
            c
        } else {
            m
        }
    }
}

/// The range of the indexed points' coordinates on dimension `d`.
pub open spec fn spread_on(pts: Seq<Seq<i32>>, s: Seq<usize>, d: int) -> int {
    max_on(pts, s, d) - min_on(pts, s, d)
}

/// `max_on` and `min_on` bound every coordinate and are attained.
pub(crate) proof fn lemma_extrema_char(pts: Seq<Seq<i32>>, s: Seq<usize>, d: int)
    requires
        s.len() >= 1,
    ensures
        forall|i: int| 0 <= i < s.len() ==> coord_of(pts, #[trigger] s[i], d) <= max_on(pts, s, d),
        exists|i: int| 0 <= i < s.len() && coord_of(pts, #[trigger] s[i], d) == max_on(pts, s, d),
        forall|i: int| 0 <= i < s.len() ==> coord_of(pts, #[trigger] s[i], d) >= min_on(pts, s, d),
        exists|i: int| 0 <= i < s.len() && coord_of(pts, #[trigger] s[i], d) == min_on(pts, s, d),
    decreases s.len(),
{
    if s.len() == 1 {
        assert(coord_of(pts, s[0], d) == max_on(pts, s, d));
        assert(coord_of(pts, s[0], d) == min_on(pts, s, d));
    } else {
        let s1 = s.drop_last();
        lemma_extrema_char(pts, s1, d);
        assert forall|i: int|
            0 <= i < s.len() implies coord_of(pts, #[trigger] s[i], d) <= max_on(pts, s, d)
                && coord_of(pts, #[trigger] s[i], d) >= min_on(pts, s, d) by {
            if i < s.len() - 1 {
                assert(s1[i] == s[i]);
            }
        }
        if max_on(pts, s, d) == coord_of(pts, s.last(), d) {
            assert(coord_of(pts, s[s.len() - 1], d) == max_on(pts, s, d));
        } else {
            let i = choose|i: int|
                0 <= i < s1.len() && coord_of(pts, #[trigger] s1[i], d) == max_on(pts, s1, d);
            assert(coord_of(pts, s[i], d) == max_on(pts, s, d));
        }
        if min_on(pts, s, d) == coord_of(pts, s.last(), d) {
            assert(coord_of(pts, s[s.len() - 1], d) == min_on(pts, s, d));
        } else {
            let i = choose|i: int|
                0 <= i < s1.len() && coord_of(pts, #[trigger] s1[i], d) == min_on(pts, s1, d);
            assert(coord_of(pts, s[i], d) == min_on(pts, s, d));
        }
    }
}

/// The spread depends only on the multiset of indices: the extrema of
/// two reorderings bound each other through membership.
pub(crate) proof fn lemma_spread_perm(pts: Seq<Seq<i32>>, s1: Seq<usize>, s2: Seq<usize>, d: int)
    requires
        s1.len() >= 1,
        s1.to_multiset() == s2.to_multiset(),
    ensures
        max_on(pts, s1, d) == max_on(pts, s2, d),
        min_on(pts, s1, d) == min_on(pts, s2, d),
        spread_on(pts, s1, d) == spread_on(pts, s2, d),
{
    broadcast use vstd::seq_lib::group_to_multiset_ensures;

    assert(s1.to_multiset().len() == s1.len());
    assert(s2.to_multiset().len() == s2.len());
    lemma_extrema_char(pts, s1, d);
    lemma_extrema_char(pts, s2, d);
    assert forall|a: Seq<usize>, b: Seq<usize>|
        a == s1 && b == s2 || a == s2 && b == s1 implies max_on(pts, a, d) <= max_on(pts, b, d)
            && min_on(pts, a, d) >= min_on(pts, b, d) by {
        let i = choose|i: int|
            0 <= i < a.len() && coord_of(pts, #[trigger] a[i], d) == max_on(pts, a, d);
        assert(a.contains(a[i]));
        assert(b.to_multiset().count(a[i]) > 0);
        assert(b.contains(a[i]));
        let j = choose|j: int| 0 <= j < b.len() && b[j] == a[i];
        assert(coord_of(pts, b[j], d) <= max_on(pts, b, d));
        let i2 = choose|i2: int|
            0 <= i2 < a.len() && coord_of(pts, #[trigger] a[i2], d) == min_on(pts, a, d);
        assert(a.contains(a[i2]));
        assert(b.to_multiset().count(a[i2]) > 0);
        assert(b.contains(a[i2]));
        let j2 = choose|j2: int| 0 <= j2 < b.len() && b[j2] == a[i2];
        assert(coord_of(pts, b[j2], d) >= min_on(pts, b, d));
    }
}

/// How many of the indexed points lie strictly below `v` on dimension
/// `d`.
pub open spec fn count_on_dim_lt(pts: Seq<Seq<i32>>, s: Seq<usize>, d: int, v: int) -> int
    decreases s.len(),
{
    if s.len() == 0 {
        0
    } else {
        count_on_dim_lt(pts, s.drop_last(), d, v) + if coord_of(pts, s.last(), d) < v {
            1int
        } else {
            0int
        }
    }
}

/// How many of the indexed points lie at or below `v` on dimension `d`.
pub open spec fn count_on_dim_le(pts: Seq<Seq<i32>>, s: Seq<usize>, d: int, v: int) -> int
    decreases s.len(),
{
    if s.len() == 0 {
        0
    } else {
        count_on_dim_le(pts, s.drop_last(), d, v) + if coord_of(pts, s.last(), d) <= v {
            1int
        } else {
            0int
        }
    }
}

/// Removing an element removes exactly its own contribution to a count.
pub(crate) proof fn lemma_count_remove(pts: Seq<Seq<i32>>, s: Seq<usize>, d: int, v: int, j: int)
    requires
        0 <= j < s.len(),
    ensures
        count_on_dim_lt(pts, s, d, v) == count_on_dim_lt(pts, s.remove(j), d, v) + if coord_of(
            pts,
            s[j],
            d,
        ) < v {
            1int
        } else {
            0int
        },
        count_on_dim_le(pts, s, d, v) == count_on_dim_le(pts, s.remove(j), d, v) + if coord_of(
            pts,
            s[j],
            d,
        ) <= v {
            1int
        } else {
            0int
        },
    decreases s.len(),
{
    if j == s.len() - 1 {
        assert(s.remove(j) =~= s.drop_last());
    } else {
        assert(s.remove(j).drop_last() =~= s.drop_last().remove(j));
        assert(s.remove(j).last() == s.last());
        assert(s.drop_last()[j] == s[j]);
        lemma_count_remove(pts, s.drop_last(), d, v, j);
    }
}

/// The counts depend only on the multiset of indices.
pub(crate) proof fn lemma_count_perm(pts: Seq<Seq<i32>>, s1: Seq<usize>, s2: Seq<usize>, d: int, v: int)
    requires
        s1.to_multiset() == s2.to_multiset(),
    ensures
        count_on_dim_lt(pts, s1, d, v) == count_on_dim_lt(pts, s2, d, v),
        count_on_dim_le(pts, s1, d, v) == count_on_dim_le(pts, s2, d, v),
    decreases s1.len(),
{
    broadcast use vstd::seq_lib::group_to_multiset_ensures;

    if s1.len() == 0 {
        assert(s1.to_multiset().len() == s1.len());
        assert(s2.to_multiset().len() == s2.len());
        assert(s2.len() == 0);
    } else {
        let e = s1[0];
        assert(s1.contains(e));
        assert(s2.to_multiset().count(e) > 0);
        assert(s2.contains(e));
        let j = choose|j: int| 0 <= j < s2.len() && s2[j] == e;
        lemma_count_remove(pts, s1, d, v, 0);
        lemma_count_remove(pts, s2, d, v, j);
        assert(s1.remove(0) =~= s1.drop_first());
        assert(s1.remove(0).to_multiset() == s1.to_multiset().remove(e));
        assert(s2.remove(j).to_multiset() == s2.to_multiset().remove(e));
        lemma_count_perm(pts, s1.drop_first(), s2.remove(j), d, v);
    }
}

/// What the partitioning routine guarantees about its output on the
/// chosen dimension `dd` (of `d` dimensions in all): the median is the
/// element of middle rank there (at most half the input lies strictly
/// below its coordinate, and a strict majority lies at or below it); the
/// right half never goes below the median's coordinate; the left half
/// stays strictly below it, except in the degenerate case where no point
/// at all lies strictly below it, when one element at or above it is
/// moved over instead; and `dd` is a dimension of maximal spread, ties
/// broken by first occurrence.
pub open spec fn good_split(
    pts: Seq<Seq<i32>>,
    all: Seq<usize>,
    l: Seq<usize>,
    m: usize,
    r: Seq<usize>,
    dd: int,
    d: int,
) -> bool {
    let mc = coord_of(pts, m, dd);
    &&& count_on_dim_lt(pts, all, dd, mc) <= all.len() / 2
    &&& count_on_dim_le(pts, all, dd, mc) >= all.len() / 2 + 1
    &&& all_on_dim_ge(pts, r, dd, mc)
    &&& ((all_on_dim_lt(pts, l, dd, mc) && l.len() <= all.len() / 2) || (count_on_dim_lt(
        pts,
        all,
        dd,
        mc,
    ) == 0 && l.len() == 1 && all_on_dim_ge(pts, l, dd, mc)))
    &&& forall|d2: int| 0 <= d2 < d ==> spread_on(pts, all, d2) <= spread_on(pts, all, dd)
    &&& forall|d2: int| 0 <= d2 < dd ==> spread_on(pts, all, d2) < spread_on(pts, all, dd)
}

/// The partitioning routine's full guarantee: some dimension `dd` below
/// `d` is a dimension of greatest spread, and the output is a good split
/// along it.
pub open spec fn well_split(
    pts: Seq<Seq<i32>>,
    all: Seq<usize>,
    l: Seq<usize>,
    m: usize,
    r: Seq<usize>,
    d: int,
) -> bool {
    exists|dd: int| 0 <= dd < d && #[trigger] good_split(pts, all, l, m, r, dd, d)
}

/// Relies on `order_stat::kth_by` (Floyd-Rivest selection), compared by
/// the points' coordinates on dimension `d`: it reorders the slice,
/// placing the element of rank `k` at position `k`, with not-greater
/// elements before it and not-less elements after it.
#[verifier::external_body]
fn select_kth_on_dim(points: &Vec<Vec<i32>>, idxs: &mut Vec<usize>, k: usize, d: usize)
    requires
        k < old(idxs)@.len(),
        forall|i: int| 0 <= i < old(idxs)@.len() ==> (#[trigger] old(idxs)@[i]) < points@.len(),
        forall|i: int|
            0 <= i < old(idxs)@.len() ==> (d as int) < points@[(#[trigger] old(idxs)@[i]) as int]@.len(),
    ensures
        final(idxs)@.len() == old(idxs)@.len(),
        final(idxs)@.to_multiset() == old(idxs)@.to_multiset(),
        forall|i: int|
            0 <= i < k ==> coord_of(views_of(points@), #[trigger] final(idxs)@[i], d as int)
                <= coord_of(views_of(points@), final(idxs)@[k as int], d as int),
        forall|i: int|
            k < i < final(idxs)@.len() ==> coord_of(
                views_of(points@),
                #[trigger] final(idxs)@[i],
                d as int,
            ) >= coord_of(views_of(points@), final(idxs)@[k as int], d as int),
{
    order_stat::kth_by(
        idxs.as_mut_slice(),
        k,
        |a: &usize, b: &usize| points[*a][d].cmp(&points[*b][d]),
    );
}

/// The range of the indexed points' coordinates on dimension `d`,
/// computed in one pass.
fn spread_exec(points: &Vec<Vec<i32>>, idxs: &Vec<usize>, d: usize) -> (s: i64)
    requires
        idxs@.len() >= 1,
        forall|i: int| 0 <= i < idxs@.len() ==> (#[trigger] idxs@[i]) < points@.len(),
        forall|i: int|
            0 <= i < idxs@.len() ==> (d as int) < points@[(#[trigger] idxs@[i]) as int]@.len(),
    ensures
        s as int == spread_on(views_of(points@), idxs@, d as int),
{
    let ghost pts = views_of(points@);
    let first = idxs[0];
    let mut mn: i32 = points[first][d];
    let mut mx: i32 = points[first][d];
    let mut i: usize = 1;
    while i < idxs.len()
        invariant
            1 <= i <= idxs@.len(),
            pts == views_of(points@),
            forall|p: int| 0 <= p < idxs@.len() ==> (#[trigger] idxs@[p]) < points@.len(),
            forall|p: int|
                0 <= p < idxs@.len() ==> (d as int) < points@[(#[trigger] idxs@[p]) as int]@.len(),
            mn as int == min_on(pts, idxs@.take(i as int), d as int),
            mx as int == max_on(pts, idxs@.take(i as int), d as int),
        decreases idxs@.len() - i,
    {
        let j = idxs[i];
        let c: i32 = points[j][d];
        proof {
            assert(idxs@.take(i as int + 1).drop_last() =~= idxs@.take(i as int));
            assert(idxs@.take(i as int + 1).last() == idxs@[i as int]);
            assert(idxs@.take(i as int + 1).len() > 1);
        }
        if c < mn {
            mn = c;
        }
        if c > mx {
            mx = c;
        }
        i = i + 1;
    }
    proof {
        assert(idxs@.take(idxs@.len() as int) =~= idxs@);
    }
    mx as i64 - mn as i64
}

/// Pick the dimension of greatest coordinate spread, ties broken by
/// first occurrence.
fn choose_split_dim(points: &Vec<Vec<i32>>, idxs: &Vec<usize>, d: usize) -> (dim: usize)
    requires
        idxs@.len() >= 1,
        d >= 1,
        forall|i: int| 0 <= i < idxs@.len() ==> (#[trigger] idxs@[i]) < points@.len(),
        forall|i: int|
            0 <= i < idxs@.len() ==> points@[(#[trigger] idxs@[i]) as int]@.len() == d as int,
    ensures
        (dim as int) < d as int,
        forall|d2: int|
            0 <= d2 < d as int ==> spread_on(views_of(points@), idxs@, d2) <= spread_on(
                views_of(points@),
                idxs@,
                dim as int,
            ),
        forall|d2: int|
            0 <= d2 < dim as int ==> spread_on(views_of(points@), idxs@, d2) < spread_on(
                views_of(points@),
                idxs@,
                dim as int,
            ),
{
    let ghost pts = views_of(points@);
    let mut best_dim: usize = 0;
    let mut best_spread: i64 = spread_exec(points, idxs, 0);
    let mut d2: usize = 1;
    while d2 < d
        invariant
            1 <= d2 <= d as int,
            (best_dim as int) < d2 as int,
            pts == views_of(points@),
            idxs@.len() >= 1,
            forall|p: int| 0 <= p < idxs@.len() ==> (#[trigger] idxs@[p]) < points@.len(),
            forall|p: int|
                0 <= p < idxs@.len() ==> points@[(#[trigger] idxs@[p]) as int]@.len() == d as int,
            best_spread as int == spread_on(pts, idxs@, best_dim as int),
            forall|p: int| 0 <= p < d2 as int ==> spread_on(pts, idxs@, p) <= best_spread as int,
            forall|p: int|
                0 <= p < best_dim as int ==> spread_on(pts, idxs@, p) < best_spread as int,
        decreases d - d2,
    {
        let s = spread_exec(points, idxs, d2);
        if s > best_spread {
            best_dim = d2;
            best_spread = s;
        }
        d2 = d2 + 1;
    }
    best_dim
}

/// Split a non-empty point set with at least two members into two
/// non-empty halves around the element of middle rank on the dimension
/// of greatest spread.  The two halves together are a permutation of the
/// input; the median is one of the input points.  In the degenerate case
/// where no point lies strictly below the median's coordinate, one
/// element is moved over so that both halves stay non-empty — this keeps
/// both strictly smaller than the input, which is what makes the
/// recursive tree construction terminate.
#[verifier::rlimit(60)]
pub fn partition(points: &Vec<Vec<i32>>, idxs: Vec<usize>) -> (res: (Vec<usize>, usize, Vec<usize>))
    requires
        idxs@.len() >= 2,
        forall|i: int| 0 <= i < idxs@.len() ==> (#[trigger] idxs@[i]) < points@.len(),
        forall|i: int|
            0 <= i < idxs@.len() ==> points@[(#[trigger] idxs@[i]) as int]@.len() == points@[idxs@[0] as int]@.len(),
        points@[idxs@[0] as int]@.len() >= 1,
    ensures
        res.0@.len() >= 1,
        res.2@.len() >= 1,
        res.0@.len() + res.2@.len() == idxs@.len(),
        res.0@.to_multiset().add(res.2@.to_multiset()) == idxs@.to_multiset(),
        idxs@.to_multiset().contains(res.1),
        (res.1 as int) < points@.len(),
        well_split(
            views_of(points@),
            idxs@,
            res.0@,
            res.1,
            res.2@,
            points@[idxs@[0] as int]@.len() as int,
        ),
{
    broadcast use vstd::seq_lib::group_to_multiset_ensures;

    let ghost pts = views_of(points@);
    let ghost all0 = idxs@;
    let d = points[idxs[0]].len();
    let dim = choose_split_dim(points, &idxs, d);
    let mid = idxs.len() / 2;
    let mut work = idxs;
    select_kth_on_dim(points, &mut work, mid, dim);
    let m = work[mid];
    proof {
        broadcast use vstd::seq_lib::group_to_multiset_ensures;

        assert(work@.contains(m));
        assert(work@.to_multiset().contains(m));
        assert(all0.to_multiset().count(m) > 0);
        assert(all0.contains(m));
        let p0 = choose|p: int| 0 <= p < all0.len() && all0[p] == m;
        assert(all0[p0] < points@.len());
        assert(points@[all0[p0] as int]@.len() == points@[all0[0] as int]@.len());
    }
    let mc: i32 = points[m][dim];
    let ghost mci = mc as int;
    proof {
        assert forall|p: int| 0 <= p < work@.len() implies (#[trigger] work@[p]) < points@.len()
            && points@[work@[p] as int]@.len() == points@[all0[0] as int]@.len() by {
            assert(work@.contains(work@[p]));
            assert(all0.to_multiset().count(work@[p]) > 0);
            assert(all0.contains(work@[p]));
            let p1 = choose|t: int| 0 <= t < all0.len() && all0[t] == work@[p];
            assert(all0[p1] < points@.len());
        }
    }
    let mut l: Vec<usize> = Vec::new();
    let mut r: Vec<usize> = Vec::new();
    let mut i: usize = 0;
    while i < work.len()
        invariant
            0 <= i <= work@.len(),
            work@.len() == all0.len(),
            pts == views_of(points@),
            mci == coord_of(pts, m, dim as int),
            mci == mc as int,
            (dim as int) < points@[all0[0] as int]@.len(),
            forall|p: int| 0 <= p < work@.len() ==> (#[trigger] work@[p]) < points@.len(),
            forall|p: int|
                0 <= p < work@.len() ==> points@[(#[trigger] work@[p]) as int]@.len() == points@[all0[0] as int]@.len(),
            forall|p: int|
                mid < p < work@.len() ==> coord_of(pts, #[trigger] work@[p], dim as int) >= mci,
            forall|p: int|
                0 <= p < mid ==> coord_of(pts, #[trigger] work@[p], dim as int) <= mci,
            coord_of(pts, work@[mid as int], dim as int) == mci,
            mid == all0.len() as int / 2,
            l@.to_multiset().add(r@.to_multiset()) == work@.take(i as int).to_multiset(),
            l@.len() + r@.len() == i,
            l@.len() == count_on_dim_lt(pts, work@.take(i as int), dim as int, mci),
            count_on_dim_le(pts, work@.take(i as int), dim as int, mci) >= if i <= mid {
                i as int
            } else {
                mid as int + 1
            },
            l@.len() <= if i <= mid {
                i as int
            } else {
                mid as int
            },
            all_on_dim_lt(pts, l@, dim as int, mci),
            all_on_dim_ge(pts, r@, dim as int, mci),
            forall|p: int| 0 <= p < l@.len() ==> (#[trigger] l@[p]) < points@.len(),
            forall|p: int| 0 <= p < r@.len() ==> (#[trigger] r@[p]) < points@.len(),
        decreases work@.len() - i,
    {
        let v = work[i];
        let c: i32 = points[v][dim];
        proof {
            assert(work@.take(i as int + 1) =~= work@.take(i as int).push(v));
            assert(work@.take(i as int + 1).drop_last() =~= work@.take(i as int));
            assert(work@.take(i as int + 1).last() == v);
            assert(pts[v as int] == points@[v as int]@);
            assert(coord_of(pts, v, dim as int) == c as int);
            if i as int >= mid as int {
                assert(coord_of(pts, work@[i as int], dim as int) >= mci);
            }
            if (i as int) < mid as int {
                assert(coord_of(pts, work@[i as int], dim as int) <= mci);
            }
            assert(count_on_dim_lt(pts, work@.take(i as int + 1), dim as int, mci)
                == count_on_dim_lt(pts, work@.take(i as int), dim as int, mci) + if coord_of(
                pts,
                v,
                dim as int,
            ) < mci {
                1int
            } else {
                0int
            });
            assert(count_on_dim_le(pts, work@.take(i as int + 1), dim as int, mci)
                == count_on_dim_le(pts, work@.take(i as int), dim as int, mci) + if coord_of(
                pts,
                v,
                dim as int,
            ) <= mci {
                1int
            } else {
                0int
            });
        }
        if c < mc {
            l.push(v);
            proof {
                broadcast use vstd::multiset::group_multiset_axioms;
                broadcast use vstd::seq_lib::group_to_multiset_ensures;

                assert(l@.to_multiset().add(r@.to_multiset()) =~= work@.take(
                    i as int + 1,
                ).to_multiset());
            }
        } else {
            r.push(v);
            proof {
                broadcast use vstd::multiset::group_multiset_axioms;
                broadcast use vstd::seq_lib::group_to_multiset_ensures;

                assert(l@.to_multiset().add(r@.to_multiset()) =~= work@.take(
                    i as int + 1,
                ).to_multiset());
            }
        }
        i = i + 1;
    }
    proof {
        assert(work@.take(work@.len() as int) =~= work@);
        assert(l@.len() == count_on_dim_lt(pts, work@, dim as int, mci));
        assert(count_on_dim_lt(pts, work@, dim as int, mci) <= mid as int);
        assert(count_on_dim_le(pts, work@, dim as int, mci) >= mid as int + 1);
        lemma_count_perm(pts, work@, all0, dim as int, mci);
        assert(count_on_dim_lt(pts, all0, dim as int, mci) <= all0.len() / 2);
        assert(count_on_dim_le(pts, all0, dim as int, mci) >= all0.len() / 2 + 1);
    }
    if l.len() == 0 {
        let ghost lpre = l@;
        let ghost rpre = r@;
        let moved = r.pop().unwrap();
        l.push(moved);
        proof {
            broadcast use vstd::multiset::group_multiset_axioms;
            broadcast use vstd::seq_lib::group_to_multiset_ensures;

            assert(lpre =~= Seq::<usize>::empty());
            assert(lpre.to_multiset() =~= Multiset::<usize>::empty());
            assert(rpre =~= r@.push(moved));
            assert(l@ =~= lpre.push(moved));
            assert(l@.to_multiset() =~= Multiset::<usize>::empty().insert(moved));
            assert(rpre.to_multiset() =~= r@.to_multiset().insert(moved));
            assert(lpre.to_multiset().add(rpre.to_multiset()) =~= rpre.to_multiset());
            assert(l@.to_multiset().add(r@.to_multiset()) =~= rpre.to_multiset());
            assert(l@.to_multiset().add(r@.to_multiset()) =~= work@.to_multiset());
            // no point lies strictly below the median coordinate here
            assert(count_on_dim_lt(pts, all0, dim as int, mci) == 0);
            assert(all_on_dim_ge(pts, l@, dim as int, mci));
            assert(all_on_dim_ge(pts, r@, dim as int, mci));
            assert(good_split(pts, all0, l@, m, r@, dim as int, points@[all0[0] as int]@.len() as int));
        }
    } else {
        proof {
            assert(l@.to_multiset().add(r@.to_multiset()) =~= work@.to_multiset());
            assert(good_split(pts, all0, l@, m, r@, dim as int, points@[all0[0] as int]@.len() as int));
        }
    }
    proof {
        assert(l@.to_multiset().add(r@.to_multiset()) == all0.to_multiset());
        assert(all0.to_multiset().contains(m));
        assert(well_split(
            views_of(points@),
            all0,
            l@,
            m,
            r@,
            points@[all0[0] as int]@.len() as int,
        )) by {
            assert(good_split(
                views_of(points@),
                all0,
                l@,
                m,
                r@,
                dim as int,
                points@[all0[0] as int]@.len() as int,
            ));
        }
    }
    (l, m, r)
}

} // verus!
