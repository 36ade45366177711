//! The distance abstraction: a reduced (cheap, monotone) distance, the
//! conversion from true-distance thresholds to reduced units, and a lower
//! bound on the reduced distance from a query point to a bounding sphere.
//!
//! The query engine compares candidates in reduced units only, so an
//! implementation never has to materialize a true distance; it has to
//! justify, once and for all, that its sphere bound never overestimates
//! (`lemma_lb_admissible`), which is what makes branch-and-bound pruning
//! sound.

use vstd::prelude::*;

verus! {

/// Absolute value of a mathematical integer.
pub open spec fn abs_int(x: int) -> int {
    if x < 0 {
        -x
    } else {
        x
    }
}

/// The coordinate-wise differences `a[i] - b[i]` as mathematical integers.
pub open spec fn diffs(a: Seq<i32>, b: Seq<i32>) -> Seq<int> {
    Seq::new(a.len(), |i: int| a[i] - b[i])
}

/// The coordinate-wise sums `v[i] + w[i]`.
pub open spec fn add_seq(v: Seq<int>, w: Seq<int>) -> Seq<int> {
    Seq::new(v.len(), |i: int| v[i] + w[i])
}

/// Sum of the squares of the entries of `v`.
pub open spec fn sum_sq(v: Seq<int>) -> int
    decreases v.len(),
{
    if v.len() == 0 {
        0
    } else {
        sum_sq(v.drop_last()) + v.last() * v.last()
    }
}

/// Sum of the products of corresponding entries of `v` and `w`.
pub open spec fn sum_prod(v: Seq<int>, w: Seq<int>) -> int
    decreases v.len(),
{
    if v.len() == 0 {
        0
    } else {
        sum_prod(v.drop_last(), w.drop_last()) + v.last() * w.last()
    }
}

/// Sum of the absolute values of the entries of `v`.
pub open spec fn sum_abs(v: Seq<int>) -> int
    decreases v.len(),
{
    if v.len() == 0 {
        0
    } else {
        sum_abs(v.drop_last()) + abs_int(v.last())
    }
}

pub proof fn lemma_sum_sq_nonneg(v: Seq<int>)
    ensures
        sum_sq(v) >= 0,
    decreases v.len(),
{
    if v.len() > 0 {
        lemma_sum_sq_nonneg(v.drop_last());
        assert(v.last() * v.last() >= 0) by (nonlinear_arith);
    }
}

pub proof fn lemma_sum_abs_nonneg(v: Seq<int>)
    ensures
        sum_abs(v) >= 0,
    decreases v.len(),
{
    if v.len() > 0 {
        lemma_sum_abs_nonneg(v.drop_last());
    }
}

/// If every entry of `v` is at most `m` in magnitude, the sum of squares is
/// at most `len * m * m`.
pub proof fn lemma_sum_sq_bounded(v: Seq<int>, m: int)
    requires
        m >= 0,
        forall|i: int| 0 <= i < v.len() ==> abs_int(#[trigger] v[i]) <= m,
    ensures
        sum_sq(v) <= v.len() * m * m,
    decreases v.len(),
{
    if v.len() == 0 {
    } else {
        let v1 = v.drop_last();
        assert(forall|i: int| 0 <= i < v1.len() ==> abs_int(#[trigger] v1[i]) <= m);
        lemma_sum_sq_bounded(v1, m);
        let a = v.last();
        assert(a * a <= m * m) by (nonlinear_arith)
            requires
                abs_int(a) <= m,
                m >= 0,
        ;
        assert(v1.len() * m * m + m * m == v.len() * m * m) by (nonlinear_arith)
            requires
                v.len() == v1.len() + 1,
        ;
    }
}

/// If every entry of `v` is at most `m` in magnitude, the sum of absolute
/// values is at most `len * m`.
pub proof fn lemma_sum_abs_bounded(v: Seq<int>, m: int)
    requires
        m >= 0,
        forall|i: int| 0 <= i < v.len() ==> abs_int(#[trigger] v[i]) <= m,
    ensures
        sum_abs(v) <= v.len() * m,
    decreases v.len(),
{
    if v.len() == 0 {
    } else {
        let v1 = v.drop_last();
        assert(forall|i: int| 0 <= i < v1.len() ==> abs_int(#[trigger] v1[i]) <= m);
        lemma_sum_abs_bounded(v1, m);
        assert(v1.len() * m + m == v.len() * m) by (nonlinear_arith)
            requires
                v.len() == v1.len() + 1,
        ;
    }
}

/// The Cauchy-Schwarz inequality over integer sequences.
pub proof fn lemma_cauchy_schwarz(v: Seq<int>, w: Seq<int>)
    requires
        v.len() == w.len(),
    ensures
        sum_prod(v, w) * sum_prod(v, w) <= sum_sq(v) * sum_sq(w),
    decreases v.len(),
{
    if v.len() == 0 {
    } else {
        let v1 = v.drop_last();
        let w1 = w.drop_last();
        lemma_cauchy_schwarz(v1, w1);
        lemma_sum_sq_nonneg(v1);
        lemma_sum_sq_nonneg(w1);
        let aa = sum_sq(v1);
        let bb = sum_sq(w1);
        let cc = sum_prod(v1, w1);
        let a = v.last();
        let b = w.last();
        // 2*a*b*cc is bounded by aa*b*b + a*a*bb: both sides squared differ
        // by a perfect square, and the right side is non-negative.
        assert((aa * (b * b) - (a * a) * bb) * (aa * (b * b) - (a * a) * bb) >= 0)
            by (nonlinear_arith);
        assert((aa * (b * b) + (a * a) * bb) * (aa * (b * b) + (a * a) * bb) >= 4 * (aa * bb) * (
        (a * a) * (b * b))) by (nonlinear_arith)
            requires
                (aa * (b * b) - (a * a) * bb) * (aa * (b * b) - (a * a) * bb) >= 0,
        ;
        assert(4 * (cc * cc) * ((a * a) * (b * b)) <= 4 * (aa * bb) * ((a * a) * (b * b)))
            by (nonlinear_arith)
            requires
                cc * cc <= aa * bb,
        ;
        assert(aa * (b * b) >= 0 && (a * a) * bb >= 0) by (nonlinear_arith)
            requires
                aa >= 0,
                bb >= 0,
        ;
        assert(2 * (a * b) * cc <= aa * (b * b) + (a * a) * bb) by (nonlinear_arith)
            requires
                4 * (cc * cc) * ((a * a) * (b * b)) <= (aa * (b * b) + (a * a) * bb) * (aa * (b * b)
                    + (a * a) * bb),
                aa * (b * b) + (a * a) * bb >= 0,
        ;
        assert((cc + a * b) * (cc + a * b) <= (aa + a * a) * (bb + b * b)) by (nonlinear_arith)
            requires
                cc * cc <= aa * bb,
                2 * (a * b) * cc <= aa * (b * b) + (a * a) * bb,
        ;
    }
}

/// Squared length of a coordinate-wise sum, expanded bilinearly.
pub proof fn lemma_sum_sq_add(v: Seq<int>, w: Seq<int>)
    requires
        v.len() == w.len(),
    ensures
        sum_sq(add_seq(v, w)) == sum_sq(v) + 2 * sum_prod(v, w) + sum_sq(w),
    decreases v.len(),
{
    if v.len() == 0 {
        assert(add_seq(v, w) =~= Seq::<int>::empty());
    } else {
        let v1 = v.drop_last();
        let w1 = w.drop_last();
        lemma_sum_sq_add(v1, w1);
        assert(add_seq(v, w).drop_last() =~= add_seq(v1, w1));
        assert(add_seq(v, w).last() == v.last() + w.last());
        let a = v.last();
        let b = w.last();
        assert((a + b) * (a + b) == a * a + 2 * (a * b) + b * b) by (nonlinear_arith);
    }
}

/// The capability set required of a distance function: a reduced distance,
/// a conversion of true-distance thresholds into reduced units, and a lower
/// bound for bounding spheres.  The proof obligations are the contract that
/// user-supplied metrics must satisfy; the query engine's correctness rests
/// on them and on nothing else about the metric.
pub trait Distance: Sized {
    /// Reduced distance between two points of equal dimension: a cheap,
    /// monotonically increasing surrogate of the true distance.
    spec fn rdist(a: Seq<i32>, b: Seq<i32>) -> int;

    /// Reduced-units equivalent of a true-distance threshold `r`: a point
    /// lies within true distance `r` of a query exactly when its reduced
    /// distance is at most `rdist_of_dist(r)`.
    spec fn rdist_of_dist(r: int) -> int;

    /// True-units equivalent of a reduced distance, rounded down onto the
    /// integer grid where the true distance is irrational.
    spec fn dist_of_rdist(rd: int) -> int;

    /// Lower bound, in reduced units, on the reduced distance from a query
    /// point to any point of a bounding sphere, given the reduced distance
    /// `d` from the query to the sphere's center and the sphere's reduced
    /// radius.
    spec fn lb(d: int, radius: int) -> int;

    /// Reduced distances are never negative.
    proof fn lemma_rdist_nonneg(a: Seq<i32>, b: Seq<i32>)
        requires
            a.len() == b.len(),
        ensures
            Self::rdist(a, b) >= 0,
    ;

    /// On machine-representable points the reduced distance fits strictly
    /// below `u128::MAX`, so `u128::MAX` can serve as an unreachable cap.
    proof fn lemma_rdist_fits(a: Seq<i32>, b: Seq<i32>)
        requires
            a.len() == b.len(),
            a.len() <= usize::MAX,
        ensures
            Self::rdist(a, b) < u128::MAX,
    ;

    /// Threshold conversion preserves the order of true distances.
    proof fn lemma_conv_monotone(r1: int, r2: int)
        requires
            0 <= r1 <= r2,
        ensures
            Self::rdist_of_dist(r1) <= Self::rdist_of_dist(r2),
    ;

    /// The two conversions invert each other on representable true
    /// distances, and going back from reduced units never overshoots.
    proof fn lemma_conv_inverse(r: int, rd: int)
        requires
            0 <= r,
            0 <= rd,
        ensures
            Self::dist_of_rdist(Self::rdist_of_dist(r)) == r,
            Self::rdist_of_dist(Self::dist_of_rdist(rd)) <= rd,
    ;

    /// The sphere bound is non-negative and never exceeds the reduced
    /// distance to the sphere's center.
    proof fn lemma_lb_range(d: int, radius: int)
        requires
            0 <= d,
            0 <= radius,
        ensures
            0 <= Self::lb(d, radius) <= d,
    ;

    /// Admissibility: the sphere bound never overestimates the reduced
    /// distance to a point inside the sphere.  This is the triangle
    /// inequality of the underlying true distance, phrased in reduced
    /// units, and it is exactly what makes pruning a subtree sound.
    proof fn lemma_lb_admissible(q: Seq<i32>, c: Seq<i32>, x: Seq<i32>, radius: int)
        requires
            q.len() == c.len(),
            c.len() == x.len(),
            Self::rdist(c, x) <= radius,
        ensures
            Self::lb(Self::rdist(q, c), radius) <= Self::rdist(q, x),
    ;

    /// Compute the reduced distance between two points.
    fn rdistance(&self, a: &Vec<i32>, b: &Vec<i32>) -> (r: u128)
        requires
            a@.len() == b@.len(),
        ensures
            r as int == Self::rdist(a@, b@),
    ;

    /// Convert a true-distance threshold into reduced units.
    fn dist_to_rdist(&self, r: u64) -> (res: u128)
        ensures
            res as int == Self::rdist_of_dist(r as int),
    ;

    /// Convert a reduced distance back into true units, rounding down.
    fn rdist_to_dist(&self, rd: u128) -> (res: u128)
        ensures
            res as int == Self::dist_of_rdist(rd as int),
    ;

    /// Compute the sphere lower bound from a center distance and a radius,
    /// both in reduced units.
    fn sphere_lb(&self, d: u128, radius: u128) -> (res: u128)
        ensures
            res as int == Self::lb(d as int, radius as int),
    ;
}

/// Integer square root, rounded down; defined for non-negative arguments
/// and zero below.
pub open spec fn sqrt_floor(n: int) -> int
    decreases n,
{
    if n < 1 {
        0
    } else {
        let r = sqrt_floor(n - 1);
        if (r + 1) * (r + 1) <= n {
            r + 1
        } else {
            r
        }
    }
}

/// `sqrt_floor(n)` is the unique `r >= 0` with `r * r <= n < (r+1) * (r+1)`.
pub proof fn lemma_sqrt_floor(n: int)
    requires
        n >= 0,
    ensures
        sqrt_floor(n) >= 0,
        sqrt_floor(n) * sqrt_floor(n) <= n,
        n < (sqrt_floor(n) + 1) * (sqrt_floor(n) + 1),
    decreases n,
{
    if n == 0 {
    } else {
        lemma_sqrt_floor(n - 1);
        let r = sqrt_floor(n - 1);
        if (r + 1) * (r + 1) <= n {
            assert(n <= (r + 1) * (r + 1));
            assert(n < (r + 2) * (r + 2)) by (nonlinear_arith)
                requires
                    n <= (r + 1) * (r + 1),
                    r >= 0,
            ;
        }
    }
}

/// Any `r` satisfying the floor-square-root bracketing equals
/// `sqrt_floor(n)`.
pub proof fn lemma_sqrt_floor_unique(n: int, r: int)
    requires
        n >= 0,
        r >= 0,
        r * r <= n,
        n < (r + 1) * (r + 1),
    ensures
        r == sqrt_floor(n),
{
    lemma_sqrt_floor(n);
    let s = sqrt_floor(n);
    assert(r == s) by (nonlinear_arith)
        requires
            r >= 0,
            s >= 0,
            r * r <= n,
            n < (r + 1) * (r + 1),
            s * s <= n,
            n < (s + 1) * (s + 1),
    ;
}

/// Exact integer square root of a `u128`, rounded down.
fn isqrt_u128(n: u128) -> (r: u64)
    ensures
        r as int == sqrt_floor(n as int),
{
    let mut lo: u128 = 0;
    let mut hi: u128 = 0x1_0000_0000_0000_0000;
    proof {
        assert((hi as int) * (hi as int) > u128::MAX as int) by (nonlinear_arith)
            requires
                hi == 0x1_0000_0000_0000_0000u128,
        ;
    }
    while hi - lo > 1
        invariant
            0 <= lo < hi,
            hi <= 0x1_0000_0000_0000_0000u128,
            (lo as int) * (lo as int) <= n as int,
            (n as int) < (hi as int) * (hi as int),
        decreases hi - lo,
    {
        let mid: u128 = lo + (hi - lo) / 2;
        assert(lo < mid < hi);
        let sq_ok: bool = {
            proof {
                assert((mid as int) * (mid as int) <= (0xFFFF_FFFF_FFFF_FFFFu128 as int) * (
                0xFFFF_FFFF_FFFF_FFFFu128 as int)) by (nonlinear_arith)
                    requires
                        0 <= mid as int <= 0xFFFF_FFFF_FFFF_FFFFu128 as int,
                ;
            }
            mid * mid <= n
        };
        if sq_ok {
            lo = mid;
        } else {
            hi = mid;
        }
    }
    proof {
        assert(hi == lo + 1);
        lemma_sqrt_floor_unique(n as int, lo as int);
    }
    lo as u64
}

/// Squared Euclidean distance: the default metric.  The reduced distance is
/// the squared true distance; the sphere bound is computed through exact
/// integer square roots.
#[derive(Clone, Copy, Debug)]
pub struct L2Dist;

/// Manhattan distance: an alternative metric whose reduced form is the
/// distance itself.
#[derive(Clone, Copy, Debug)]
pub struct L1Dist;

impl Distance for L2Dist {
    open spec fn rdist(a: Seq<i32>, b: Seq<i32>) -> int {
        sum_sq(diffs(a, b))
    }

    open spec fn rdist_of_dist(r: int) -> int {
        r * r
    }

    open spec fn dist_of_rdist(rd: int) -> int {
        sqrt_floor(rd)
    }

    open spec fn lb(d: int, radius: int) -> int {
        let a = sqrt_floor(d);
        let b = sqrt_floor(radius);
        if a > b + 1 {
            (a - b - 1) * (a - b - 1)
        } else {
            0
        }
    }

    proof fn lemma_rdist_nonneg(a: Seq<i32>, b: Seq<i32>) {
        lemma_sum_sq_nonneg(diffs(a, b));
    }

    proof fn lemma_rdist_fits(a: Seq<i32>, b: Seq<i32>) {
        let v = diffs(a, b);
        assert forall|i: int| 0 <= i < v.len() implies abs_int(#[trigger] v[i])
            <= (0xFFFF_FFFFu64 as int) by {
            assert(i32::MIN <= a[i] <= i32::MAX);
            assert(i32::MIN <= b[i] <= i32::MAX);
        }
        lemma_sum_sq_bounded(v, (0xFFFF_FFFFu64 as int));
        assert(v.len() * (0xFFFF_FFFFu64 as int) * (0xFFFF_FFFFu64 as int) < u128::MAX) by (nonlinear_arith)
            requires
                0 <= v.len() <= usize::MAX,
                usize::MAX <= (0xFFFF_FFFF_FFFF_FFFFu64 as int),
        ;
    }

    proof fn lemma_conv_monotone(r1: int, r2: int) {
        assert(r1 * r1 <= r2 * r2) by (nonlinear_arith)
            requires
                0 <= r1 <= r2,
        ;
    }

    proof fn lemma_conv_inverse(r: int, rd: int) {
        assert(r * r >= 0 && r * r < (r + 1) * (r + 1)) by (nonlinear_arith)
            requires
                0 <= r,
        ;
        lemma_sqrt_floor_unique(r * r, r);
        lemma_sqrt_floor(rd);
    }

    proof fn lemma_lb_range(d: int, radius: int) {
        lemma_sqrt_floor(d);
        lemma_sqrt_floor(radius);
        let a = sqrt_floor(d);
        let b = sqrt_floor(radius);
        if a > b + 1 {
            assert((a - b - 1) * (a - b - 1) <= a * a) by (nonlinear_arith)
                requires
                    0 <= a - b - 1 <= a,
            ;
        }
    }

    proof fn lemma_lb_admissible(q: Seq<i32>, c: Seq<i32>, x: Seq<i32>, radius: int) {
        let v = diffs(q, c);
        let w = diffs(c, x);
        let u = diffs(q, x);
        assert(u =~= add_seq(v, w));
        lemma_sum_sq_add(v, w);
        lemma_cauchy_schwarz(v, w);
        lemma_sum_sq_nonneg(v);
        lemma_sum_sq_nonneg(w);
        let av = sum_sq(v);
        let bw = sum_sq(w);
        let s = sum_prod(v, w);
        let t = sum_sq(u);
        assert(t == av + 2 * s + bw);
        lemma_sqrt_floor(av);
        assert(radius >= 0);
        lemma_sqrt_floor(radius);
        let a = sqrt_floor(av);
        let b = sqrt_floor(radius);
        if a > b + 1 {
            let m = a - b - 1;
            let g = m * m;
            assert(g <= a * a) by (nonlinear_arith)
                requires
                    0 <= m <= a,
                    g == m * m,
            ;
            if s >= 0 {
                assert(t >= av >= a * a >= g);
            } else {
                // Suppose t < g; we derive a contradiction from
                // Cauchy-Schwarz and the square-root bracketings.
                if t < g {
                    // -2s exceeds av + bw - g >= 0, so 4*s*s
                    // dominates its square.
                    assert(av + bw - g >= bw >= 0);
                    assert(4 * (s * s) > (av + bw - g) * (av + bw - g)) by (nonlinear_arith)
                        requires
                            -2 * s > av + bw - g,
                            av + bw - g >= 0,
                    ;
                    assert(4 * (s * s) <= 4 * (av * bw)) by (nonlinear_arith)
                        requires
                            s * s <= av * bw,
                    ;
                    // Algebraic identity relating the two factorizations.
                    assert((av + bw - g) * (av + bw - g) - 4 * (av * bw) == (av - bw - g) * (av - bw
                        - g) - 4 * (bw * g)) by (nonlinear_arith);
                    // bw is capped by the radius bracketing.
                    assert(bw <= b * b + 2 * b) by (nonlinear_arith)
                        requires
                            bw <= radius,
                            radius < (b + 1) * (b + 1),
                    ;
                    // av - bw - g is at least 2*m*(b+1) + 1 > 0.
                    assert(av - bw - g >= 2 * m * (b + 1) + 1) by (nonlinear_arith)
                        requires
                            av >= a * a,
                            a == m + b + 1,
                            bw <= b * b + 2 * b,
                            g == m * m,
                    ;
                    assert((av - bw - g) * (av - bw - g) > 4 * (bw * g)) by (nonlinear_arith)
                        requires
                            av - bw - g >= 2 * m * (b + 1) + 1,
                            m >= 1,
                            b >= 0,
                            bw <= b * b + 2 * b,
                            bw >= 0,
                            g == m * m,
                    ;
                    assert(false);
                }
            }
        } else {
            lemma_sum_sq_nonneg(u);
        }
    }

    fn rdistance(&self, a: &Vec<i32>, b: &Vec<i32>) -> (r: u128) {
        let ghost dv = diffs(a@, b@);
        let n = a.len();
        let mut acc: u128 = 0;
        let mut i: usize = 0;
        while i < n
            invariant
                n == a@.len(),
                n == b@.len(),
                0 <= i <= n,
                dv == diffs(a@, b@),
                acc as int == sum_sq(dv.take(i as int)),
                acc as int <= (i as int) * (0xFFFF_FFFFu64 as int) * (0xFFFF_FFFFu64 as int),
            decreases n - i,
        {
            let d: i64 = a[i] as i64 - b[i] as i64;
            proof {
                assert((d as int) * (d as int) <= (0xFFFF_FFFFu64 as int) * (0xFFFF_FFFFu64 as int)
                    && (d as int) * (d as int) >= 0) by (nonlinear_arith)
                    requires
                        -(0xFFFF_FFFFu64 as int) <= d as int <= (0xFFFF_FFFFu64 as int),
                ;
            }
            let sq: u128 = ((d as i128) * (d as i128)) as u128;
            proof {
                assert(dv.take(i + 1).drop_last() =~= dv.take(i as int));
                assert(dv.take(i + 1).last() == dv[i as int]);
                assert(dv[i as int] == a@[i as int] - b@[i as int]);
                assert((i as int) * (0xFFFF_FFFFu64 as int) * (0xFFFF_FFFFu64 as int) + (0xFFFF_FFFFu64 as int)
                    * (0xFFFF_FFFFu64 as int) == (i + 1) * (0xFFFF_FFFFu64 as int) * (0xFFFF_FFFFu64 as int))
                    by (nonlinear_arith);
                assert((i + 1) * (0xFFFF_FFFFu64 as int) * (0xFFFF_FFFFu64 as int) <= u128::MAX) by (nonlinear_arith)
                    requires
                        0 <= i + 1 <= (0xFFFF_FFFF_FFFF_FFFFu64 as int),
                ;
            }
            acc = acc + sq;
            i = i + 1;
        }
        proof {
            assert(dv.take(n as int) =~= dv);
        }
        acc
    }

    fn dist_to_rdist(&self, r: u64) -> (res: u128) {
        proof {
            assert((r as int) * (r as int) <= ((0xFFFF_FFFF_FFFF_FFFFu64 as int)) * ((0xFFFF_FFFF_FFFF_FFFFu64 as int)))
                by (nonlinear_arith)
                requires
                    0 <= r as int <= (0xFFFF_FFFF_FFFF_FFFFu64 as int),
            ;
        }
        (r as u128) * (r as u128)
    }

    fn rdist_to_dist(&self, rd: u128) -> (res: u128) {
        isqrt_u128(rd) as u128
    }

    fn sphere_lb(&self, d: u128, radius: u128) -> (res: u128) {
        let a = isqrt_u128(d);
        let b = isqrt_u128(radius);
        if a > b && a - b > 1 {
            let m = a - b - 1;
            proof {
                assert((m as int) * (m as int) <= ((0xFFFF_FFFF_FFFF_FFFFu64 as int)) * (
                (0xFFFF_FFFF_FFFF_FFFFu64 as int))) by (nonlinear_arith)
                    requires
                        0 <= m as int <= (0xFFFF_FFFF_FFFF_FFFFu64 as int),
                ;
            }
            (m as u128) * (m as u128)
        } else {
            0
        }
    }
}

impl Distance for L1Dist {
    open spec fn rdist(a: Seq<i32>, b: Seq<i32>) -> int {
        sum_abs(diffs(a, b))
    }

    open spec fn rdist_of_dist(r: int) -> int {
        r
    }

    open spec fn dist_of_rdist(rd: int) -> int {
        rd
    }

    open spec fn lb(d: int, radius: int) -> int {
        if d > radius {
            d - radius
        } else {
            0
        }
    }

    proof fn lemma_rdist_nonneg(a: Seq<i32>, b: Seq<i32>) {
        lemma_sum_abs_nonneg(diffs(a, b));
    }

    proof fn lemma_rdist_fits(a: Seq<i32>, b: Seq<i32>) {
        let v = diffs(a, b);
        assert forall|i: int| 0 <= i < v.len() implies abs_int(#[trigger] v[i])
            <= (0xFFFF_FFFFu64 as int) by {
            assert(i32::MIN <= a[i] <= i32::MAX);
            assert(i32::MIN <= b[i] <= i32::MAX);
        }
        lemma_sum_abs_bounded(v, (0xFFFF_FFFFu64 as int));
        assert(v.len() * (0xFFFF_FFFFu64 as int) < u128::MAX) by (nonlinear_arith)
            requires
                0 <= v.len() <= usize::MAX,
                usize::MAX <= (0xFFFF_FFFF_FFFF_FFFFu64 as int),
        ;
    }

    proof fn lemma_conv_monotone(r1: int, r2: int) {
    }

    proof fn lemma_conv_inverse(r: int, rd: int) {
    }

    proof fn lemma_lb_range(d: int, radius: int) {
    }

    proof fn lemma_lb_admissible(q: Seq<i32>, c: Seq<i32>, x: Seq<i32>, radius: int) {
        lemma_abs_triangle(diffs(q, c), diffs(c, x), diffs(q, x));
        lemma_sum_abs_nonneg(diffs(q, x));
    }

    fn rdistance(&self, a: &Vec<i32>, b: &Vec<i32>) -> (r: u128) {
        let ghost dv = diffs(a@, b@);
        let n = a.len();
        let mut acc: u128 = 0;
        let mut i: usize = 0;
        while i < n
            invariant
                n == a@.len(),
                n == b@.len(),
                0 <= i <= n,
                dv == diffs(a@, b@),
                acc as int == sum_abs(dv.take(i as int)),
                acc as int <= (i as int) * (0xFFFF_FFFFu64 as int),
            decreases n - i,
        {
            let d: i64 = a[i] as i64 - b[i] as i64;
            let ad: u64 = if d < 0 {
                (-d) as u64
            } else {
                d as u64
            };
            proof {
                assert(dv.take(i + 1).drop_last() =~= dv.take(i as int));
                assert(dv.take(i + 1).last() == dv[i as int]);
                assert(dv[i as int] == a@[i as int] - b@[i as int]);
                assert((i as int) * (0xFFFF_FFFFu64 as int) + (0xFFFF_FFFFu64 as int) == (i + 1) * (0xFFFF_FFFFu64 as int))
                    by (nonlinear_arith);
                assert((i + 1) * (0xFFFF_FFFFu64 as int) <= u128::MAX) by (nonlinear_arith)
                    requires
                        0 <= i + 1 <= (0xFFFF_FFFF_FFFF_FFFFu64 as int),
                ;
            }
            acc = acc + ad as u128;
            i = i + 1;
        }
        proof {
            assert(dv.take(n as int) =~= dv);
        }
        acc
    }

    fn dist_to_rdist(&self, r: u64) -> (res: u128) {
        r as u128
    }

    fn rdist_to_dist(&self, rd: u128) -> (res: u128) {
        rd
    }

    fn sphere_lb(&self, d: u128, radius: u128) -> (res: u128) {
        if d > radius {
            d - radius
        } else {
            0
        }
    }
}

/// Entry-wise triangle inequality, summed: if `u = v + w` entry-wise, then
/// `sum_abs(u) >= sum_abs(v) - sum_abs(w)`.
proof fn lemma_abs_triangle(v: Seq<int>, w: Seq<int>, u: Seq<int>)
    requires
        v.len() == w.len(),
        u.len() == v.len(),
        forall|i: int| 0 <= i < u.len() ==> #[trigger] u[i] == v[i] + w[i],
    ensures
        sum_abs(u) >= sum_abs(v) - sum_abs(w),
    decreases u.len(),
{
    if u.len() > 0 {
        let v1 = v.drop_last();
        let w1 = w.drop_last();
        let u1 = u.drop_last();
        assert(forall|i: int| 0 <= i < u1.len() ==> #[trigger] u1[i] == v1[i] + w1[i]);
        lemma_abs_triangle(v1, w1, u1);
        assert(abs_int(u.last()) >= abs_int(v.last()) - abs_int(w.last()));
    }
}

} // verus!
