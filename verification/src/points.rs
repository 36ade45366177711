//! Shared vocabulary for point sets: views of the owned coordinate rows,
//! validity of index lists into them, and a few sequence lemmas used by
//! the partitioning routine and the query engine.

use vstd::multiset::Multiset;
use vstd::prelude::*;

verus! {

/// The mathematical view of owned coordinate rows.
pub open spec fn views_of(ps: Seq<Vec<i32>>) -> Seq<Seq<i32>> {
    ps.map_values(|p: Vec<i32>| p@)
}

/// Every row has exactly `dim` coordinates.
pub open spec fn rows_wf(pts: Seq<Seq<i32>>, dim: nat) -> bool {
    forall|j: int| 0 <= j < pts.len() ==> (#[trigger] pts[j]).len() == dim
}

/// Every entry of `s` indexes a row of `pts`.
pub open spec fn idxs_ok(s: Seq<usize>, n: int) -> bool {
    forall|i: int| 0 <= i < s.len() ==> (#[trigger] s[i]) < n
}

/// Coordinate `d` of the point indexed by `i`.
pub open spec fn coord_of(pts: Seq<Seq<i32>>, i: usize, d: int) -> int {
    pts[i as int][d] as int
}

/// Every indexed point sits at or above `v` on dimension `d`.
pub open spec fn all_on_dim_ge(pts: Seq<Seq<i32>>, s: Seq<usize>, d: int, v: int) -> bool {
    forall|i: int| 0 <= i < s.len() ==> coord_of(pts, #[trigger] s[i], d) >= v
}

/// Every indexed point sits strictly below `v` on dimension `d`.
pub open spec fn all_on_dim_lt(pts: Seq<Seq<i32>>, s: Seq<usize>, d: int, v: int) -> bool {
    forall|i: int| 0 <= i < s.len() ==> coord_of(pts, #[trigger] s[i], d) < v
}

/// The index sequence `0, 1, ..., n-1`.
pub open spec fn range_idxs(n: int) -> Seq<usize> {
    Seq::new(n as nat, |i: int| i as usize)
}

/// Rows seen through `views_of` have the lengths of the underlying
/// vectors.
pub proof fn lemma_views_len(ps: Seq<Vec<i32>>, dim: nat)
    requires
        rows_wf(views_of(ps), dim),
    ensures
        forall|j: int| 0 <= j < ps.len() ==> (#[trigger] ps[j])@.len() == dim,
{
    assert forall|j: int| 0 <= j < ps.len() implies (#[trigger] ps[j])@.len() == dim by {
        assert(views_of(ps)[j] == ps[j]@);
    }
}

/// Concatenation turns into multiset addition.
pub proof fn lemma_concat_multiset<A>(a: Seq<A>, b: Seq<A>)
    ensures
        (a + b).to_multiset() == a.to_multiset().add(b.to_multiset()),
    decreases b.len(),
{
    broadcast use vstd::seq_lib::group_to_multiset_ensures;

    if b.len() == 0 {
        assert(a + b =~= a);
        assert(b.to_multiset() =~= Multiset::<A>::empty());
        assert(a.to_multiset().add(b.to_multiset()) =~= a.to_multiset());
    } else {
        let b1 = b.drop_last();
        lemma_concat_multiset(a, b1);
        assert(a + b =~= (a + b1).push(b.last()));
        assert(b =~= b1.push(b.last()));
        assert((a + b).to_multiset() =~= a.to_multiset().add(b.to_multiset()));
    }
}

/// A sequence of `n` distinct indices below `n` contains every index
/// below `n`.
pub proof fn lemma_pigeonhole(s: Seq<usize>, n: int)
    requires
        s.no_duplicates(),
        s.len() == n,
        idxs_ok(s, n),
        0 <= n,
    ensures
        forall|j: usize| j < n ==> s.contains(j),
{
    broadcast use vstd::set::group_set_axioms;
    broadcast use vstd::seq_lib::seq_to_set_is_finite;

    let si = s.map_values(|u: usize| u as int);
    assert forall|j: usize| j < n implies s.contains(j) by {
        if !s.contains(j) {
            // all entries of s then lie in the n-1 element range with j
            // removed, contradicting distinctness
            let avoid = vstd::set_lib::set_int_range(0, n).remove(j as int);
            assert(si.no_duplicates()) by {
                assert forall|p: int, q: int|
                    0 <= p < si.len() && 0 <= q < si.len() && p != q implies si[p] != si[q] by {
                    assert(s[p] != s[q]);
                }
            }
            si.unique_seq_to_set();
            assert(si.to_set().len() == n);
            assert(si.to_set().subset_of(avoid)) by {
                assert forall|x: int| si.to_set().contains(x) implies avoid.contains(x) by {
                    let p = choose|p: int| 0 <= p < si.len() && si[p] == x;
                    assert(s[p] < n);
                    assert(s[p] != j);
                }
            }
            vstd::set_lib::lemma_int_range(0, n);
            assert(avoid.len() == n - 1) by {
                assert(vstd::set_lib::set_int_range(0, n).contains(j as int));
            }
            vstd::set_lib::lemma_len_subset(si.to_set(), avoid);
            assert(false);
        }
    }
}

/// `range_idxs(n)` has no duplicates and is exactly the indices below `n`.
pub proof fn lemma_range_idxs(n: int)
    requires
        0 <= n <= usize::MAX,
    ensures
        range_idxs(n).len() == n,
        range_idxs(n).no_duplicates(),
        forall|i: int| 0 <= i < n ==> (#[trigger] range_idxs(n)[i]) == i as usize,
{
    assert forall|p: int, q: int|
        0 <= p < n && 0 <= q < n && p != q implies range_idxs(n)[p] != range_idxs(n)[q] by {
        assert(p as usize != q as usize);
    }
}

} // verus!
