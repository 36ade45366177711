//! The query engine: best-first branch-and-bound over the ball tree.
//!
//! A min-priority-queue holds candidate subtrees keyed by a lower bound
//! on their reduced distance to the query; a bounded heap keyed by
//! complemented reduced distance holds the best candidates found so far.
//! A subtree is pruned when its lower bound cannot beat the distance
//! limit or the current worst accepted candidate.

use vstd::multiset::Multiset;
use vstd::prelude::*;

use crate::distance::Distance;
use crate::heap::Entry;
use crate::heap::MinHeap;
use crate::points::rows_wf;
use crate::points::views_of;
use crate::tree::Node;
use crate::tree::node_center;
use crate::tree::node_pts;
use crate::tree::node_radius;
use crate::tree::node_wf;

verus! {

/// The reduced distance from the query point `q` to the indexed point `j`.
pub open spec fn rd_of<D: Distance>(pts: Seq<Seq<i32>>, q: Seq<i32>, j: usize) -> int {
    D::rdist(q, pts[j as int])
}

/// The identifiers carried by a sequence of heap entries, as a multiset.
pub(crate) open spec fn out_ids(es: Seq<Entry>) -> Multiset<usize> {
    es.map_values(|e: Entry| e.id).to_multiset()
}

/// The reduced distance of the worst accepted candidate: the root of the
/// complement-keyed heap.
pub(crate) open spec fn worst_rd(es: Seq<Entry>) -> int {
    u128::MAX - es[0].key
}

/// The number of nodes of the subtree rooted at `i`.
pub(crate) open spec fn node_count(nodes: Seq<Node>, i: int) -> int
    decreases i,
{
    if 0 <= i < nodes.len() {
        match nodes[i] {
            Node::Leaf { .. } => 1,
            Node::Branch { left, right, .. } => {
                if left < i && right < i {
                    1 + node_count(nodes, left as int) + node_count(nodes, right as int)
                } else {
                    1
                }
            },
        }
    } else {
        0
    }
}

/// All point indices under the subtrees named by a sequence of queue
/// entries, as one multiset.
pub(crate) open spec fn qpts(nodes: Seq<Node>, es: Seq<Entry>) -> Multiset<usize>
    decreases es.len(),
{
    if es.len() == 0 {
        Multiset::empty()
    } else {
        node_pts(nodes, es[0].id as int).to_multiset().add(qpts(nodes, es.drop_first()))
    }
}

/// The total node count of the subtrees named by a sequence of queue
/// entries: the termination measure of the search loop.
pub(crate) open spec fn qweight(nodes: Seq<Node>, es: Seq<Entry>) -> int
    decreases es.len(),
{
    if es.len() == 0 {
        0
    } else {
        node_count(nodes, es[0].id as int) + qweight(nodes, es.drop_first())
    }
}

pub(crate) proof fn lemma_node_count_nonneg(nodes: Seq<Node>, i: int)
    ensures
        node_count(nodes, i) >= 0,
        0 <= i < nodes.len() ==> node_count(nodes, i) >= 1,
    decreases i,
{
    if 0 <= i < nodes.len() {
        match nodes[i] {
            Node::Leaf { .. } => {},
            Node::Branch { left, right, .. } => {
                if left < i && right < i {
                    lemma_node_count_nonneg(nodes, left as int);
                    lemma_node_count_nonneg(nodes, right as int);
                }
            },
        }
    }
}

pub(crate) proof fn lemma_qweight_nonneg(nodes: Seq<Node>, es: Seq<Entry>)
    ensures
        qweight(nodes, es) >= 0,
    decreases es.len(),
{
    if es.len() > 0 {
        lemma_node_count_nonneg(nodes, es[0].id as int);
        lemma_qweight_nonneg(nodes, es.drop_first());
    }
}

/// Appending an entry adds its subtree's points and weight.
pub(crate) proof fn lemma_q_push(nodes: Seq<Node>, es: Seq<Entry>, e: Entry)
    ensures
        qpts(nodes, es.push(e)) == qpts(nodes, es).add(
            node_pts(nodes, e.id as int).to_multiset(),
        ),
        qweight(nodes, es.push(e)) == qweight(nodes, es) + node_count(nodes, e.id as int),
    decreases es.len(),
{
    broadcast use vstd::multiset::group_multiset_axioms;

    if es.len() == 0 {
        assert(es.push(e)[0] == e);
        assert(es.push(e).len() == 1);
        assert(es.push(e).drop_first() =~= Seq::<Entry>::empty());
        assert(qpts(nodes, Seq::<Entry>::empty()) == Multiset::<usize>::empty());
        assert(qweight(nodes, Seq::<Entry>::empty()) == 0);
        assert(es =~= Seq::<Entry>::empty());
        assert(qpts(nodes, es.push(e)) == node_pts(nodes, e.id as int).to_multiset().add(
            Multiset::<usize>::empty(),
        ));
        assert(qweight(nodes, es.push(e)) == node_count(nodes, e.id as int) + 0);
        assert(qpts(nodes, es.push(e)) =~= qpts(nodes, es).add(
            node_pts(nodes, e.id as int).to_multiset(),
        ));
    } else {
        assert(es.push(e)[0] == es[0]);
        assert(es.push(e).drop_first() =~= es.drop_first().push(e));
        lemma_q_push(nodes, es.drop_first(), e);
        assert(qpts(nodes, es.push(e)) =~= qpts(nodes, es).add(
            node_pts(nodes, e.id as int).to_multiset(),
        ));
    }
}

/// Removing the entry at `j` subtracts its subtree's points and weight.
pub(crate) proof fn lemma_q_remove(nodes: Seq<Node>, es: Seq<Entry>, j: int)
    requires
        0 <= j < es.len(),
    ensures
        qpts(nodes, es) == node_pts(nodes, es[j].id as int).to_multiset().add(
            qpts(nodes, es.remove(j)),
        ),
        qweight(nodes, es) == node_count(nodes, es[j].id as int) + qweight(nodes, es.remove(j)),
    decreases j,
{
    broadcast use vstd::multiset::group_multiset_axioms;

    if j == 0 {
        assert(es.remove(0) =~= es.drop_first());
    } else {
        assert(es.remove(j)[0] == es[0]);
        assert(es.remove(j).drop_first() =~= es.drop_first().remove(j - 1));
        lemma_q_remove(nodes, es.drop_first(), j - 1);
        assert(es.drop_first()[j - 1] == es[j]);
        assert(qpts(nodes, es) =~= node_pts(nodes, es[j].id as int).to_multiset().add(
            qpts(nodes, es.remove(j)),
        ));
    }
}

/// The points and weight named by a sequence of entries depend only on
/// its multiset.
pub(crate) proof fn lemma_q_perm(nodes: Seq<Node>, es1: Seq<Entry>, es2: Seq<Entry>)
    requires
        es1.to_multiset() == es2.to_multiset(),
    ensures
        qpts(nodes, es1) == qpts(nodes, es2),
        qweight(nodes, es1) == qweight(nodes, es2),
    decreases es1.len(),
{
    broadcast use vstd::multiset::group_multiset_axioms;
    broadcast use vstd::seq_lib::group_to_multiset_ensures;

    if es1.len() == 0 {
        assert(es1.to_multiset().len() == es1.len());
        assert(es2.to_multiset().len() == es2.len());
        assert(es2.len() == 0);
    } else {
        let e = es1[0];
        assert(es1.contains(e));
        assert(es2.to_multiset().count(e) > 0);
        assert(es2.contains(e));
        let j = choose|j: int| 0 <= j < es2.len() && es2[j] == e;
        lemma_q_remove(nodes, es2, j);
        lemma_q_remove(nodes, es1, 0);
        assert(es1.remove(0) =~= es1.drop_first());
        assert(es1.remove(0).to_multiset() == es1.to_multiset().remove(e));
        assert(es2.remove(j).to_multiset() == es2.to_multiset().remove(e));
        lemma_q_perm(nodes, es1.drop_first(), es2.remove(j));
    }
}

/// A point counted by `qpts` lies under one of the named subtrees.
pub(crate) proof fn lemma_q_member(nodes: Seq<Node>, es: Seq<Entry>, x: usize)
    requires
        qpts(nodes, es).count(x) > 0,
    ensures
        exists|i: int|
            0 <= i < es.len() && node_pts(nodes, (#[trigger] es[i]).id as int).to_multiset().count(
                x,
            ) > 0,
    decreases es.len(),
{
    if es.len() > 0 {
        if node_pts(nodes, es[0].id as int).to_multiset().count(x) > 0 {
            assert(node_pts(nodes, es[0].id as int).to_multiset().count(x) > 0);
        } else {
            lemma_q_member(nodes, es.drop_first(), x);
            let i = choose|i: int|
                0 <= i < es.drop_first().len() && node_pts(
                    nodes,
                    (#[trigger] es.drop_first()[i]).id as int,
                ).to_multiset().count(x) > 0;
            assert(es[i + 1] == es.drop_first()[i]);
        }
    }
}

/// Identifiers of a pushed entry sequence.
pub(crate) proof fn lemma_out_ids_push(es: Seq<Entry>, e: Entry)
    ensures
        out_ids(es.push(e)) == out_ids(es).insert(e.id),
{
    broadcast use vstd::seq_lib::group_to_multiset_ensures;

    assert(es.push(e).map_values(|en: Entry| en.id) =~= es.map_values(|en: Entry| en.id).push(
        e.id,
    ));
}

/// The multiset of identifiers depends only on the entries' multiset.
pub(crate) proof fn lemma_out_ids_perm(es1: Seq<Entry>, es2: Seq<Entry>)
    requires
        es1.to_multiset() == es2.to_multiset(),
    ensures
        out_ids(es1) == out_ids(es2),
    decreases es1.len(),
{
    broadcast use vstd::multiset::group_multiset_axioms;
    broadcast use vstd::multiset::group_multiset_properties;
    broadcast use vstd::seq_lib::group_to_multiset_ensures;

    if es1.len() == 0 {
        assert(es1.to_multiset().len() == es1.len());
        assert(es2.to_multiset().len() == es2.len());
        assert(es2.len() == 0);
        assert(out_ids(es1) =~= out_ids(es2));
    } else {
        let e = es1[0];
        assert(es1.contains(e));
        assert(es2.to_multiset().count(e) > 0);
        assert(es2.contains(e));
        let j = choose|j: int| 0 <= j < es2.len() && es2[j] == e;
        assert(es1.remove(0) =~= es1.drop_first());
        assert(es1.remove(0).to_multiset() == es1.to_multiset().remove(e));
        assert(es2.remove(j).to_multiset() == es2.to_multiset().remove(e));
        lemma_out_ids_perm(es1.drop_first(), es2.remove(j));
        lemma_out_ids_remove(es1, 0);
        lemma_out_ids_remove(es2, j);
        let m1 = out_ids(es1);
        let m2 = out_ids(es2);
        assert(m1.remove(e.id) == m2.remove(e.id));
        assert(m1.count(e.id) > 0) by {
            assert(es1.map_values(|en: Entry| en.id)[0] == e.id);
            assert(es1.map_values(|en: Entry| en.id).contains(e.id));
        }
        assert(m2.count(e.id) > 0) by {
            assert(es2.map_values(|en: Entry| en.id)[j] == e.id);
            assert(es2.map_values(|en: Entry| en.id).contains(e.id));
        }
        assert forall|y: usize| m1.count(y) == m2.count(y) by {
            if y == e.id {
                assert(m1.remove(y).count(y) == m1.count(y) - 1);
                assert(m2.remove(y).count(y) == m2.count(y) - 1);
            } else {
                assert(m1.remove(e.id).count(y) == m1.count(y));
                assert(m2.remove(e.id).count(y) == m2.count(y));
            }
        }
        assert(out_ids(es1) =~= out_ids(es2));
    }
}

/// Removing an entry removes exactly its identifier.
pub(crate) proof fn lemma_out_ids_remove(es: Seq<Entry>, j: int)
    requires
        0 <= j < es.len(),
    ensures
        out_ids(es.remove(j)) == out_ids(es).remove(es[j].id),
{
    broadcast use vstd::seq_lib::group_to_multiset_ensures;

    let ids = es.map_values(|en: Entry| en.id);
    assert(es.remove(j).map_values(|en: Entry| en.id) =~= ids.remove(j));
    assert(ids.remove(j).to_multiset() == ids.to_multiset().remove(ids[j]));
    assert(ids[j] == es[j].id);
}

/// What holds of every accepted candidate in the bounded heap: a valid
/// point index within the distance limit, keyed by the complement of its
/// reduced distance.
pub(crate) open spec fn out_inv<D: Distance>(
    pts: Seq<Seq<i32>>,
    q: Seq<i32>,
    bound: int,
    es: Seq<Entry>,
) -> bool {
    forall|p: int|
        0 <= p < es.len() ==> {
            let en = #[trigger] es[p];
            &&& (en.id as int) < pts.len()
            &&& rd_of::<D>(pts, q, en.id) <= bound
            &&& en.key as int == u128::MAX - rd_of::<D>(pts, q, en.id)
        }
}

/// What holds of every frontier entry: a well-formed subtree whose every
/// point is at least the entry's key away from the query.
pub(crate) open spec fn queue_inv<D: Distance>(
    pts: Seq<Seq<i32>>,
    nodes: Seq<Node>,
    q: Seq<i32>,
    dim: nat,
    es: Seq<Entry>,
) -> bool {
    forall|p: int|
        0 <= p < es.len() ==> {
            let en = #[trigger] es[p];
            &&& node_wf::<D>(pts, nodes, en.id as int, dim)
            &&& forall|t: int|
                0 <= t < node_pts(nodes, en.id as int).len() ==> rd_of::<D>(
                    pts,
                    q,
                    #[trigger] node_pts(nodes, en.id as int)[t],
                ) >= en.key as int
        }
}

/// A point the search may rightly leave out: it misses the distance
/// limit, or the accepted set is full and it cannot beat the worst
/// accepted candidate.
pub(crate) open spec fn left_out<D: Distance>(
    pts: Seq<Seq<i32>>,
    q: Seq<i32>,
    bound: int,
    k: int,
    oes: Seq<Entry>,
    j: usize,
) -> bool {
    ||| rd_of::<D>(pts, q, j) > bound
    ||| (oes.len() == k && rd_of::<D>(pts, q, j) >= worst_rd(oes))
}

/// `out_inv` depends only on the entries' values, so it survives any
/// reordering or narrowing of the heap's contents.
pub(crate) proof fn lemma_out_inv_subset<D: Distance>(
    pts: Seq<Seq<i32>>,
    q: Seq<i32>,
    bound: int,
    es1: Seq<Entry>,
    es2: Seq<Entry>,
)
    requires
        out_inv::<D>(pts, q, bound, es1),
        es2.to_multiset().subset_of(es1.to_multiset()),
    ensures
        out_inv::<D>(pts, q, bound, es2),
{
    broadcast use vstd::seq_lib::group_to_multiset_ensures;

    assert forall|p: int| 0 <= p < es2.len() implies {
        let en = #[trigger] es2[p];
        &&& (en.id as int) < pts.len()
        &&& rd_of::<D>(pts, q, en.id) <= bound
        &&& en.key as int == u128::MAX - rd_of::<D>(pts, q, en.id)
    } by {
        let en = es2[p];
        assert(es2.contains(en));
        assert(es2.to_multiset().count(en) > 0);
        assert(es1.to_multiset().count(en) > 0);
        assert(es1.contains(en));
        let p1 = choose|t: int| 0 <= t < es1.len() && es1[t] == en;
        assert(es1[p1] == en);
    }
}

/// As `lemma_out_inv_subset`, when one new entry that itself satisfies
/// the invariant is added.
pub(crate) proof fn lemma_out_inv_insert<D: Distance>(
    pts: Seq<Seq<i32>>,
    q: Seq<i32>,
    bound: int,
    es1: Seq<Entry>,
    es2: Seq<Entry>,
    e: Entry,
)
    requires
        out_inv::<D>(pts, q, bound, es1),
        es2.to_multiset() == es1.to_multiset().insert(e),
        (e.id as int) < pts.len(),
        rd_of::<D>(pts, q, e.id) <= bound,
        e.key as int == u128::MAX - rd_of::<D>(pts, q, e.id),
    ensures
        out_inv::<D>(pts, q, bound, es2),
{
    broadcast use vstd::multiset::group_multiset_axioms;
    broadcast use vstd::seq_lib::group_to_multiset_ensures;

    assert forall|p: int| 0 <= p < es2.len() implies {
        let en = #[trigger] es2[p];
        &&& (en.id as int) < pts.len()
        &&& rd_of::<D>(pts, q, en.id) <= bound
        &&& en.key as int == u128::MAX - rd_of::<D>(pts, q, en.id)
    } by {
        let en = es2[p];
        assert(es2.contains(en));
        assert(es2.to_multiset().count(en) > 0);
        if en != e {
            assert(es1.to_multiset().count(en) > 0);
            assert(es1.contains(en));
            let p1 = choose|t: int| 0 <= t < es1.len() && es1[t] == en;
            assert(es1[p1] == en);
        }
    }
}

/// `queue_inv` likewise survives narrowing of the frontier's contents.
pub(crate) proof fn lemma_queue_inv_subset<D: Distance>(
    pts: Seq<Seq<i32>>,
    nodes: Seq<Node>,
    q: Seq<i32>,
    dim: nat,
    es1: Seq<Entry>,
    es2: Seq<Entry>,
)
    requires
        queue_inv::<D>(pts, nodes, q, dim, es1),
        es2.to_multiset().subset_of(es1.to_multiset()),
    ensures
        queue_inv::<D>(pts, nodes, q, dim, es2),
{
    broadcast use vstd::seq_lib::group_to_multiset_ensures;

    assert forall|p: int| 0 <= p < es2.len() implies {
        let en = #[trigger] es2[p];
        &&& node_wf::<D>(pts, nodes, en.id as int, dim)
        &&& forall|t: int|
            0 <= t < node_pts(nodes, en.id as int).len() ==> rd_of::<D>(
                pts,
                q,
                #[trigger] node_pts(nodes, en.id as int)[t],
            ) >= en.key as int
    } by {
        let en = es2[p];
        assert(es2.contains(en));
        assert(es2.to_multiset().count(en) > 0);
        assert(es1.to_multiset().count(en) > 0);
        assert(es1.contains(en));
        let p1 = choose|t: int| 0 <= t < es1.len() && es1[t] == en;
        assert(es1[p1] == en);
    }
}

/// As `lemma_queue_inv_subset`, when one new admissible entry is added.
pub(crate) proof fn lemma_queue_inv_insert<D: Distance>(
    pts: Seq<Seq<i32>>,
    nodes: Seq<Node>,
    q: Seq<i32>,
    dim: nat,
    es1: Seq<Entry>,
    es2: Seq<Entry>,
    e: Entry,
)
    requires
        queue_inv::<D>(pts, nodes, q, dim, es1),
        es2.to_multiset() == es1.to_multiset().insert(e),
        node_wf::<D>(pts, nodes, e.id as int, dim),
        forall|t: int|
            0 <= t < node_pts(nodes, e.id as int).len() ==> rd_of::<D>(
                pts,
                q,
                #[trigger] node_pts(nodes, e.id as int)[t],
            ) >= e.key as int,
    ensures
        queue_inv::<D>(pts, nodes, q, dim, es2),
{
    broadcast use vstd::multiset::group_multiset_axioms;
    broadcast use vstd::seq_lib::group_to_multiset_ensures;

    assert forall|p: int| 0 <= p < es2.len() implies {
        let en = #[trigger] es2[p];
        &&& node_wf::<D>(pts, nodes, en.id as int, dim)
        &&& forall|t: int|
            0 <= t < node_pts(nodes, en.id as int).len() ==> rd_of::<D>(
                pts,
                q,
                #[trigger] node_pts(nodes, en.id as int)[t],
            ) >= en.key as int
    } by {
        let en = es2[p];
        assert(es2.contains(en));
        assert(es2.to_multiset().count(en) > 0);
        if en != e {
            assert(es1.to_multiset().count(en) > 0);
            assert(es1.contains(en));
            let p1 = choose|t: int| 0 <= t < es1.len() && es1[t] == en;
            assert(es1[p1] == en);
        }
    }
}

/// An entry present in a narrowing of a sequence's multiset has at least
/// the popped minimum's key.
pub(crate) proof fn lemma_key_floor(es1: Seq<Entry>, es2: Seq<Entry>, low: int)
    requires
        es2.to_multiset().subset_of(es1.to_multiset()),
        forall|i: int| 0 <= i < es1.len() ==> low <= (#[trigger] es1[i]).key as int,
    ensures
        forall|i: int| 0 <= i < es2.len() ==> low <= (#[trigger] es2[i]).key as int,
{
    broadcast use vstd::seq_lib::group_to_multiset_ensures;

    assert forall|i: int| 0 <= i < es2.len() implies low <= (#[trigger] es2[i]).key as int by {
        let en = es2[i];
        assert(es2.contains(en));
        assert(es2.to_multiset().count(en) > 0);
        assert(es1.to_multiset().count(en) > 0);
        assert(es1.contains(en));
        let p1 = choose|t: int| 0 <= t < es1.len() && es1[t] == en;
        assert(es1[p1] == en);
    }
}

/// A lower bound, in reduced units, on the reduced distance from the
/// query point to anything under node `id`: the distance to the edge of
/// the node's bounding sphere.
pub(crate) fn node_lb<D: Distance>(
    points: &Vec<Vec<i32>>,
    nodes: &Vec<Node>,
    id: usize,
    dist: &D,
    q: &Vec<i32>,
    Ghost(dim): Ghost<nat>,
) -> (lb: u128)
    requires
        node_wf::<D>(views_of(points@), nodes@, id as int, dim),
        rows_wf(views_of(points@), dim),
        q@.len() == dim,
    ensures
        lb as int == D::lb(
            D::rdist(q@, node_center(views_of(points@), nodes@, id as int)),
            node_radius(nodes@, id as int),
        ),
        forall|p: int|
            0 <= p < node_pts(nodes@, id as int).len() ==> rd_of::<D>(
                views_of(points@),
                q@,
                #[trigger] node_pts(nodes@, id as int)[p],
            ) >= lb as int,
{
    let ghost pts = views_of(points@);
    let (cd, radius) = match &nodes[id] {
        Node::Leaf { center, radius, .. } => (dist.rdistance(q, center), *radius),
        Node::Branch { center, radius, .. } => {
            proof {
                assert(pts[*center as int] == points@[*center as int]@);
            }
            (dist.rdistance(q, &points[*center]), *radius)
        },
    };
    proof {
        assert(cd as int == D::rdist(q@, node_center(pts, nodes@, id as int)));
    }
    let lb = dist.sphere_lb(cd, radius);
    proof {
        let c = node_center(pts, nodes@, id as int);
        assert forall|p: int| 0 <= p < node_pts(nodes@, id as int).len() implies rd_of::<D>(
            pts,
            q@,
            #[trigger] node_pts(nodes@, id as int)[p],
        ) >= lb as int by {
            let j = node_pts(nodes@, id as int)[p];
            assert(D::rdist(c, pts[j as int]) <= node_radius(nodes@, id as int));
            D::lemma_lb_admissible(q@, c, pts[j as int], node_radius(nodes@, id as int));
        }
    }
    lb
}

/// The full contract of a query: at most `k` results, all valid and
/// within the limit, sorted by non-decreasing reduced distance, without
/// repetition — and complete: a point may be missing only because it
/// misses the limit, or because the result is full of points at least as
/// close.
pub open spec fn query_post<D: Distance>(
    pts: Seq<Seq<i32>>,
    q: Seq<i32>,
    k: int,
    bound: int,
    res: Seq<usize>,
) -> bool {
    &&& res.len() <= k
    &&& res.no_duplicates()
    &&& forall|i: int| 0 <= i < res.len() ==> ((#[trigger] res[i]) as int) < pts.len()
    &&& forall|i: int| 0 <= i < res.len() ==> rd_of::<D>(pts, q, #[trigger] res[i]) <= bound
    &&& forall|i: int, j: int|
        #![trigger res[i], res[j]]
        0 <= i <= j < res.len() ==> rd_of::<D>(pts, q, res[i]) <= rd_of::<D>(pts, q, res[j])
    &&& forall|j: usize|
        #![trigger rd_of::<D>(pts, q, j)]
        (j as int) < pts.len() && !res.contains(j) ==> rd_of::<D>(pts, q, j) > bound || (res.len()
            == k && (k == 0 || rd_of::<D>(pts, q, j) >= rd_of::<D>(pts, q, res[k - 1])))
}

/// Best-first branch-and-bound: repeatedly take the most promising
/// subtree off the frontier, scan it if it is a leaf or expand its
/// children if it is a branch, and stop as soon as no remaining subtree
/// can beat the distance limit and the worst accepted candidate.
#[verifier::rlimit(100)]
pub(crate) fn nn_helper<D: Distance>(
    points: &Vec<Vec<i32>>,
    nodes: &Vec<Node>,
    root: usize,
    dist: &D,
    q: &Vec<i32>,
    k: usize,
    bound: u128,
    Ghost(dim): Ghost<nat>,
) -> (res: Vec<usize>)
    requires
        rows_wf(views_of(points@), dim),
        dim >= 1,
        dim <= usize::MAX,
        q@.len() == dim,
        node_wf::<D>(views_of(points@), nodes@, root as int, dim),
        node_pts(nodes@, root as int).to_multiset() == crate::points::range_idxs(
            points@.len() as int,
        ).to_multiset(),
    ensures
        query_post::<D>(views_of(points@), q@, k as int, bound as int, res@),
{
    broadcast use vstd::multiset::group_multiset_axioms;
    broadcast use vstd::seq_lib::group_to_multiset_ensures;

    let ghost pts = views_of(points@);
    let n = points.len();
    if k == 0 {
        let res: Vec<usize> = Vec::new();
        return res;
    }
    let ghost allms = node_pts(nodes@, root as int).to_multiset();
    proof {
        crate::points::lemma_range_idxs(n as int);
        let rng = crate::points::range_idxs(n as int);
        rng.lemma_multiset_has_no_duplicates();
        assert forall|x: usize| #[trigger] allms.count(x) <= 1 && (allms.count(x) > 0 ==> (
        x as int) < n as int) by {
            if allms.count(x) > 0 {
                assert(rng.to_multiset().contains(x));
                assert(rng.contains(x));
                let p = choose|p: int| 0 <= p < rng.len() && rng[p] == x;
                assert(rng[p] == p as usize);
            }
        }
    }
    let mut queue = MinHeap::new();
    let mut out = MinHeap::new();
    let rlb = node_lb(points, nodes, root, dist, q, Ghost(dim));
    let e0 = Entry { key: rlb, id: root };
    queue.push(e0);
    proof {
        assert(queue.entries().to_multiset() == Seq::<Entry>::empty().push(e0).to_multiset());
        lemma_q_perm(nodes@, queue.entries(), Seq::<Entry>::empty().push(e0));
        lemma_q_push(nodes@, Seq::<Entry>::empty(), e0);
        assert(qpts(nodes@, Seq::<Entry>::empty()) == Multiset::<usize>::empty());
        assert(qpts(nodes@, queue.entries()) =~= node_pts(nodes@, root as int).to_multiset());
        assert(out_ids(out.entries()) =~= Multiset::<usize>::empty());
        assert(out_ids(out.entries()).add(qpts(nodes@, queue.entries())) =~= allms);
        lemma_queue_inv_insert::<D>(
            pts,
            nodes@,
            q@,
            dim,
            Seq::<Entry>::empty(),
            queue.entries(),
            e0,
        );
        assert forall|j: usize|
            #![trigger rd_of::<D>(pts, q@, j)]
            (j as int) < n as int && out_ids(out.entries()).count(j) == 0 && qpts(
                nodes@,
                queue.entries(),
            ).count(j) == 0 implies left_out::<D>(
            pts,
            q@,
            bound as int,
            k as int,
            out.entries(),
            j,
        ) by {
            crate::points::lemma_range_idxs(n as int);
            let rng = crate::points::range_idxs(n as int);
            assert(rng[j as int] == j);
            assert(rng.contains(j));
            assert(allms.count(j) > 0);
            assert(out_ids(out.entries()).add(qpts(nodes@, queue.entries())).count(j) > 0);
        }
    }
    loop
        invariant
            queue.wf(),
            out.wf(),
            n == points@.len(),
            pts == views_of(points@),
            rows_wf(pts, dim),
            q@.len() == dim,
            dim >= 1,
            dim <= usize::MAX,
            k >= 1,
            out.entries().len() <= k as int,
            out_inv::<D>(pts, q@, bound as int, out.entries()),
            queue_inv::<D>(pts, nodes@, q@, dim, queue.entries()),
            out_ids(out.entries()).add(qpts(nodes@, queue.entries())).subset_of(allms),
            allms == node_pts(nodes@, root as int).to_multiset(),
            forall|x: usize| #[trigger] allms.count(x) <= 1,
            forall|x: usize| #[trigger] allms.count(x) > 0 ==> (x as int) < n as int,
            forall|j: usize|
                #![trigger rd_of::<D>(pts, q@, j)]
                (j as int) < n as int && out_ids(out.entries()).count(j) == 0 && qpts(
                    nodes@,
                    queue.entries(),
                ).count(j) == 0 ==> left_out::<D>(
                    pts,
                    q@,
                    bound as int,
                    k as int,
                    out.entries(),
                    j,
                ),
        ensures
            out.wf(),
            out.entries().len() <= k as int,
            out_inv::<D>(pts, q@, bound as int, out.entries()),
            out_ids(out.entries()).subset_of(allms),
            forall|j: usize|
                #![trigger rd_of::<D>(pts, q@, j)]
                (j as int) < n as int && out_ids(out.entries()).count(j) == 0 ==> left_out::<D>(
                    pts,
                    q@,
                    bound as int,
                    k as int,
                    out.entries(),
                    j,
                ),
        decreases qweight(nodes@, queue.entries()),
    {
        proof {
            broadcast use vstd::multiset::group_multiset_axioms;
            broadcast use vstd::seq_lib::group_to_multiset_ensures;

            lemma_qweight_nonneg(nodes@, queue.entries());
        }
        if queue.len() == 0 {
            proof {
                assert(queue.entries().len() == 0);
                assert(qpts(nodes@, queue.entries()) == Multiset::<usize>::empty());
            }
            break ;
        }
        let ghost qview0 = queue.entries();
        let e = queue.pop();
        let ghost qview1 = queue.entries();
        proof {
            broadcast use vstd::multiset::group_multiset_axioms;
            broadcast use vstd::seq_lib::group_to_multiset_ensures;

            // the frontier lost exactly the popped subtree
            assert(qview0.contains(e));
            assert(qview0.to_multiset().count(e) > 0);
            assert(qview1.push(e).to_multiset() =~= qview0.to_multiset());
            lemma_q_perm(nodes@, qview0, qview1.push(e));
            lemma_q_push(nodes@, qview1, e);
            assert(qpts(nodes@, qview0) == qpts(nodes@, qview1).add(
                node_pts(nodes@, e.id as int).to_multiset(),
            ));
            assert(qweight(nodes@, qview0) == qweight(nodes@, qview1) + node_count(
                nodes@,
                e.id as int,
            ));
            lemma_queue_inv_subset::<D>(pts, nodes@, q@, dim, qview0, qview1);
            lemma_qweight_nonneg(nodes@, qview1);
            lemma_node_count_nonneg(nodes@, e.id as int);
            assert(qview0.contains(e)) by {
                assert(qview0.to_multiset().count(e) > 0);
            }
            let pe = choose|t: int| 0 <= t < qview0.len() && qview0[t] == e;
            assert(qview0[pe] == e);
            assert(node_wf::<D>(pts, nodes@, e.id as int, dim));
        }
        let lb = e.key;
        let stop_limit = lb > bound;
        let mut stop_worst = false;
        if !stop_limit && out.len() == k {
            let w = out.peek();
            if lb >= u128::MAX - w.key {
                stop_worst = true;
            }
        }
        if stop_limit || stop_worst {
            proof {
                broadcast use vstd::multiset::group_multiset_axioms;
                broadcast use vstd::seq_lib::group_to_multiset_ensures;

                // everything still covered by the frontier, including the
                // popped subtree, is at least `lb` away, which already
                // fails the stopping test
                assert forall|j: usize|
                    #![trigger rd_of::<D>(pts, q@, j)]
                    (j as int) < n as int && out_ids(out.entries()).count(j) == 0 implies left_out::<
                    D,
                >(pts, q@, bound as int, k as int, out.entries(), j) by {
                    if qpts(nodes@, qview0).count(j) == 0 {
                        assert(left_out::<D>(pts, q@, bound as int, k as int, out.entries(), j));
                    } else {
                        assert(rd_of::<D>(pts, q@, j) >= lb as int) by {
                            if node_pts(nodes@, e.id as int).to_multiset().count(j) > 0 {
                                assert(node_pts(nodes@, e.id as int).contains(j));
                                let t = choose|t: int|
                                    0 <= t < node_pts(nodes@, e.id as int).len() && node_pts(
                                        nodes@,
                                        e.id as int,
                                    )[t] == j;
                                assert(rd_of::<D>(pts, q@, node_pts(nodes@, e.id as int)[t])
                                    >= e.key as int);
                            } else {
                                assert(qpts(nodes@, qview1).count(j) > 0);
                                lemma_q_member(nodes@, qview1, j);
                                let p2 = choose|p2: int|
                                    0 <= p2 < qview1.len() && node_pts(
                                        nodes@,
                                        (#[trigger] qview1[p2]).id as int,
                                    ).to_multiset().count(j) > 0;
                                let f = qview1[p2];
                                assert(f.key >= e.key) by {
                                    assert(qview1.contains(f));
                                    assert(qview1.to_multiset().count(f) > 0);
                                    assert(qview0.to_multiset().count(f) > 0);
                                    assert(qview0.contains(f));
                                    let pf = choose|t: int|
                                        0 <= t < qview0.len() && qview0[t] == f;
                                    assert(e.key <= qview0[pf].key);
                                }
                                assert(node_pts(nodes@, f.id as int).contains(j));
                                let t = choose|t: int|
                                    0 <= t < node_pts(nodes@, f.id as int).len() && node_pts(
                                        nodes@,
                                        f.id as int,
                                    )[t] == j;
                                assert(rd_of::<D>(pts, q@, node_pts(nodes@, f.id as int)[t])
                                    >= f.key as int);
                            }
                        }
                    }
                }
            }
            break ;
        }
        let is_leaf = match &nodes[e.id] {
            Node::Leaf { .. } => true,
            Node::Branch { .. } => false,
        };
        if is_leaf {
            match &nodes[e.id] {
                Node::Leaf { pts: lpts, .. } => {
                    proof {
                        broadcast use vstd::multiset::group_multiset_axioms;
                        broadcast use vstd::seq_lib::group_to_multiset_ensures;

                        assert(node_pts(nodes@, e.id as int) == lpts@);
                        assert(lpts@.skip(0) =~= lpts@);
                        assert(out_ids(out.entries()).add(qpts(nodes@, qview1)).add(
                            lpts@.skip(0).to_multiset(),
                        ) =~= out_ids(out.entries()).add(qpts(nodes@, qview0)));
                        assert forall|j: usize|
                            #![trigger rd_of::<D>(pts, q@, j)]
                            (j as int) < n as int && out_ids(out.entries()).count(j) == 0 && qpts(
                                nodes@,
                                qview1,
                            ).count(j) == 0 && lpts@.skip(0).to_multiset().count(j) == 0 implies left_out::<
                        D>(pts, q@, bound as int, k as int, out.entries(), j) by {
                            assert(qpts(nodes@, qview0).count(j) == 0);
                        }
                    }
                    let mut t: usize = 0;
                    while t < lpts.len()
                        invariant
                            queue.wf(),
                            out.wf(),
                            n == points@.len(),
                            pts == views_of(points@),
                            rows_wf(pts, dim),
                            q@.len() == dim,
                            dim >= 1,
                            dim <= usize::MAX,
                            k >= 1,
                            0 <= t <= lpts@.len(),
                            lpts@ == node_pts(nodes@, e.id as int),
                            forall|p: int|
                                0 <= p < lpts@.len() ==> ((#[trigger] lpts@[p]) as int)
                                    < pts.len(),
                            out.entries().len() <= k as int,
                            out_inv::<D>(pts, q@, bound as int, out.entries()),
                            queue_inv::<D>(pts, nodes@, q@, dim, queue.entries()),
                            queue.entries() == qview1,
                            out_ids(out.entries()).add(qpts(nodes@, queue.entries())).add(
                                lpts@.skip(t as int).to_multiset(),
                            ).subset_of(allms),
                            allms == node_pts(nodes@, root as int).to_multiset(),
                            forall|x: usize| #[trigger] allms.count(x) <= 1,
                            forall|x: usize| #[trigger] allms.count(x) > 0 ==> (x as int)
                                < n as int,
                            forall|j: usize|
                                #![trigger rd_of::<D>(pts, q@, j)]
                                (j as int) < n as int && out_ids(out.entries()).count(j) == 0
                                    && qpts(nodes@, queue.entries()).count(j) == 0
                                    && lpts@.skip(t as int).to_multiset().count(j) == 0
                                    ==> left_out::<D>(
                                    pts,
                                    q@,
                                    bound as int,
                                    k as int,
                                    out.entries(),
                                    j,
                                ),
                        decreases lpts@.len() - t,
                    {
                        let pj = lpts[t];
                        proof {
                            broadcast use vstd::multiset::group_multiset_axioms;
                            broadcast use vstd::seq_lib::group_to_multiset_ensures;

                            assert(lpts@.skip(t as int) =~= seq![pj] + lpts@.skip(t as int + 1));
                            assert(seq![pj] =~= Seq::<usize>::empty().push(pj));
                            crate::points::lemma_concat_multiset(
                                seq![pj],
                                lpts@.skip(t as int + 1),
                            );
                            assert(lpts@.skip(t as int).to_multiset() == lpts@.skip(
                                t as int + 1,
                            ).to_multiset().insert(pj));
                            assert(pts[pj as int] == points@[pj as int]@);
                            assert(pts[pj as int].len() == dim);
                        }
                        let rd = dist.rdistance(q, &points[pj]);
                        let accept = rd <= bound && (out.len() < k || rd < u128::MAX
                            - out.peek().key);
                        if accept {
                            let ghost oview0 = out.entries();
                            let ghost was_full = (oview0.len() == k as int);
                            let en = Entry { key: u128::MAX - rd, id: pj };
                            out.push(en);
                            let ghost oview1 = out.entries();
                            proof {
                                broadcast use vstd::multiset::group_multiset_axioms;
                                broadcast use vstd::seq_lib::group_to_multiset_ensures;

                                lemma_out_ids_perm(oview1, oview0.push(en));
                                lemma_out_ids_push(oview0, en);
                                lemma_out_inv_insert::<D>(pts, q@, bound as int, oview0, oview1, en);
                            }
                            if out.len() > k {
                                proof {
                                    out.lemma_front_min();
                                }
                                let ev = out.pop();
                                let ghost oview2 = out.entries();
                                proof {
                                    broadcast use vstd::multiset::group_multiset_axioms;
                                    broadcast use vstd::seq_lib::group_to_multiset_ensures;

                                    assert(ev == oview1[0]);
                                    lemma_out_inv_subset::<D>(pts, q@, bound as int, oview1, oview2);
                                    lemma_out_ids_perm(oview2, oview1.remove(0));
                                    lemma_out_ids_remove(oview1, 0);
                                    assert(out_ids(oview2) == out_ids(oview1).remove(ev.id));
                                    // the evicted candidate is at least as far
                                    // as everything still accepted
                                    assert(oview2.len() == k as int);
                                    assert(oview2.to_multiset().subset_of(oview1.to_multiset()));
                                    lemma_key_floor(oview1, oview2, ev.key as int);
                                    assert(oview2[0].key >= ev.key);
                                    assert(rd_of::<D>(pts, q@, ev.id) >= worst_rd(oview2));
                                    // coverage: the new point moved from the
                                    // leaf suffix into the accepted set, and
                                    // the eviction only narrows it
                                    assert(out_ids(oview2).add(qpts(nodes@, qview1)).add(
                                        lpts@.skip(t as int + 1).to_multiset(),
                                    ).subset_of(allms));
                                    // the worst accepted distance never grew
                                    assert forall|p: int|
                                        0 <= p < oview2.len() implies u128::MAX - (
                                    #[trigger] oview2[p]).key as int <= worst_rd(oview0) by {
                                        let f = oview2[p];
                                        assert(oview2.contains(f));
                                        assert(oview2.to_multiset().count(f) > 0);
                                        assert(oview1.to_multiset().count(f) > 0);
                                        assert(oview1.contains(f));
                                        let pf = choose|t2: int|
                                            0 <= t2 < oview1.len() && oview1[t2] == f;
                                        if oview1[pf] == en && pf == oview1.len() - 1 {
                                        }
                                        if f == en {
                                            assert(u128::MAX - en.key as int == rd as int);
                                        } else {
                                            assert(oview0.to_multiset().count(f) > 0);
                                            assert(oview0.contains(f));
                                            let pg = choose|t2: int|
                                                0 <= t2 < oview0.len() && oview0[t2] == f;
                                            assert(oview0[0].key <= oview0[pg].key);
                                        }
                                    }
                                    assert(worst_rd(oview2) <= worst_rd(oview0));
                                    // exclusions carry over: old ones by the
                                    // shrunken worst, the evicted one directly
                                    assert forall|j: usize|
                                        #![trigger rd_of::<D>(pts, q@, j)]
                                        (j as int) < n as int && out_ids(oview2).count(j) == 0
                                            && qpts(nodes@, qview1).count(j) == 0 && lpts@.skip(
                                            t as int + 1,
                                        ).to_multiset().count(j) == 0 implies left_out::<D>(
                                        pts,
                                        q@,
                                        bound as int,
                                        k as int,
                                        oview2,
                                        j,
                                    ) by {
                                        if j == ev.id {
                                        } else if j == pj {
                                            assert(out_ids(oview2).count(pj) > 0 || ev.id == pj);
                                        } else {
                                            assert(out_ids(oview0).count(j) == 0);
                                            assert(lpts@.skip(t as int).to_multiset().count(j)
                                                == 0);
                                            assert(left_out::<D>(
                                                pts,
                                                q@,
                                                bound as int,
                                                k as int,
                                                oview0,
                                                j,
                                            ));
                                            if rd_of::<D>(pts, q@, j) > bound as int {
                                            } else {
                                                assert(was_full);
                                                assert(rd_of::<D>(pts, q@, j) >= worst_rd(
                                                    oview0,
                                                ));
                                            }
                                        }
                                    }
                                }
                            } else {
                                proof {
                                    broadcast use vstd::multiset::group_multiset_axioms;
                                    broadcast use vstd::seq_lib::group_to_multiset_ensures;

                                    // no eviction: the set was not yet full,
                                    // so every exclusion so far failed the
                                    // distance limit outright
                                    assert(!was_full);
                                    assert(out_ids(oview1).add(qpts(nodes@, qview1)).add(
                                        lpts@.skip(t as int + 1).to_multiset(),
                                    ).subset_of(allms));
                                    assert forall|j: usize|
                                        #![trigger rd_of::<D>(pts, q@, j)]
                                        (j as int) < n as int && out_ids(oview1).count(j) == 0
                                            && qpts(nodes@, qview1).count(j) == 0 && lpts@.skip(
                                            t as int + 1,
                                        ).to_multiset().count(j) == 0 implies left_out::<D>(
                                        pts,
                                        q@,
                                        bound as int,
                                        k as int,
                                        oview1,
                                        j,
                                    ) by {
                                        if j != pj {
                                            assert(out_ids(oview0).count(j) == 0);
                                            assert(lpts@.skip(t as int).to_multiset().count(j)
                                                == 0);
                                            assert(left_out::<D>(
                                                pts,
                                                q@,
                                                bound as int,
                                                k as int,
                                                oview0,
                                                j,
                                            ));
                                            assert(rd_of::<D>(pts, q@, j) > bound as int);
                                        }
                                    }
                                }
                            }
                        } else {
                            proof {
                                // the point is rightly left out, and the
                                // accepted set did not change
                                assert(left_out::<D>(
                                    pts,
                                    q@,
                                    bound as int,
                                    k as int,
                                    out.entries(),
                                    pj,
                                ));
                            }
                        }
                        t = t + 1;
                    }
                    proof {
                        broadcast use vstd::multiset::group_multiset_axioms;
                        broadcast use vstd::seq_lib::group_to_multiset_ensures;

                        assert(lpts@.skip(lpts@.len() as int) =~= Seq::<usize>::empty());
                        assert(lpts@.skip(lpts@.len() as int).to_multiset() =~= Multiset::<
                            usize,
                        >::empty());
                        lemma_qweight_nonneg(nodes@, qview1);
                        lemma_node_count_nonneg(nodes@, e.id as int);
                    }
                },
                Node::Branch { .. } => {},
            }
        } else {
            match &nodes[e.id] {
                Node::Leaf { .. } => {},
                Node::Branch { left, right, .. } => {
                    let lchild = *left;
                    let rchild = *right;
                    proof {
                        broadcast use vstd::multiset::group_multiset_axioms;
                        broadcast use vstd::seq_lib::group_to_multiset_ensures;

                        assert(node_pts(nodes@, e.id as int) == node_pts(nodes@, lchild as int)
                            + node_pts(nodes@, rchild as int));
                        crate::points::lemma_concat_multiset(
                            node_pts(nodes@, lchild as int),
                            node_pts(nodes@, rchild as int),
                        );
                        assert(node_count(nodes@, e.id as int) == 1 + node_count(
                            nodes@,
                            lchild as int,
                        ) + node_count(nodes@, rchild as int));
                        lemma_node_count_nonneg(nodes@, lchild as int);
                        lemma_node_count_nonneg(nodes@, rchild as int);
                    }
                    let dl = node_lb(points, nodes, lchild, dist, q, Ghost(dim));
                    let dr = node_lb(points, nodes, rchild, dist, q, Ghost(dim));
                    let ghost qbase = queue.entries();
                    if dl <= bound {
                        let el = Entry { key: dl, id: lchild };
                        let ghost qa = queue.entries();
                        queue.push(el);
                        proof {
                            broadcast use vstd::multiset::group_multiset_axioms;
                            broadcast use vstd::seq_lib::group_to_multiset_ensures;

                            lemma_q_perm(nodes@, queue.entries(), qa.push(el));
                            lemma_q_push(nodes@, qa, el);
                            lemma_queue_inv_insert::<D>(
                                pts,
                                nodes@,
                                q@,
                                dim,
                                qa,
                                queue.entries(),
                                el,
                            );
                        }
                    }
                    if dr <= bound {
                        let er = Entry { key: dr, id: rchild };
                        let ghost qb = queue.entries();
                        queue.push(er);
                        proof {
                            broadcast use vstd::multiset::group_multiset_axioms;
                            broadcast use vstd::seq_lib::group_to_multiset_ensures;

                            lemma_q_perm(nodes@, queue.entries(), qb.push(er));
                            lemma_q_push(nodes@, qb, er);
                            lemma_queue_inv_insert::<D>(
                                pts,
                                nodes@,
                                q@,
                                dim,
                                qb,
                                queue.entries(),
                                er,
                            );
                        }
                    }
                    proof {
                        broadcast use vstd::multiset::group_multiset_axioms;
                        broadcast use vstd::seq_lib::group_to_multiset_ensures;

                        lemma_qweight_nonneg(nodes@, qview1);
                        // coverage: what the children re-add never exceeds
                        // what the popped branch covered
                        assert(out_ids(out.entries()).add(qpts(nodes@, queue.entries())).subset_of(
                            allms,
                        ));
                        // any point under an unpushed child is too far for
                        // the limit
                        assert forall|j: usize|
                            #![trigger rd_of::<D>(pts, q@, j)]
                            (j as int) < n as int && out_ids(out.entries()).count(j) == 0 && qpts(
                                nodes@,
                                queue.entries(),
                            ).count(j) == 0 implies left_out::<D>(
                            pts,
                            q@,
                            bound as int,
                            k as int,
                            out.entries(),
                            j,
                        ) by {
                            if qpts(nodes@, qview0).count(j) == 0 {
                            } else if node_pts(nodes@, e.id as int).to_multiset().count(j) > 0 {
                                if node_pts(nodes@, lchild as int).to_multiset().count(j) > 0 {
                                    assert(dl > bound);
                                    assert(node_pts(nodes@, lchild as int).contains(j));
                                    let t2 = choose|t2: int|
                                        0 <= t2 < node_pts(nodes@, lchild as int).len()
                                            && node_pts(nodes@, lchild as int)[t2] == j;
                                    assert(rd_of::<D>(
                                        pts,
                                        q@,
                                        node_pts(nodes@, lchild as int)[t2],
                                    ) >= dl as int);
                                } else {
                                    assert(node_pts(nodes@, rchild as int).to_multiset().count(j)
                                        > 0);
                                    assert(dr > bound);
                                    assert(node_pts(nodes@, rchild as int).contains(j));
                                    let t2 = choose|t2: int|
                                        0 <= t2 < node_pts(nodes@, rchild as int).len()
                                            && node_pts(nodes@, rchild as int)[t2] == j;
                                    assert(rd_of::<D>(
                                        pts,
                                        q@,
                                        node_pts(nodes@, rchild as int)[t2],
                                    ) >= dr as int);
                                }
                            } else {
                                assert(qpts(nodes@, qview1).count(j) > 0);
                                assert(qpts(nodes@, queue.entries()).count(j) > 0);
                            }
                        }
                    }
                },
            }
        }
    }
    // drain the accepted set, worst first, then reverse into ascending
    // order by reduced distance
    let ghost omfinal = out_ids(out.entries());
    let ghost lfinal = out.entries().len();
    let ghost wsnap = worst_rd(out.entries());
    let ghost oexit = out.entries();
    let mut rev: Vec<usize> = Vec::new();
    while out.len() > 0
        invariant
            out.wf(),
            pts == views_of(points@),
            n == points@.len(),
            out_inv::<D>(pts, q@, bound as int, out.entries()),
            rev@.to_multiset().add(out_ids(out.entries())) == omfinal,
            rev@.len() + out.entries().len() == lfinal,
            forall|p: int|
                0 <= p < rev@.len() ==> ((#[trigger] rev@[p]) as int) < n as int && rd_of::<D>(
                    pts,
                    q@,
                    rev@[p],
                ) <= bound as int,
            forall|p: int, p2: int|
                #![trigger rev@[p], rev@[p2]]
                0 <= p <= p2 < rev@.len() ==> rd_of::<D>(pts, q@, rev@[p]) >= rd_of::<D>(
                    pts,
                    q@,
                    rev@[p2],
                ),
            forall|p: int, t2: int|
                #![trigger rev@[p], out.entries()[t2]]
                0 <= p < rev@.len() && 0 <= t2 < out.entries().len() ==> rd_of::<D>(
                    pts,
                    q@,
                    rev@[p],
                ) >= rd_of::<D>(pts, q@, out.entries()[t2].id),
            rev@.len() == 0 ==> out.entries() == oexit,
            wsnap == worst_rd(oexit),
            rev@.len() > 0 ==> rd_of::<D>(pts, q@, rev@[0]) == wsnap,
        decreases out.entries().len(),
    {
        proof {
            out.lemma_front_min();
        }
        let ghost oview0 = out.entries();
        let e = out.pop();
        rev.push(e.id);
        proof {
            broadcast use vstd::multiset::group_multiset_axioms;
            broadcast use vstd::seq_lib::group_to_multiset_ensures;

            let ghost oview1 = out.entries();
            lemma_out_inv_subset::<D>(pts, q@, bound as int, oview0, oview1);
            lemma_out_ids_perm(oview1, oview0.remove(0));
            lemma_out_ids_remove(oview0, 0);
            assert(oview0.map_values(|en: Entry| en.id)[0] == e.id);
            assert(oview0.map_values(|en: Entry| en.id).contains(e.id));
            assert(out_ids(oview0).count(e.id) > 0);
            assert(rev@ =~= rev@.drop_last().push(e.id));
            assert(rev@.to_multiset() == rev@.drop_last().to_multiset().insert(e.id));
            assert(rev@.to_multiset().add(out_ids(oview1)) =~= omfinal);
            assert(oview0[0] == e);
            if rev@.drop_last().len() == 0 {
                assert(oview0 == oexit);
                assert(e.key as int == u128::MAX - rd_of::<D>(pts, q@, e.id));
                assert(rev@[0] == e.id);
                assert(rd_of::<D>(pts, q@, rev@[0]) == wsnap);
            } else {
                assert(rev@[0] == rev@.drop_last()[0]);
            }
            // the popped entry dominates everything that remains
            assert forall|t2: int| 0 <= t2 < oview1.len() implies rd_of::<D>(pts, q@, e.id)
                >= rd_of::<D>(pts, q@, (#[trigger] oview1[t2]).id) by {
                let f = oview1[t2];
                assert(oview1.contains(f));
                assert(oview1.to_multiset().count(f) > 0);
                assert(oview0.to_multiset().count(f) > 0);
                assert(oview0.contains(f));
                let pf = choose|t3: int| 0 <= t3 < oview0.len() && oview0[t3] == f;
                assert(e.key <= oview0[pf].key);
            }
        }
    }
    proof {
        assert(out_ids(out.entries()) =~= Multiset::<usize>::empty());
        assert(rev@.to_multiset() =~= omfinal);
        // distinctness: the accepted identifiers sit inside a duplicate-free
        // universe
        assert forall|x: usize| rev@.to_multiset().contains(x) implies rev@.to_multiset().count(x)
            == 1 by {
            assert(omfinal.count(x) >= 1);
            assert(omfinal.subset_of(allms));
            assert(omfinal.count(x) <= allms.count(x));
            assert(allms.count(x) <= 1);
        }
        rev@.lemma_multiset_has_no_duplicates_conv();
    }
    let mut res: Vec<usize> = Vec::new();
    let mut t2: usize = rev.len();
    while t2 > 0
        invariant
            0 <= t2 <= rev@.len(),
            res@.len() == rev@.len() - t2,
            forall|p: int|
                0 <= p < res@.len() ==> (#[trigger] res@[p]) == rev@[rev@.len() - 1 - p],
        decreases t2,
    {
        t2 = t2 - 1;
        res.push(rev[t2]);
    }
    proof {
        assert(res@.len() == lfinal);
        assert(res@.no_duplicates()) by {
            assert forall|p: int, p2: int|
                0 <= p < p2 < res@.len() implies res@[p] != res@[p2] by {
                assert(res@[p] == rev@[rev@.len() - 1 - p]);
                assert(res@[p2] == rev@[rev@.len() - 1 - p2]);
            }
        }
        assert forall|j: usize| res@.contains(j) <==> rev@.contains(j) by {
            if res@.contains(j) {
                let p = choose|p: int| 0 <= p < res@.len() && res@[p] == j;
                assert(rev@[rev@.len() - 1 - p] == j);
            }
            if rev@.contains(j) {
                let p = choose|p: int| 0 <= p < rev@.len() && rev@[p] == j;
                assert(res@[rev@.len() - 1 - p] == j);
            }
        }
        // completeness carries from the search loop's exit facts
        assert forall|j: usize|
            #![trigger rd_of::<D>(pts, q@, j)]
            (j as int) < pts.len() && !res@.contains(j) implies rd_of::<D>(pts, q@, j)
            > bound as int || (res@.len() == k as int && (k as int == 0 || rd_of::<D>(pts, q@, j)
            >= rd_of::<D>(pts, q@, res@[k as int - 1]))) by {
            assert(!rev@.contains(j));
            assert(rev@.to_multiset().count(j) == 0);
            assert(omfinal.count(j) == 0);
            assert(out_ids(oexit).count(j) == 0);
            assert(left_out::<D>(pts, q@, bound as int, k as int, oexit, j));
            if rd_of::<D>(pts, q@, j) > bound as int {
            } else {
                assert(oexit.len() == k as int);
                assert(lfinal == k as int);
                assert(rev@.len() == k as int);
                assert(res@[k as int - 1] == rev@[0]);
                assert(rd_of::<D>(pts, q@, rev@[0]) == wsnap);
            }
        }
        assert forall|i: int, j2: int|
            #![trigger res@[i], res@[j2]]
            0 <= i <= j2 < res@.len() implies rd_of::<D>(pts, q@, res@[i]) <= rd_of::<D>(
            pts,
            q@,
            res@[j2],
        ) by {
            assert(res@[i] == rev@[rev@.len() - 1 - i]);
            assert(res@[j2] == rev@[rev@.len() - 1 - j2]);
        }
    }
    res
}

} // verus!
