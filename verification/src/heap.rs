//! A verified binary min-heap of keyed entries.
//!
//! One structure serves both roles of the query engine: the frontier of
//! candidate subtrees is a min-heap over lower-bound keys, and the bounded
//! set of best candidates found so far is kept as a min-heap over
//! *complemented* reduced distances, so that its root is the worst
//! candidate and popping evicts it.

use vstd::prelude::*;

verus! {

/// A heap entry: a priority key and a payload identifier.
#[derive(Clone, Copy, Debug, PartialEq, Eq, Structural)]
pub struct Entry {
    pub key: u128,
    pub id: usize,
}

/// A binary min-heap over `Entry`, ordered by `key`, laid out implicitly in
/// a vector: the children of position `i` sit at `2i + 1` and `2i + 2`.
pub struct MinHeap {
    v: Vec<Entry>,
}

impl MinHeap {
    /// The entries in heap layout order.  Only the multiset of entries and
    /// the root's minimality are meaningful to callers.
    pub closed spec fn entries(&self) -> Seq<Entry> {
        self.v@
    }

    /// The shape invariant: every non-root entry's key is at least its
    /// parent's key.
    pub closed spec fn wf(&self) -> bool {
        forall|i: int|
            1 <= i < self.v@.len() ==> (#[trigger] self.v@[i]).key >= self.v@[(i - 1) / 2].key
    }

    /// The root of a well-formed non-empty heap holds a minimal key.
    proof fn lemma_root_min(&self, i: int)
        requires
            self.wf(),
            0 <= i < self.entries().len(),
        ensures
            self.entries()[0].key <= self.entries()[i].key,
        decreases i,
    {
        if i > 0 {
            self.lemma_root_min((i - 1) / 2);
        }
    }

    /// The root of a well-formed non-empty heap is below every entry.
    pub(crate) proof fn lemma_front_min(&self)
        requires
            self.wf(),
            self.entries().len() > 0,
        ensures
            forall|i: int|
                0 <= i < self.entries().len() ==> self.entries()[0].key <= (
                #[trigger] self.entries()[i]).key,
    {
        assert forall|i: int| 0 <= i < self.entries().len() implies self.entries()[0].key <= (
        #[trigger] self.entries()[i]).key by {
            self.lemma_root_min(i);
        }
    }

    pub fn new() -> (h: Self)
        ensures
            h.wf(),
            h.entries() == Seq::<Entry>::empty(),
    {
        MinHeap { v: Vec::new() }
    }

    pub fn len(&self) -> (n: usize)
        ensures
            n == self.entries().len(),
    {
        self.v.len()
    }

    /// The entry that `pop` would return, without removing it.
    pub fn peek(&self) -> (e: Entry)
        requires
            self.wf(),
            self.entries().len() > 0,
        ensures
            e == self.entries()[0],
            forall|i: int|
                0 <= i < self.entries().len() ==> e.key <= (#[trigger] self.entries()[i]).key,
    {
        proof {
            assert forall|i: int| 0 <= i < self.entries().len() implies self.entries()[0].key <= (
            #[trigger] self.entries()[i]).key by {
                self.lemma_root_min(i);
            }
        }
        self.v[0]
    }

    /// Insert an entry, restoring the shape invariant by sifting up.
    pub fn push(&mut self, e: Entry)
        requires
            old(self).wf(),
        ensures
            final(self).wf(),
            final(self).entries().to_multiset() == old(self).entries().to_multiset().insert(e),
            final(self).entries().len() == old(self).entries().len() + 1,
    {
        self.v.push(e);
        proof {
            broadcast use vstd::seq_lib::group_to_multiset_ensures;

        }
        let ghost n1 = self.v@.len();
        let ghost m1 = self.v@.to_multiset();
        assert(m1 == old(self).entries().to_multiset().insert(e));
        let mut i: usize = self.v.len() - 1;
        while i > 0
            invariant
                self.v@.len() == n1,
                0 <= i < n1,
                self.v@.to_multiset() == m1,
                forall|j: int|
                    1 <= j < n1 && j != i ==> (#[trigger] self.v@[j]).key >= self.v@[(j - 1)
                        / 2].key,
                i > 0 ==> forall|j: int|
                    1 <= j < n1 && (j - 1) / 2 == i ==> (#[trigger] self.v@[j]).key >= self.v@[(i
                        - 1) as int / 2].key,
            ensures
                self.v@.len() == n1,
                self.v@.to_multiset() == m1,
                forall|j: int|
                    1 <= j < n1 ==> (#[trigger] self.v@[j]).key >= self.v@[(j - 1) / 2].key,
            decreases i,
        {
            let p: usize = (i - 1) / 2;
            if self.v[p].key <= self.v[i].key {
                break ;
            }
            let a = self.v[p];
            let b = self.v[i];
            let ghost vpre = self.v@;
            self.v.set(p, b);
            self.v.set(i, a);
            proof {
                broadcast use vstd::seq_lib::group_to_multiset_ensures;

                assert(self.v@.to_multiset() =~= vpre.to_multiset());
                assert forall|j: int|
                    1 <= j < n1 && j != p implies (#[trigger] self.v@[j]).key >= self.v@[(j - 1)
                    / 2].key by {
                    if j == i {
                        // position i now holds the old parent, above the
                        // demoted key at p
                    } else if (j - 1) / 2 == i {
                        // children of i respected i's parent already
                        assert(vpre[j].key >= vpre[(i - 1) as int / 2].key);
                    } else if (j - 1) / 2 == p {
                        // siblings of i sat above the old key at p, which
                        // only decreased
                        assert(vpre[j].key >= vpre[(j - 1) / 2].key);
                    } else {
                        assert(vpre[j].key >= vpre[(j - 1) / 2].key);
                    }
                }
                assert forall|j: int|
                    1 <= j < n1 && (j - 1) / 2 == p && p > 0 implies (#[trigger] self.v@[j]).key
                    >= self.v@[(p - 1) as int / 2].key by {
                    if j == i {
                        assert(self.v@[j] == a);
                        assert(vpre[p as int].key >= vpre[(p - 1) as int / 2].key);
                    } else {
                        assert(vpre[j].key >= vpre[p as int].key);
                        assert(vpre[p as int].key >= vpre[(p - 1) as int / 2].key);
                    }
                }
            }
            i = p;
        }
        proof {
            assert(self.wf());
        }
    }

    /// Remove and return an entry with minimal key.
    #[verifier::rlimit(60)]
    pub fn pop(&mut self) -> (e: Entry)
        requires
            old(self).wf(),
            old(self).entries().len() > 0,
        ensures
            final(self).wf(),
            e == old(self).entries()[0],
            forall|i: int|
                0 <= i < old(self).entries().len() ==> e.key <= (#[trigger] old(
                    self,
                ).entries()[i]).key,
            final(self).entries().to_multiset() == old(self).entries().to_multiset().remove(e),
            final(self).entries().len() == old(self).entries().len() - 1,
    {
        proof {
            broadcast use vstd::seq_lib::group_to_multiset_ensures;

            assert forall|i: int| 0 <= i < self.entries().len() implies self.entries()[0].key <= (
            #[trigger] self.entries()[i]).key by {
                self.lemma_root_min(i);
            }
        }
        let e = self.v[0];
        let last = self.v.pop().unwrap();
        let n = self.v.len();
        if n == 0 {
            proof {
                broadcast use vstd::seq_lib::group_to_multiset_ensures;

                assert(old(self).entries() =~= seq![e]);
                assert(self.entries().to_multiset() =~= old(self).entries().to_multiset().remove(
                    e,
                ));
            }
            return e;
        }
        self.v.set(0, last);
        proof {
            broadcast use vstd::seq_lib::group_to_multiset_ensures;

            // removing the root then seating the final element at the root
            // is, as a multiset, removing the root from the original
            assert(old(self).entries() =~= old(self).entries().drop_last().push(last)) by {
                assert(old(self).entries().last() == last);
            }
            assert(self.v@ =~= old(self).entries().drop_last().update(0, last));
            assert(self.v@.to_multiset() =~= old(self).entries().to_multiset().remove(e));
        }
        let ghost m0 = self.v@.to_multiset();
        let ghost v0 = self.v@;
        proof {
            assert forall|j: int| 1 <= j < n && (j - 1) / 2 != 0 implies (#[trigger] v0[j]).key
                >= v0[(j - 1) / 2].key by {
                assert(v0[j] == old(self).entries()[j]);
                assert(v0[(j - 1) / 2] == old(self).entries()[(j - 1) / 2]);
            }
        }
        let mut i: usize = 0;
        loop
            invariant
                self.v@.len() == n,
                0 <= i < n,
                self.v@.to_multiset() == m0,
                forall|j: int|
                    1 <= j < n && (j - 1) / 2 != i ==> (#[trigger] self.v@[j]).key >= self.v@[(j - 1)
                        / 2].key,
                i > 0 ==> self.v@[i as int].key >= self.v@[(i - 1) as int / 2].key,
                i > 0 ==> forall|j: int|
                    1 <= j < n && (j - 1) / 2 == i ==> (#[trigger] self.v@[j]).key >= self.v@[(i
                        - 1) as int / 2].key,
            ensures
                self.v@.len() == n,
                self.v@.to_multiset() == m0,
                forall|j: int|
                    1 <= j < n ==> (#[trigger] self.v@[j]).key >= self.v@[(j - 1) / 2].key,
            decreases n - i,
        {
            if i >= n / 2 {
                proof {
                    assert forall|j: int| 1 <= j < n implies (#[trigger] self.v@[j]).key
                        >= self.v@[(j - 1) / 2].key by {
                        if (j - 1) / 2 == i {
                            assert(j >= 2 * i + 1);
                            assert(2 * i + 1 >= n);
                        }
                    }
                }
                break ;
            }
            let l: usize = 2 * i + 1;
            let r: usize = l + 1;
            let c: usize = if r < n && self.v[r].key < self.v[l].key {
                r
            } else {
                l
            };
            proof {
                assert(l < n);
                assert((l - 1) as int / 2 == i && c < n);
                assert((c - 1) as int / 2 == i);
            }
            if self.v[i].key <= self.v[c].key {
                proof {
                    assert forall|j: int| 1 <= j < n implies (#[trigger] self.v@[j]).key
                        >= self.v@[(j - 1) / 2].key by {
                        if (j - 1) / 2 == i {
                            assert(j == l || j == r);
                            assert(self.v@[j].key >= self.v@[c as int].key);
                        }
                    }
                }
                break ;
            }
            let a = self.v[i];
            let b = self.v[c];
            let ghost vpre = self.v@;
            self.v.set(i, b);
            self.v.set(c, a);
            proof {
                broadcast use vstd::seq_lib::group_to_multiset_ensures;

                assert(self.v@.to_multiset() =~= vpre.to_multiset());
                // the smaller child is below both old children
                assert(vpre[l as int].key >= b.key && (r < n ==> vpre[r as int].key >= b.key));
                assert forall|j: int|
                    1 <= j < n && (j - 1) / 2 != c implies (#[trigger] self.v@[j]).key >= self.v@[(j
                    - 1) / 2].key by {
                    if j == c {
                        assert(self.v@[j] == a && self.v@[(j - 1) / 2] == b);
                    } else if j == i {
                        if i > 0 {
                            assert(vpre[c as int].key >= vpre[(i - 1) as int / 2].key);
                        }
                    } else if (j - 1) / 2 == i {
                        assert(j == l || j == r);
                        assert(vpre[j].key >= b.key);
                    } else {
                        assert(vpre[j].key >= vpre[(j - 1) / 2].key);
                    }
                }
                assert(self.v@[c as int].key >= self.v@[(c - 1) as int / 2].key);
                assert forall|j: int|
                    1 <= j < n && (j - 1) / 2 == c implies (#[trigger] self.v@[j]).key >= self.v@[(c
                    - 1) as int / 2].key by {
                    assert(vpre[j].key >= vpre[(j - 1) / 2].key);
                    assert(vpre[j].key >= vpre[c as int].key);
                }
            }
            i = c;
        }
        proof {
            assert(self.wf());
        }
        e
    }
}

} // verus!
