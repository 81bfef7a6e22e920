//! Union-find over dense indices, used to select the initial spanning tree:
//! an input arc whose endpoints are not yet in the same set becomes a tree
//! arc, and one that would close a cycle does not.

use vstd::prelude::*;

verus! {

/// Outcome of a union: whether the two elements were already in one set.
pub enum UnionResult {
    NotCycle,
    Cycle,
}

/// Union-find over `0..size` with path compression.  Every link points from a
/// larger index to a strictly smaller one, so each chain of links descends and
/// the representative of a set is its least element.
pub struct UnionFindSet {
    pub set_map: Vec<Option<usize>>,
}

/// Every link points strictly downward.
pub open spec fn uf_wf(m: Seq<Option<usize>>) -> bool {
    forall|i: int| 0 <= i < m.len() && (#[trigger] m[i]) is Some ==> m[i]->Some_0 < i
}

/// The representative reached by following links from `i`.
pub open spec fn root_of(m: Seq<Option<usize>>, i: int) -> int
    decreases i,
{
    if 0 <= i < m.len() && m[i] is Some && m[i]->Some_0 < i {
        root_of(m, m[i]->Some_0 as int)
    } else {
        i
    }
}

pub proof fn lemma_root_le(m: Seq<Option<usize>>, i: int)
    ensures
        root_of(m, i) <= i,
        i >= 0 ==> root_of(m, i) >= 0,
    decreases i,
{
    if 0 <= i < m.len() && m[i] is Some && m[i]->Some_0 < i {
        lemma_root_le(m, m[i]->Some_0 as int);
    }
}

/// The element a chain ends at carries no link.
pub proof fn lemma_root_none(m: Seq<Option<usize>>, i: int)
    requires
        0 <= i < m.len(),
    ensures
        0 <= root_of(m, i) <= i,
        m[root_of(m, i)] is None || !(m[root_of(m, i)]->Some_0 < root_of(m, i)),
    decreases i,
{
    if m[i] is Some && m[i]->Some_0 < i {
        lemma_root_none(m, m[i]->Some_0 as int);
    }
}

/// Rewriting one linked entry to point directly at its representative does not
/// change the representative of any element.
pub proof fn lemma_compress(m: Seq<Option<usize>>, idx: int, r: usize, x: int)
    requires
        uf_wf(m),
        0 <= idx < m.len(),
        m[idx] is Some,
        r as int == root_of(m, idx),
    ensures
        uf_wf(m.update(idx, Some(r))),
        root_of(m.update(idx, Some(r)), x) == root_of(m, x),
    decreases x,
{
    lemma_root_le(m, m[idx]->Some_0 as int);
    lemma_root_none(m, idx);
    let m2 = m.update(idx, Some(r));
    if x == idx {
        assert(root_of(m2, idx) == root_of(m2, r as int));
    } else if 0 <= x < m.len() && m[x] is Some && m[x]->Some_0 < x {
        lemma_compress(m, idx, r, m[x]->Some_0 as int);
    }
}

/// Linking one representative under a smaller one merges exactly the two sets.
pub proof fn lemma_link(m: Seq<Option<usize>>, hi: int, lo: usize, x: int)
    requires
        uf_wf(m),
        0 <= lo < hi < m.len(),
        m[hi] is None,
        m[lo as int] is None,
    ensures
        uf_wf(m.update(hi, Some(lo))),
        root_of(m.update(hi, Some(lo)), x) == (if root_of(m, x) == hi {
            lo as int
        } else {
            root_of(m, x)
        }),
    decreases x,
{
    let m2 = m.update(hi, Some(lo));
    if x == hi {
        assert(root_of(m2, hi) == root_of(m2, lo as int));
    } else if 0 <= x < m.len() && m[x] is Some && m[x]->Some_0 < x {
        lemma_link(m, hi, lo, m[x]->Some_0 as int);
    }
}

impl UnionFindSet {
    /// Makes `size` singleton sets.
    pub fn new(size: usize) -> (r: Self)
        ensures
            r.set_map@.len() == size,
            uf_wf(r.set_map@),
            forall|x: int| root_of(r.set_map@, x) == x,
    {
        let mut v: Vec<Option<usize>> = Vec::new();
        while v.len() < size
            invariant
                forall|i: int| 0 <= i < v@.len() ==> (#[trigger] v@[i]) is None,
                v@.len() <= size,
            decreases size - v@.len(),
        {
            v.push(None);
        }
        UnionFindSet { set_map: v }
    }

    /// Returns the representative of `idx`, compressing the chain it walked.
    /// The partition of elements into sets is unchanged.
    pub fn find(&mut self, idx: usize) -> (r: usize)
        requires
            uf_wf(old(self).set_map@),
            idx < old(self).set_map@.len(),
        ensures
            uf_wf(final(self).set_map@),
            final(self).set_map@.len() == old(self).set_map@.len(),
            r as int == root_of(old(self).set_map@, idx as int),
            r <= idx,
            forall|x: int| root_of(final(self).set_map@, x) == root_of(old(self).set_map@, x),
            forall|x: int|
                (idx as int) < x < old(self).set_map@.len() ==> final(self).set_map@[x]
                    == old(self).set_map@[x],
        decreases idx,
    {
        let link = self.set_map[idx];
        if let Some(new_idx) = link {
            let ghost m0 = self.set_map@;
            let res = self.find(new_idx);
            let ghost m1 = self.set_map@;
            proof {
                lemma_root_le(m1, new_idx as int);
            }
            self.set_map[idx] = Some(res);
            proof {
                assert(root_of(m1, idx as int) == root_of(m1, new_idx as int));
                assert forall|x: int|
                    root_of(self.set_map@, x) == root_of(m0, x) by {
                    lemma_compress(m1, idx as int, res, x);
                }
            }
            res
        } else {
            idx
        }
    }

    /// Merges the sets of `a` and `b`.  Reports `Cycle` exactly when they were
    /// already one set; otherwise the set with the larger representative is
    /// folded into the other.
    pub fn union(&mut self, a: usize, b: usize) -> (r: UnionResult)
        requires
            uf_wf(old(self).set_map@),
            a < old(self).set_map@.len(),
            b < old(self).set_map@.len(),
        ensures
            uf_wf(final(self).set_map@),
            final(self).set_map@.len() == old(self).set_map@.len(),
            (r is Cycle) <==> root_of(old(self).set_map@, a as int) == root_of(
                old(self).set_map@,
                b as int,
            ),
            r is Cycle ==> forall|x: int|
                root_of(final(self).set_map@, x) == root_of(old(self).set_map@, x),
            r is NotCycle ==> forall|x: int|
                root_of(final(self).set_map@, x) == (if root_of(old(self).set_map@, x)
                    == max_root(old(self).set_map@, a as int, b as int) {
                    min_root(old(self).set_map@, a as int, b as int)
                } else {
                    root_of(old(self).set_map@, x)
                }),
    {
        let ghost m0 = self.set_map@;
        let res_a = self.find(a);
        let res_b = self.find(b);
        let ghost m2 = self.set_map@;
        if res_a == res_b {
            UnionResult::Cycle
        } else {
            let hi: usize = if res_a > res_b {
                res_a
            } else {
                res_b
            };
            let lo: usize = if res_a > res_b {
                res_b
            } else {
                res_a
            };
            proof {
                lemma_root_le(m0, a as int);
                lemma_root_le(m0, b as int);
                lemma_root_none(m2, a as int);
                lemma_root_none(m2, b as int);
                assert(root_of(m2, a as int) == res_a as int);
                assert(root_of(m2, b as int) == res_b as int);
            }
            self.set_map[hi] = Some(lo);
            proof {
                assert forall|x: int|
                    root_of(self.set_map@, x) == (if root_of(m0, x) == max_root(m0, a as int, b as int) {
                        min_root(m0, a as int, b as int)
                    } else {
                        root_of(m0, x)
                    }) by {
                    lemma_link(m2, hi as int, lo, x);
                }
            }
            UnionResult::NotCycle
        }
    }
}

/// A canonical labelling of `0..len`: each element carries the least element
/// of its set, so two elements are in one set exactly when their labels agree.
pub open spec fn labels_wf(l: Seq<int>) -> bool {
    forall|i: int| 0 <= i < l.len() ==> 0 <= #[trigger] l[i] <= i && l[l[i]] == l[i]
}

/// The labelling after merging the sets of `a` and `b`: the class carrying
/// the larger label is relabelled with the smaller one.
pub open spec fn merged_labels(l: Seq<int>, a: int, b: int) -> Seq<int> {
    let la = l[a];
    let lb = l[b];
    if la == lb {
        l
    } else {
        let hi = if la > lb {
            la
        } else {
            lb
        };
        let lo = if la > lb {
            lb
        } else {
            la
        };
        Seq::new(l.len(), |i: int| if l[i] == hi { lo } else { l[i] })
    }
}

pub proof fn lemma_merged_wf(l: Seq<int>, a: int, b: int)
    requires
        labels_wf(l),
        0 <= a < l.len(),
        0 <= b < l.len(),
    ensures
        merged_labels(l, a, b).len() == l.len(),
        labels_wf(merged_labels(l, a, b)),
{
    let m = merged_labels(l, a, b);
    if l[a] != l[b] {
        let hi = if l[a] > l[b] { l[a] } else { l[b] };
        let lo = if l[a] > l[b] { l[b] } else { l[a] };
        assert forall|i: int| 0 <= i < m.len() implies 0 <= #[trigger] m[i] <= i && m[m[i]] == m[i] by {
            assert(l[lo] == lo);
            if l[i] == hi {
                assert(m[i] == lo);
                assert(m[lo] == lo);
            } else {
                assert(m[i] == l[i]);
                assert(l[l[i]] == l[i]);
                assert(m[l[i]] == l[i]);
            }
        }
    }
}

/// How many elements are their own label among the first `k`.
pub open spec fn root_count(l: Seq<int>, k: int) -> int
    decreases k,
{
    if k <= 0 {
        0
    } else {
        root_count(l, k - 1) + if l[k - 1] == k - 1 {
            1int
        } else {
            0int
        }
    }
}

proof fn lemma_root_count_frame(l: Seq<int>, l2: Seq<int>, hi: int, k: int)
    requires
        l.len() == l2.len(),
        0 <= hi < l.len(),
        l[hi] == hi,
        l2[hi] != hi,
        forall|i: int| 0 <= i < l.len() && i != hi ==> ((l[i] == i) <==> (#[trigger] l2[i] == i)),
        k <= l.len(),
    ensures
        root_count(l2, k) == root_count(l, k) - (if hi < k {
            1int
        } else {
            0int
        }),
    decreases k,
{
    if k > 0 {
        lemma_root_count_frame(l, l2, hi, k - 1);
    }
}

/// A merge of two distinct sets loses exactly one label.
pub proof fn lemma_merged_root_count(l: Seq<int>, a: int, b: int)
    requires
        labels_wf(l),
        0 <= a < l.len(),
        0 <= b < l.len(),
        l[a] != l[b],
    ensures
        root_count(merged_labels(l, a, b), l.len() as int) == root_count(l, l.len() as int) - 1,
{
    let m = merged_labels(l, a, b);
    let hi = if l[a] > l[b] { l[a] } else { l[b] };
    let lo = if l[a] > l[b] { l[b] } else { l[a] };
    assert(l[hi] == hi);
    assert(l[lo] == lo);
    assert(m[hi] == lo);
    assert forall|i: int| 0 <= i < l.len() && i != hi implies ((l[i] == i) <==> (#[trigger] m[i]
        == i)) by {
        if l[i] == hi {
            assert(m[i] == lo);
            assert(l[i] != i);
            assert(l[lo] == lo && lo != hi);
            assert(m[i] != i);
        } else {
            assert(m[i] == l[i]);
        }
    }
    lemma_root_count_frame(l, m, hi, l.len() as int);
}

/// The identity labelling has one label per element.
pub proof fn lemma_identity_root_count(l: Seq<int>, k: int)
    requires
        forall|i: int| 0 <= i < l.len() ==> #[trigger] l[i] == i,
        k <= l.len(),
    ensures
        root_count(l, k) == if k >= 0 {
            k
        } else {
            0int
        },
    decreases k,
{
    if k > 0 {
        lemma_identity_root_count(l, k - 1);
    }
}

/// An all-zero labelling has a single label.
pub proof fn lemma_all_zero_root_count(l: Seq<int>, k: int)
    requires
        forall|i: int| 0 <= i < l.len() ==> #[trigger] l[i] == 0,
        1 <= k <= l.len(),
    ensures
        root_count(l, k) == 1,
    decreases k,
{
    assert(l[k - 1] == 0);
    assert(root_count(l, k) == root_count(l, k - 1) + if l[k - 1] == k - 1 {
        1int
    } else {
        0int
    });
    if k > 1 {
        lemma_all_zero_root_count(l, k - 1);
    } else {
        assert(l[0] == 0);
        assert(root_count(l, 0) == 0);
    }
}

/// The larger of the two representatives.
pub open spec fn max_root(m: Seq<Option<usize>>, a: int, b: int) -> int {
    if root_of(m, a) > root_of(m, b) {
        root_of(m, a)
    } else {
        root_of(m, b)
    }
}

/// The smaller of the two representatives.
pub open spec fn min_root(m: Seq<Option<usize>>, a: int, b: int) -> int {
    if root_of(m, a) > root_of(m, b) {
        root_of(m, b)
    } else {
        root_of(m, a)
    }
}

} // verus!
