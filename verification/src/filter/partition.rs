//! Column merging as a partition: every row that the merge passes leave is the GF(2) sum of a
//! nonempty group of the rows they started from, and every starting row lies in exactly one
//! group.

use vstd::prelude::*;
use crate::filter::matrix::{row_wf, SparseMatrix};
use crate::filter::merge::{holders, merge_holders, merge_pass_spec, merge_sweep, rows_view};
use crate::filter::seqs::{lemma_merge_symdiff, lemma_merge_union, merge_symdiff, merge_union, strictly_sorted};

verus! {

/// Both the columns and the provenance of a row are strictly increasing.
pub open spec fn row_sorted(row: (Seq<usize>, Seq<usize>)) -> bool {
    strictly_sorted(row.0) && strictly_sorted(row.1)
}

/// How many of the starting rows `i < m` in group `k` hold column `c`.
pub open spec fn group_count(v0: Seq<(Seq<usize>, Seq<usize>)>, owner: Seq<int>, k: int, c: usize, m: int) -> nat
    decreases m,
{
    if m <= 0 {
        0
    } else {
        group_count(v0, owner, k, c, m - 1) + if owner[m - 1] == k && v0[m - 1].0.contains(c) {
            1nat
        } else {
            0nat
        }
    }
}

/// Some starting row `i < m` in group `k` has relation `x` in its provenance.
pub open spec fn group_has(v0: Seq<(Seq<usize>, Seq<usize>)>, owner: Seq<int>, k: int, x: usize, m: int) -> bool
    decreases m,
{
    if m <= 0 {
        false
    } else {
        group_has(v0, owner, k, x, m - 1) || (owner[m - 1] == k && v0[m - 1].1.contains(x))
    }
}

/// `row` is the GF(2) sum of group `k`: sorted, its columns those held by an odd number of
/// the group's rows, its provenance the union of theirs.
pub open spec fn sums_group(v0: Seq<(Seq<usize>, Seq<usize>)>, owner: Seq<int>, k: int, row: (Seq<usize>, Seq<usize>)) -> bool {
    &&& strictly_sorted(row.0)
    &&& strictly_sorted(row.1)
    &&& forall|c: usize| #[trigger] row.0.contains(c) <==> group_count(v0, owner, k, c, v0.len() as int) % 2 == 1
    &&& forall|x: usize| #[trigger] row.1.contains(x) <==> group_has(v0, owner, k, x, v0.len() as int)
}

/// Some starting row went into group `k`.
pub open spec fn has_member(owner: Seq<int>, k: int) -> bool {
    exists|i: int| 0 <= i < owner.len() && #[trigger] owner[i] == k
}

/// `w` partitions the starting rows `v0`: starting row `i` went into row `owner[i]` of `w`,
/// every row of `w` received at least one starting row and is the sum of those it received.
pub open spec fn partitioned(v0: Seq<(Seq<usize>, Seq<usize>)>, w: Seq<(Seq<usize>, Seq<usize>)>, owner: Seq<int>) -> bool {
    &&& owner.len() == v0.len()
    &&& forall|i: int| 0 <= i < owner.len() ==> 0 <= #[trigger] owner[i] < w.len()
    &&& forall|k: int| 0 <= k < w.len() ==> #[trigger] has_member(owner, k)
    &&& forall|k: int| 0 <= k < w.len() ==> #[trigger] sums_group(v0, owner, k, w[k])
}

/// A group that another owner map holds exactly as `owner` holds group `k` has the same
/// counts and provenance.
proof fn lemma_group_same(v0: Seq<(Seq<usize>, Seq<usize>)>, owner: Seq<int>, owner2: Seq<int>, k: int, k2: int, m: int)
    requires
        m <= owner.len(),
        m <= owner2.len(),
        forall|i: int| 0 <= i < m ==> ((#[trigger] owner2[i] == k2) == (owner[i] == k)),
    ensures
        forall|c: usize| #[trigger] group_count(v0, owner2, k2, c, m) == group_count(v0, owner, k, c, m),
        forall|x: usize| #[trigger] group_has(v0, owner2, k2, x, m) == group_has(v0, owner, k, x, m),
    decreases m,
{
    if m > 0 {
        lemma_group_same(v0, owner, owner2, k, k2, m - 1);
        assert(owner2[m - 1] == k2 <==> owner[m - 1] == k);
        assert forall|c: usize| #[trigger] group_count(v0, owner2, k2, c, m) == group_count(v0, owner, k, c, m) by {
            assert(group_count(v0, owner2, k2, c, m - 1) == group_count(v0, owner, k, c, m - 1));
        }
        assert forall|x: usize| #[trigger] group_has(v0, owner2, k2, x, m) == group_has(v0, owner, k, x, m) by {
            assert(group_has(v0, owner2, k2, x, m - 1) == group_has(v0, owner, k, x, m - 1));
        }
    } else {
        assert forall|c: usize| #[trigger] group_count(v0, owner2, k2, c, m) == group_count(v0, owner, k, c, m) by {}
        assert forall|x: usize| #[trigger] group_has(v0, owner2, k2, x, m) == group_has(v0, owner, k, x, m) by {}
    }
}

/// A group made of groups `a` and `b` of `owner`.
proof fn lemma_group_pair(v0: Seq<(Seq<usize>, Seq<usize>)>, owner: Seq<int>, owner2: Seq<int>, a: int, b: int, k2: int, m: int)
    requires
        a != b,
        m <= owner.len(),
        m <= owner2.len(),
        forall|i: int| 0 <= i < m ==> ((#[trigger] owner2[i] == k2) == (owner[i] == a || owner[i] == b)),
    ensures
        forall|c: usize|
            #[trigger] group_count(v0, owner2, k2, c, m) == group_count(v0, owner, a, c, m) + group_count(v0, owner, b, c, m),
        forall|x: usize| #[trigger] group_has(v0, owner2, k2, x, m) == (group_has(v0, owner, a, x, m) || group_has(v0, owner, b, x, m)),
    decreases m,
{
    if m > 0 {
        lemma_group_pair(v0, owner, owner2, a, b, k2, m - 1);
        assert(owner2[m - 1] == k2 <==> (owner[m - 1] == a || owner[m - 1] == b));
        assert forall|c: usize|
            #[trigger] group_count(v0, owner2, k2, c, m) == group_count(v0, owner, a, c, m) + group_count(v0, owner, b, c, m) by {
            assert(group_count(v0, owner2, k2, c, m - 1) == group_count(v0, owner, a, c, m - 1) + group_count(v0, owner, b, c, m - 1));
        }
        assert forall|x: usize|
            #[trigger] group_has(v0, owner2, k2, x, m) == (group_has(v0, owner, a, x, m) || group_has(v0, owner, b, x, m)) by {
            assert(group_has(v0, owner2, k2, x, m - 1) == (group_has(v0, owner, a, x, m - 1) || group_has(v0, owner, b, x, m - 1)));
        }
    } else {
        assert forall|c: usize|
            #[trigger] group_count(v0, owner2, k2, c, m) == group_count(v0, owner, a, c, m) + group_count(v0, owner, b, c, m) by {}
        assert forall|x: usize|
            #[trigger] group_has(v0, owner2, k2, x, m) == (group_has(v0, owner, a, x, m) || group_has(v0, owner, b, x, m)) by {}
    }
}

/// A group made of groups `a`, `b` and `d` of `owner`.
proof fn lemma_group_triple(
    v0: Seq<(Seq<usize>, Seq<usize>)>,
    owner: Seq<int>,
    owner2: Seq<int>,
    a: int,
    b: int,
    d: int,
    k2: int,
    m: int,
)
    requires
        a != b,
        a != d,
        b != d,
        m <= owner.len(),
        m <= owner2.len(),
        forall|i: int| 0 <= i < m ==> ((#[trigger] owner2[i] == k2) == (owner[i] == a || owner[i] == b || owner[i] == d)),
    ensures
        forall|c: usize|
            #[trigger] group_count(v0, owner2, k2, c, m) == group_count(v0, owner, a, c, m) + group_count(v0, owner, b, c, m)
                + group_count(v0, owner, d, c, m),
        forall|x: usize|
            #[trigger] group_has(v0, owner2, k2, x, m) == (group_has(v0, owner, a, x, m) || group_has(v0, owner, b, x, m)
                || group_has(v0, owner, d, x, m)),
    decreases m,
{
    if m > 0 {
        lemma_group_triple(v0, owner, owner2, a, b, d, k2, m - 1);
        assert(owner2[m - 1] == k2 <==> (owner[m - 1] == a || owner[m - 1] == b || owner[m - 1] == d));
        assert forall|c: usize|
            #[trigger] group_count(v0, owner2, k2, c, m) == group_count(v0, owner, a, c, m) + group_count(v0, owner, b, c, m)
                + group_count(v0, owner, d, c, m) by {
            assert(group_count(v0, owner2, k2, c, m - 1) == group_count(v0, owner, a, c, m - 1) + group_count(v0, owner, b, c, m - 1)
                + group_count(v0, owner, d, c, m - 1));
        }
        assert forall|x: usize|
            #[trigger] group_has(v0, owner2, k2, x, m) == (group_has(v0, owner, a, x, m) || group_has(v0, owner, b, x, m)
                || group_has(v0, owner, d, x, m)) by {
            assert(group_has(v0, owner2, k2, x, m - 1) == (group_has(v0, owner, a, x, m - 1) || group_has(v0, owner, b, x, m - 1)
                || group_has(v0, owner, d, x, m - 1)));
        }
    } else {
        assert forall|c: usize|
            #[trigger] group_count(v0, owner2, k2, c, m) == group_count(v0, owner, a, c, m) + group_count(v0, owner, b, c, m)
                + group_count(v0, owner, d, c, m) by {}
        assert forall|x: usize|
            #[trigger] group_has(v0, owner2, k2, x, m) == (group_has(v0, owner, a, x, m) || group_has(v0, owner, b, x, m)
                || group_has(v0, owner, d, x, m)) by {}
    }
}

/// Under the identity owner map, group `k` is starting row `k` alone.
proof fn lemma_group_identity(v0: Seq<(Seq<usize>, Seq<usize>)>, owner: Seq<int>, k: int, m: int)
    requires
        m <= owner.len(),
        forall|i: int| 0 <= i < owner.len() ==> #[trigger] owner[i] == i,
    ensures
        forall|c: usize| #[trigger] group_count(v0, owner, k, c, m) == if 0 <= k < m && v0[k].0.contains(c) {
            1nat
        } else {
            0nat
        },
        forall|x: usize| #[trigger] group_has(v0, owner, k, x, m) == (0 <= k < m && v0[k].1.contains(x)),
    decreases m,
{
    if m > 0 {
        lemma_group_identity(v0, owner, k, m - 1);
        assert(owner[m - 1] == m - 1);
        assert forall|c: usize| #[trigger] group_count(v0, owner, k, c, m) == if 0 <= k < m && v0[k].0.contains(c) {
            1nat
        } else {
            0nat
        } by {
            assert(group_count(v0, owner, k, c, m - 1) == if 0 <= k < m - 1 && v0[k].0.contains(c) {
                1nat
            } else {
                0nat
            });
        }
        assert forall|x: usize| #[trigger] group_has(v0, owner, k, x, m) == (0 <= k < m && v0[k].1.contains(x)) by {
            assert(group_has(v0, owner, k, x, m - 1) == (0 <= k < m - 1 && v0[k].1.contains(x)));
        }
    } else {
        assert forall|c: usize| #[trigger] group_count(v0, owner, k, c, m) == if 0 <= k < m && v0[k].0.contains(c) {
            1nat
        } else {
            0nat
        } by {}
        assert forall|x: usize| #[trigger] group_has(v0, owner, k, x, m) == (0 <= k < m && v0[k].1.contains(x)) by {}
    }
}

/// Every starting row, alone, is a partition.
proof fn lemma_partition_start(v0: Seq<(Seq<usize>, Seq<usize>)>) -> (owner: Seq<int>)
    requires
        forall|i: int| 0 <= i < v0.len() ==> #[trigger] row_sorted(v0[i]),
    ensures
        partitioned(v0, v0, owner),
{
    let owner = Seq::new(v0.len(), |i: int| i);
    assert forall|k: int| 0 <= k < v0.len() implies #[trigger] sums_group(v0, owner, k, v0[k]) by {
        lemma_group_identity(v0, owner, k, v0.len() as int);
        assert(row_sorted(v0[k]));
        assert forall|c: usize| #[trigger] v0[k].0.contains(c) <==> group_count(v0, owner, k, c, v0.len() as int) % 2 == 1 by {}
        assert forall|x: usize| #[trigger] v0[k].1.contains(x) <==> group_has(v0, owner, k, x, v0.len() as int) by {}
    }
    assert forall|k: int| 0 <= k < v0.len() implies #[trigger] has_member(owner, k) by {
        assert(owner[k] == k);
    }
    owner
}

/// The holders of a column are increasing indices of rows.
proof fn lemma_holders_indices(v: Seq<(Seq<usize>, Seq<usize>)>, c: usize)
    requires
        v.len() <= usize::MAX,
    ensures
        forall|j: int| 0 <= j < holders(v, c).len() ==> #[trigger] holders(v, c)[j] < v.len(),
        forall|j1: int, j2: int| 0 <= j1 < j2 < holders(v, c).len() ==> holders(v, c)[j1] < holders(v, c)[j2],
    decreases v.len(),
{
    if v.len() > 0 {
        let d = v.drop_last();
        lemma_holders_indices(d, c);
        let hd = holders(d, c);
        let h = holders(v, c);
        if v.last().0.contains(c) {
            assert(h == hd.push((v.len() - 1) as usize));
            assert forall|j: int| 0 <= j < h.len() implies #[trigger] h[j] < v.len() by {
                if j < hd.len() {
                    assert(h[j] == hd[j]);
                }
            }
            assert forall|j1: int, j2: int| 0 <= j1 < j2 < h.len() implies h[j1] < h[j2] by {
                assert(h[j1] == hd[j1]);
                if j2 < hd.len() {
                    assert(h[j2] == hd[j2]);
                }
            }
        } else {
            assert(h == hd);
        }
    }
}

/// Merging the holders of one column keeps a partition.
proof fn lemma_partition_merge(v0: Seq<(Seq<usize>, Seq<usize>)>, w: Seq<(Seq<usize>, Seq<usize>)>, owner: Seq<int>, c: usize)
    requires
        partitioned(v0, w, owner),
        w.len() <= usize::MAX,
    ensures
        exists|owner2: Seq<int>| partitioned(v0, merge_holders(w, c), owner2),
{
    let h = holders(w, c);
    lemma_holders_indices(w, c);
    let n = v0.len() as int;
    let len = w.len() as int;
    if h.len() == 2 {
        let (h0, h1) = (h[0] as int, h[1] as int);
        let (x, y) = (w[h0], w[h1]);
        let s = (merge_symdiff(x.0, y.0), merge_union(x.1, y.1));
        let w2 = merge_holders(w, c);
        assert(w2 == w.remove(h1).remove(h0).push(s));
        let last = len - 2;
        let remap = |k: int|
            if k == h0 || k == h1 {
                last
            } else if k < h0 {
                k
            } else if k < h1 {
                k - 1
            } else {
                k - 2
            };
        let back = |j: int|
            if j < h0 {
                j
            } else if j + 1 < h1 {
                j + 1
            } else {
                j + 2
            };
        let owner2 = Seq::new(owner.len(), |i: int| remap(owner[i]));
        assert(w2.len() == len - 1);
        assert forall|j: int| 0 <= j < last implies #[trigger] w2[j] == w[back(j)] && back(j) != h0 && back(j) != h1 && 0 <= back(j) < len
            && remap(back(j)) == j by {}
        assert(sums_group(v0, owner, h0, x));
        assert(sums_group(v0, owner, h1, y));
        lemma_merge_symdiff(x.0, y.0);
        lemma_merge_union(x.1, y.1);
        assert forall|k: int| 0 <= k < w2.len() implies #[trigger] sums_group(v0, owner2, k, w2[k]) by {
            if k < last {
                let ko = back(k);
                assert(sums_group(v0, owner, ko, w[ko]));
                assert forall|i: int| 0 <= i < n implies ((#[trigger] owner2[i] == k) == (owner[i] == ko)) by {
                    assert(0 <= owner[i] < len);
                }
                lemma_group_same(v0, owner, owner2, ko, k, n);
                assert forall|cc: usize| #[trigger] w2[k].0.contains(cc) <==> group_count(v0, owner2, k, cc, n) % 2 == 1 by {
                    assert(group_count(v0, owner2, k, cc, n) == group_count(v0, owner, ko, cc, n));
                }
                assert forall|xx: usize| #[trigger] w2[k].1.contains(xx) <==> group_has(v0, owner2, k, xx, n) by {
                    assert(group_has(v0, owner2, k, xx, n) == group_has(v0, owner, ko, xx, n));
                }
            } else {
                assert(w2[k] == s);
                assert forall|i: int| 0 <= i < n implies ((#[trigger] owner2[i] == k) == (owner[i] == h0 || owner[i] == h1)) by {
                    assert(0 <= owner[i] < len);
                }
                lemma_group_pair(v0, owner, owner2, h0, h1, k, n);
                assert forall|cc: usize| #[trigger] s.0.contains(cc) <==> group_count(v0, owner2, k, cc, n) % 2 == 1 by {
                    assert(x.0.contains(cc) <==> group_count(v0, owner, h0, cc, n) % 2 == 1);
                    assert(y.0.contains(cc) <==> group_count(v0, owner, h1, cc, n) % 2 == 1);
                }
                assert forall|xx: usize| #[trigger] s.1.contains(xx) <==> group_has(v0, owner2, k, xx, n) by {
                    assert(x.1.contains(xx) <==> group_has(v0, owner, h0, xx, n));
                    assert(y.1.contains(xx) <==> group_has(v0, owner, h1, xx, n));
                }
            }
        }
        assert forall|i: int| 0 <= i < owner2.len() implies 0 <= #[trigger] owner2[i] < w2.len() by {
            assert(0 <= owner[i] < len);
        }
        assert forall|k: int| 0 <= k < w2.len() implies #[trigger] has_member(owner2, k) by {
            let ko = if k < last { back(k) } else { h0 };
            assert(has_member(owner, ko));
            let i = choose|i: int| 0 <= i < owner.len() && #[trigger] owner[i] == ko;
            assert(owner2[i] == k);
        }
        assert(partitioned(v0, w2, owner2));
    } else if h.len() == 3 {
        let (h0, h1, h2) = (h[0] as int, h[1] as int, h[2] as int);
        let (x, y, z) = (w[h0], w[h1], w[h2]);
        let xy0 = merge_symdiff(x.0, y.0);
        let xy1 = merge_union(x.1, y.1);
        let s = (merge_symdiff(xy0, z.0), merge_union(xy1, z.1));
        let w2 = merge_holders(w, c);
        assert(w2 == w.remove(h2).remove(h1).remove(h0).push(s));
        let last = len - 3;
        let remap = |k: int|
            if k == h0 || k == h1 || k == h2 {
                last
            } else if k < h0 {
                k
            } else if k < h1 {
                k - 1
            } else if k < h2 {
                k - 2
            } else {
                k - 3
            };
        let back = |j: int|
            if j < h0 {
                j
            } else if j + 1 < h1 {
                j + 1
            } else if j + 2 < h2 {
                j + 2
            } else {
                j + 3
            };
        let owner2 = Seq::new(owner.len(), |i: int| remap(owner[i]));
        assert(w2.len() == len - 2);
        assert forall|j: int| 0 <= j < last implies #[trigger] w2[j] == w[back(j)] && back(j) != h0 && back(j) != h1 && back(j) != h2
            && 0 <= back(j) < len && remap(back(j)) == j by {}
        assert(sums_group(v0, owner, h0, x));
        assert(sums_group(v0, owner, h1, y));
        assert(sums_group(v0, owner, h2, z));
        lemma_merge_symdiff(x.0, y.0);
        lemma_merge_union(x.1, y.1);
        lemma_merge_symdiff(xy0, z.0);
        lemma_merge_union(xy1, z.1);
        assert forall|k: int| 0 <= k < w2.len() implies #[trigger] sums_group(v0, owner2, k, w2[k]) by {
            if k < last {
                let ko = back(k);
                assert(sums_group(v0, owner, ko, w[ko]));
                assert forall|i: int| 0 <= i < n implies ((#[trigger] owner2[i] == k) == (owner[i] == ko)) by {
                    assert(0 <= owner[i] < len);
                }
                lemma_group_same(v0, owner, owner2, ko, k, n);
                assert forall|cc: usize| #[trigger] w2[k].0.contains(cc) <==> group_count(v0, owner2, k, cc, n) % 2 == 1 by {
                    assert(group_count(v0, owner2, k, cc, n) == group_count(v0, owner, ko, cc, n));
                }
                assert forall|xx: usize| #[trigger] w2[k].1.contains(xx) <==> group_has(v0, owner2, k, xx, n) by {
                    assert(group_has(v0, owner2, k, xx, n) == group_has(v0, owner, ko, xx, n));
                }
            } else {
                assert(w2[k] == s);
                assert forall|i: int| 0 <= i < n implies ((#[trigger] owner2[i] == k) == (owner[i] == h0 || owner[i] == h1
                    || owner[i] == h2)) by {
                    assert(0 <= owner[i] < len);
                }
                lemma_group_triple(v0, owner, owner2, h0, h1, h2, k, n);
                assert forall|cc: usize| #[trigger] s.0.contains(cc) <==> group_count(v0, owner2, k, cc, n) % 2 == 1 by {
                    assert(x.0.contains(cc) <==> group_count(v0, owner, h0, cc, n) % 2 == 1);
                    assert(y.0.contains(cc) <==> group_count(v0, owner, h1, cc, n) % 2 == 1);
                    assert(z.0.contains(cc) <==> group_count(v0, owner, h2, cc, n) % 2 == 1);
                    assert(xy0.contains(cc) <==> (x.0.contains(cc) != y.0.contains(cc)));
                }
                assert forall|xx: usize| #[trigger] s.1.contains(xx) <==> group_has(v0, owner2, k, xx, n) by {
                    assert(x.1.contains(xx) <==> group_has(v0, owner, h0, xx, n));
                    assert(y.1.contains(xx) <==> group_has(v0, owner, h1, xx, n));
                    assert(z.1.contains(xx) <==> group_has(v0, owner, h2, xx, n));
                    assert(xy1.contains(xx) <==> (x.1.contains(xx) || y.1.contains(xx)));
                }
            }
        }
        assert forall|i: int| 0 <= i < owner2.len() implies 0 <= #[trigger] owner2[i] < w2.len() by {
            assert(0 <= owner[i] < len);
        }
        assert forall|k: int| 0 <= k < w2.len() implies #[trigger] has_member(owner2, k) by {
            let ko = if k < last { back(k) } else { h0 };
            assert(has_member(owner, ko));
            let i = choose|i: int| 0 <= i < owner.len() && #[trigger] owner[i] == ko;
            assert(owner2[i] == k);
        }
        assert(partitioned(v0, w2, owner2));
    } else {
        assert(merge_holders(w, c) == w);
        assert(partitioned(v0, merge_holders(w, c), owner));
    }
}

/// Merging the holders of a column never adds rows.
proof fn lemma_merge_holders_len(w: Seq<(Seq<usize>, Seq<usize>)>, c: usize)
    requires
        w.len() <= usize::MAX,
    ensures
        merge_holders(w, c).len() <= w.len(),
{
    lemma_holders_indices(w, c);
}

/// A sweep of merges keeps a partition and never adds rows.
proof fn lemma_partition_sweep(
    v0: Seq<(Seq<usize>, Seq<usize>)>,
    w: Seq<(Seq<usize>, Seq<usize>)>,
    owner: Seq<int>,
    cands: Seq<usize>,
    target: nat,
)
    requires
        partitioned(v0, w, owner),
        w.len() <= usize::MAX,
    ensures
        merge_sweep(w, cands, target).len() <= w.len(),
        exists|owner2: Seq<int>| partitioned(v0, merge_sweep(w, cands, target), owner2),
    decreases cands.len(),
{
    if cands.len() > 0 {
        lemma_partition_sweep(v0, w, owner, cands.drop_last(), target);
        let prev = merge_sweep(w, cands.drop_last(), target);
        let op = choose|o: Seq<int>| partitioned(v0, prev, o);
        if holders(prev, cands.last()).len() == target {
            lemma_partition_merge(v0, prev, op, cands.last());
            lemma_merge_holders_len(prev, cands.last());
            let o2 = choose|o: Seq<int>| partitioned(v0, merge_holders(prev, cands.last()), o);
            assert(merge_sweep(w, cands, target) == merge_holders(prev, cands.last()));
            assert(partitioned(v0, merge_sweep(w, cands, target), o2));
        } else {
            assert(merge_sweep(w, cands, target) == prev);
            assert(partitioned(v0, merge_sweep(w, cands, target), op));
        }
    } else {
        assert(merge_sweep(w, cands, target) == w);
        assert(partitioned(v0, merge_sweep(w, cands, target), owner));
    }
}

/// Column merging partitions the rows (the merge-pass law): after a weight-2 pass and then a
/// weight-3 pass, every row is the GF(2) sum of a nonempty group of the starting rows (its
/// columns those held by an odd number of the group, its provenance the union of theirs),
/// and every starting row lies in exactly one group, the row `owner[i]`.
pub proof fn lemma_merge_columns_partition(v: Seq<(Seq<usize>, Seq<usize>)>, ocs: nat)
    requires
        v.len() <= usize::MAX,
        forall|i: int| 0 <= i < v.len() ==> #[trigger] row_sorted(v[i]),
    ensures
        exists|owner: Seq<int>| partitioned(v, merge_pass_spec(merge_pass_spec(v, ocs, 2), ocs, 3), owner),
{
    let o0 = lemma_partition_start(v);
    lemma_partition_sweep(v, v, o0, crate::filter::merge::weight_columns(v, ocs, 2), 2);
    let w1 = merge_pass_spec(v, ocs, 2);
    let o1 = choose|o: Seq<int>| partitioned(v, w1, o);
    lemma_partition_sweep(v, w1, o1, crate::filter::merge::weight_columns(w1, ocs, 3), 3);
    let w2 = merge_pass_spec(w1, ocs, 3);
    let o2 = choose|o: Seq<int>| partitioned(v, w2, o);
    assert(partitioned(v, w2, o2));
}

/// The merge-pass law for a well-formed matrix: the rows that `merge_columns` returns (whose
/// view is the two passes over the matrix's rows) partition the matrix's rows into groups,
/// each returned row the GF(2) sum of its group.
pub proof fn lemma_merge_columns_partition_matrix(m: SparseMatrix)
    requires
        m.wf(),
    ensures
        exists|owner: Seq<int>|
            partitioned(
                rows_view(m.rows@),
                merge_pass_spec(merge_pass_spec(rows_view(m.rows@), m.obstruction_col_start as nat, 2), m.obstruction_col_start as nat, 3),
                owner,
            ),
{
    let v = rows_view(m.rows@);
    assert(m.rows@.len() == m.rows.len());
    assert(v.len() == m.rows@.len());
    assert forall|i: int| 0 <= i < v.len() implies #[trigger] row_sorted(v[i]) by {
        assert(row_wf(m.rows@[i], m.num_cols as nat));
    }
    lemma_merge_columns_partition(v, m.obstruction_col_start as nat);
}

} // verus!
