//! Sorted index sequences: strict order, occurrence counts, symmetric difference and union
//! of two sorted sequences by merging.

use vstd::prelude::*;

verus! {

/// `s` is strictly increasing (sorted and free of duplicates).
pub open spec fn strictly_sorted(s: Seq<usize>) -> bool {
    forall|i: int, j: int| 0 <= i < j < s.len() ==> s[i] < s[j]
}

/// Number of occurrences of `c` in `s`.
pub open spec fn count_in(s: Seq<usize>, c: usize) -> nat
    decreases s.len(),
{
    if s.len() == 0 {
        0
    } else {
        count_in(s.drop_last(), c) + if s.last() == c {
            1nat
        } else {
            0nat
        }
    }
}

/// Merge of two sequences keeping the elements found in exactly one of them: for sorted
/// inputs, the sorted symmetric difference.
pub open spec fn merge_symdiff(a: Seq<usize>, b: Seq<usize>) -> Seq<usize>
    decreases a.len() + b.len(),
{
    if a.len() == 0 {
        b
    } else if b.len() == 0 {
        a
    } else if a[0] < b[0] {
        seq![a[0]] + merge_symdiff(a.drop_first(), b)
    } else if a[0] > b[0] {
        seq![b[0]] + merge_symdiff(a, b.drop_first())
    } else {
        merge_symdiff(a.drop_first(), b.drop_first())
    }
}

/// Merge of two sequences keeping one copy of each shared element: for sorted inputs, the
/// sorted union.
pub open spec fn merge_union(a: Seq<usize>, b: Seq<usize>) -> Seq<usize>
    decreases a.len() + b.len(),
{
    if a.len() == 0 {
        b
    } else if b.len() == 0 {
        a
    } else if a[0] < b[0] {
        seq![a[0]] + merge_union(a.drop_first(), b)
    } else if a[0] > b[0] {
        seq![b[0]] + merge_union(a, b.drop_first())
    } else {
        seq![a[0]] + merge_union(a.drop_first(), b.drop_first())
    }
}

/// Every element of a strictly sorted sequence lies above all earlier ones; a suffix of a
/// strictly sorted sequence is strictly sorted.
pub proof fn lemma_sorted_drop_first(s: Seq<usize>)
    requires
        strictly_sorted(s),
        s.len() > 0,
    ensures
        strictly_sorted(s.drop_first()),
        forall|k: int| 0 <= k < s.drop_first().len() ==> s[0] < #[trigger] s.drop_first()[k],
{
}

/// Membership in a nonempty sequence splits into the head and the rest.
pub proof fn lemma_contains_split(s: Seq<usize>, x: usize)
    requires
        s.len() > 0,
    ensures
        s.contains(x) <==> (x == s[0] || s.drop_first().contains(x)),
{
    if s.contains(x) && x != s[0] {
        let k = choose|k: int| 0 <= k < s.len() && s[k] == x;
        assert(s.drop_first()[k - 1] == x);
    }
    if s.drop_first().contains(x) {
        let k = choose|k: int| 0 <= k < s.drop_first().len() && s.drop_first()[k] == x;
        assert(s[k + 1] == x);
    }
    if x == s[0] {
        assert(s[0] == x);
    }
}

/// Every element of a strictly sorted sequence is at least its head.
pub proof fn lemma_sorted_head_min(s: Seq<usize>, x: usize)
    requires
        strictly_sorted(s),
        s.contains(x),
    ensures
        s[0] <= x,
{
    let k = choose|k: int| 0 <= k < s.len() && s[k] == x;
    if k > 0 {
        assert(s[0] < s[k]);
    }
}

/// The symmetric-difference merge of strictly sorted sequences is strictly sorted and holds
/// exactly the elements found in one input only.
pub proof fn lemma_merge_symdiff(a: Seq<usize>, b: Seq<usize>)
    requires
        strictly_sorted(a),
        strictly_sorted(b),
    ensures
        strictly_sorted(merge_symdiff(a, b)),
        forall|x: usize| #[trigger]
            merge_symdiff(a, b).contains(x) <==> (a.contains(x) != b.contains(x)),
    decreases a.len() + b.len(),
{
    let m = merge_symdiff(a, b);
    if a.len() == 0 || b.len() == 0 {
    } else if a[0] < b[0] {
        lemma_sorted_drop_first(a);
        lemma_merge_symdiff(a.drop_first(), b);
        let t = merge_symdiff(a.drop_first(), b);
        assert(m.drop_first() =~= t);
        assert forall|x: usize| #[trigger] m.contains(x) <==> (a.contains(x) != b.contains(x)) by {
            lemma_contains_split(m, x);
            lemma_contains_split(a, x);
            if b.contains(x) {
                lemma_sorted_head_min(b, x);
            }
            if a.drop_first().contains(x) {
                lemma_sorted_head_min(a, x);
                let k = choose|k: int| 0 <= k < a.drop_first().len() && a.drop_first()[k] == x;
            }
        }
        assert forall|i: int, j: int| 0 <= i < j < m.len() implies m[i] < m[j] by {
            if i == 0 {
                assert(t[j - 1] == m[j]);
                assert(t.contains(m[j]));
                if b.contains(m[j]) {
                    lemma_sorted_head_min(b, m[j]);
                } else {
                    let k = choose|k: int| 0 <= k < a.drop_first().len() && a.drop_first()[k] == m[j];
                }
            } else {
                assert(t[i - 1] == m[i] && t[j - 1] == m[j]);
            }
        }
    } else if a[0] > b[0] {
        lemma_sorted_drop_first(b);
        lemma_merge_symdiff(a, b.drop_first());
        let t = merge_symdiff(a, b.drop_first());
        assert(m.drop_first() =~= t);
        assert forall|x: usize| #[trigger] m.contains(x) <==> (a.contains(x) != b.contains(x)) by {
            lemma_contains_split(m, x);
            lemma_contains_split(b, x);
            if a.contains(x) {
                lemma_sorted_head_min(a, x);
            }
            if b.drop_first().contains(x) {
                lemma_sorted_head_min(b, x);
                let k = choose|k: int| 0 <= k < b.drop_first().len() && b.drop_first()[k] == x;
            }
        }
        assert forall|i: int, j: int| 0 <= i < j < m.len() implies m[i] < m[j] by {
            if i == 0 {
                assert(t[j - 1] == m[j]);
                assert(t.contains(m[j]));
                if a.contains(m[j]) {
                    lemma_sorted_head_min(a, m[j]);
                } else {
                    let k = choose|k: int| 0 <= k < b.drop_first().len() && b.drop_first()[k] == m[j];
                }
            } else {
                assert(t[i - 1] == m[i] && t[j - 1] == m[j]);
            }
        }
    } else {
        lemma_sorted_drop_first(a);
        lemma_sorted_drop_first(b);
        lemma_merge_symdiff(a.drop_first(), b.drop_first());
        assert forall|x: usize| #[trigger] m.contains(x) <==> (a.contains(x) != b.contains(x)) by {
            lemma_contains_split(a, x);
            lemma_contains_split(b, x);
            if a.drop_first().contains(x) {
                let k = choose|k: int| 0 <= k < a.drop_first().len() && a.drop_first()[k] == x;
            }
            if b.drop_first().contains(x) {
                let k = choose|k: int| 0 <= k < b.drop_first().len() && b.drop_first()[k] == x;
            }
        }
    }
}

/// The union merge of strictly sorted sequences is strictly sorted and holds exactly the
/// elements found in either input.
pub proof fn lemma_merge_union(a: Seq<usize>, b: Seq<usize>)
    requires
        strictly_sorted(a),
        strictly_sorted(b),
    ensures
        strictly_sorted(merge_union(a, b)),
        forall|x: usize| #[trigger]
            merge_union(a, b).contains(x) <==> (a.contains(x) || b.contains(x)),
    decreases a.len() + b.len(),
{
    let m = merge_union(a, b);
    if a.len() == 0 || b.len() == 0 {
    } else {
        let t = if a[0] < b[0] {
            lemma_sorted_drop_first(a);
            lemma_merge_union(a.drop_first(), b);
            merge_union(a.drop_first(), b)
        } else if a[0] > b[0] {
            lemma_sorted_drop_first(b);
            lemma_merge_union(a, b.drop_first());
            merge_union(a, b.drop_first())
        } else {
            lemma_sorted_drop_first(a);
            lemma_sorted_drop_first(b);
            lemma_merge_union(a.drop_first(), b.drop_first());
            merge_union(a.drop_first(), b.drop_first())
        };
        assert(m.drop_first() =~= t);
        assert forall|x: usize| #[trigger] m.contains(x) <==> (a.contains(x) || b.contains(x)) by {
            lemma_contains_split(m, x);
            lemma_contains_split(a, x);
            lemma_contains_split(b, x);
        }
        assert forall|i: int, j: int| 0 <= i < j < m.len() implies m[i] < m[j] by {
            if i == 0 {
                assert(t[j - 1] == m[j]);
                assert(t.contains(m[j]));
                lemma_contains_split(a, m[j]);
                lemma_contains_split(b, m[j]);
                if a.drop_first().contains(m[j]) {
                    let k = choose|k: int| 0 <= k < a.drop_first().len() && a.drop_first()[k] == m[j];
                }
                if b.drop_first().contains(m[j]) {
                    let k = choose|k: int| 0 <= k < b.drop_first().len() && b.drop_first()[k] == m[j];
                }
                if a.contains(m[j]) {
                    lemma_sorted_head_min(a, m[j]);
                }
                if b.contains(m[j]) {
                    lemma_sorted_head_min(b, m[j]);
                }
            } else {
                assert(t[i - 1] == m[i] && t[j - 1] == m[j]);
            }
        }
    }
}

/// A strictly sorted sequence holds each value at most once.
pub proof fn lemma_count_sorted(s: Seq<usize>, c: usize)
    requires
        strictly_sorted(s),
    ensures
        count_in(s, c) == if s.contains(c) {
            1nat
        } else {
            0nat
        },
    decreases s.len(),
{
    if s.len() > 0 {
        let t = s.drop_last();
        assert(strictly_sorted(t));
        lemma_count_sorted(t, c);
        if s.last() == c {
            if t.contains(c) {
                let k = choose|k: int| 0 <= k < t.len() && t[k] == c;
                assert(s[k] < s[s.len() - 1]);
            }
        }
        if s.contains(c) && s.last() != c {
            let k = choose|k: int| 0 <= k < s.len() && s[k] == c;
            assert(t[k] == c);
        }
        if t.contains(c) {
            let k = choose|k: int| 0 <= k < t.len() && t[k] == c;
            assert(s[k] == c);
        }
    }
}

/// Counting over a prefix one element longer.
pub proof fn lemma_count_take_step(s: Seq<usize>, k: int, c: usize)
    requires
        0 <= k < s.len(),
    ensures
        count_in(s.take(k + 1), c) == count_in(s.take(k), c) + if s[k] == c {
            1nat
        } else {
            0nat
        },
{
    assert(s.take(k + 1).drop_last() =~= s.take(k));
}

/// Counting over a prefix gives at most the count over the whole sequence.
pub proof fn lemma_count_take_le(s: Seq<usize>, k: int, c: usize)
    requires
        0 <= k <= s.len(),
    ensures
        count_in(s.take(k), c) <= count_in(s, c),
    decreases s.len() - k,
{
    if k < s.len() {
        lemma_count_take_step(s, k, c);
        lemma_count_take_le(s, k + 1, c);
    } else {
        assert(s.take(k) =~= s);
    }
}

/// A positive count means the value occurs.
pub proof fn lemma_count_pos_contains(s: Seq<usize>, c: usize)
    requires
        count_in(s, c) > 0,
    ensures
        s.contains(c),
    decreases s.len(),
{
    if s.last() == c {
        assert(s[s.len() - 1] == c);
    } else {
        lemma_count_pos_contains(s.drop_last(), c);
        let k = choose|k: int| 0 <= k < s.drop_last().len() && s.drop_last()[k] == c;
        assert(s[k] == c);
    }
}

/// Membership test in a strictly sorted vector by binary search.
pub fn sorted_contains(v: &Vec<usize>, x: usize) -> (b: bool)
    requires
        strictly_sorted(v@),
    ensures
        b == v@.contains(x),
{
    let mut lo: usize = 0;
    let mut hi: usize = v.len();
    while lo < hi
        invariant
            lo <= hi <= v@.len(),
            strictly_sorted(v@),
            forall|k: int| 0 <= k < lo ==> v@[k] < x,
            forall|k: int| hi <= k < v@.len() ==> v@[k] > x,
        decreases hi - lo,
    {
        let mid = lo + (hi - lo) / 2;
        if v[mid] == x {
            assert(v@[mid as int] == x);
            return true;
        } else if v[mid] < x {
            lo = mid + 1;
        } else {
            hi = mid;
        }
    }
    false
}

} // verus!
