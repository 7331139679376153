//! Choosing the relation that rewrites a descent target, looking up the virtual logs of
//! factor-base leaves, and building the child nodes of a rewriting.

use vstd::prelude::*;
use crate::dl::descent::node::{holds_largest, prime_of, DescentFrontier, DescentNode, DescentTarget};
use crate::dl::descent::solve::DescentStepError;
use crate::dl::DLRelation;
use crate::dl::linalg::VirtualLogTable;
use crate::sieve::factor_base::{ascending, ideals_ascending, AlgebraicPrime, FactorBase};
use crate::sieve::Relation;

verus! {

/// Every rational prime of `rel` (read through `fb`) is below `q`.
pub open spec fn rational_side_below(rel: Relation, q: u64, fb: FactorBase) -> bool {
    forall|k: int|
        0 <= k < rel.rational_exponents.entries@.len() ==> {
            let idx = #[trigger] rel.rational_exponents.entries@[k].0;
            idx < fb.rational_primes@.len() && fb.rational_primes@[idx as int] < q
        }
}

/// Every algebraic prime of `rel` (read through `fb`) is at most `q`: `q` itself is the
/// special prime of the sieve that found `rel`.
pub open spec fn algebraic_side_at_most(rel: Relation, q: u64, fb: FactorBase) -> bool {
    forall|k: int|
        0 <= k < rel.algebraic_exponents.entries@.len() ==> {
            let idx = #[trigger] rel.algebraic_exponents.entries@[k].0;
            idx < fb.algebraic_ideals@.len() && fb.algebraic_ideals@[idx as int].p <= q
        }
}

/// `rel` rewrites `q` with smaller primes: rational primes below `q`, algebraic primes at
/// most `q`, every index inside `fb`.
pub open spec fn strictly_reduces(rel: Relation, q: u64, fb: FactorBase) -> bool {
    rational_side_below(rel, q, fb) && algebraic_side_at_most(rel, q, fb)
}

/// Whether `rel` rewrites `q` with smaller primes (see `strictly_reduces`).
pub fn relation_strictly_reduces(rel: &Relation, q: u64, temp_fb: &FactorBase) -> (b: bool)
    ensures
        b == strictly_reduces(*rel, q, *temp_fb),
{
    let rat = &rel.rational_exponents.entries;
    let mut k: usize = 0;
    while k < rat.len()
        invariant
            *rat == rel.rational_exponents.entries,
            k <= rat@.len(),
            forall|j: int|
                0 <= j < k ==> {
                    let idx = #[trigger] rat@[j].0;
                    idx < temp_fb.rational_primes@.len() && temp_fb.rational_primes@[idx as int] < q
                },
        decreases rat@.len() - k,
    {
        let idx = rat[k].0;
        if idx >= temp_fb.rational_primes.len() {
            return false;
        }
        if temp_fb.rational_primes[idx] >= q {
            return false;
        }
        k = k + 1;
    }
    let alg = &rel.algebraic_exponents.entries;
    let mut k: usize = 0;
    while k < alg.len()
        invariant
            *alg == rel.algebraic_exponents.entries,
            rational_side_below(*rel, q, *temp_fb),
            k <= alg@.len(),
            forall|j: int|
                0 <= j < k ==> {
                    let idx = #[trigger] alg@[j].0;
                    idx < temp_fb.algebraic_ideals@.len() && temp_fb.algebraic_ideals@[idx as int].p <= q
                },
        decreases alg@.len() - k,
    {
        let idx = alg[k].0;
        if idx >= temp_fb.algebraic_ideals.len() {
            return false;
        }
        if temp_fb.algebraic_ideals[idx].p > q {
            return false;
        }
        k = k + 1;
    }
    true
}

/// The first `(r_q, relation)` of `all_relations` whose relation rewrites `q` with smaller
/// primes.
pub fn find_strictly_reducing_relation<'a>(all_relations: &[(u64, &'a Relation)], q: u64, temp_fb: &FactorBase) -> (r: Option<(u64, &'a Relation)>)
    ensures
        r is None <==> forall|i: int| 0 <= i < all_relations@.len() ==> !strictly_reduces(*(#[trigger] all_relations@[i]).1, q, *temp_fb),
        r matches Some(x) ==> exists|i: int|
            0 <= i < all_relations@.len() && #[trigger] all_relations@[i] == x && strictly_reduces(*x.1, q, *temp_fb)
                && forall|j: int| 0 <= j < i ==> !strictly_reduces(*(#[trigger] all_relations@[j]).1, q, *temp_fb),
{
    let mut i: usize = 0;
    while i < all_relations.len()
        invariant
            i <= all_relations@.len(),
            forall|j: int| 0 <= j < i ==> !strictly_reduces(*(#[trigger] all_relations@[j]).1, q, *temp_fb),
        decreases all_relations@.len() - i,
    {
        let (r_q, rel) = all_relations[i];
        if relation_strictly_reduces(rel, q, temp_fb) {
            assert(all_relations@[i as int] == (r_q, rel));
            return Some((r_q, rel));
        }
        i = i + 1;
    }
    None
}

/// The virtual log `log` agrees with the factor base and table for `target`: a value is a
/// clone of the table entry at a position of the factor base holding the target, and for an
/// ascending factor base, `None` exactly when the target is not in it.
pub open spec fn leaf_log_matches<F: Clone>(target: DescentTarget, fb: FactorBase, vtable: VirtualLogTable<F>, log: Option<F>) -> bool {
    match target {
        DescentTarget::Rational(p) => {
            &&& log matches Some(v) ==> exists|i: int|
                0 <= i < fb.rational_primes@.len() && #[trigger] fb.rational_primes@[i] == p
                    && cloned::<F>(vtable.rational_logs@[i], v)
            &&& ascending(fb.rational_primes@) ==> (log is None <==> !fb.rational_primes@.contains(p))
        },
        DescentTarget::Algebraic { p, r } => {
            &&& log matches Some(v) ==> exists|i: int|
                0 <= i < fb.algebraic_ideals@.len() && #[trigger] fb.algebraic_ideals@[i].p == p
                    && fb.algebraic_ideals@[i].r == r
                    && cloned::<F>(vtable.algebraic_logs@[fb.algebraic_ideals@[i].index as int], v)
            &&& ideals_ascending(fb.algebraic_ideals@) ==> (log is None <==> forall|i: int|
                0 <= i < fb.algebraic_ideals@.len() ==> !(#[trigger] fb.algebraic_ideals@[i].p == p
                    && fb.algebraic_ideals@[i].r == r))
        },
    }
}

/// The table covers the factor base: one rational log per rational prime, and every
/// algebraic ideal's index inside the algebraic logs.
pub open spec fn table_covers<F>(fb: FactorBase, vtable: VirtualLogTable<F>) -> bool {
    &&& fb.rational_primes@.len() <= vtable.rational_logs@.len()
    &&& forall|i: int| 0 <= i < fb.algebraic_ideals@.len() ==> (#[trigger] fb.algebraic_ideals@[i]).index < vtable.algebraic_logs@.len()
}

/// The virtual log of a factor-base target: the table entry of its factor-base position, or
/// `None` when the target is not in the factor base.
pub fn lookup_leaf_log<F: Clone>(target: &DescentTarget, fb: &FactorBase, vtable: &VirtualLogTable<F>) -> (r: Option<F>)
    requires
        table_covers(*fb, *vtable),
    ensures
        leaf_log_matches(*target, *fb, *vtable, r),
{
    match target {
        DescentTarget::Rational(p) => {
            match fb.rational_index(*p) {
                Some(idx) => Some(vtable.rational_logs[idx].clone()),
                None => None,
            }
        },
        DescentTarget::Algebraic { p, r } => {
            match fb.algebraic_index(*p, *r) {
                Some(idx) => {
                    proof {
                        let i = choose|i: int|
                            0 <= i < fb.algebraic_ideals@.len() && #[trigger] fb.algebraic_ideals@[i].p == *p
                                && fb.algebraic_ideals@[i].r == *r && fb.algebraic_ideals@[i].index == idx;
                        assert(fb.algebraic_ideals@[i].index < vtable.algebraic_logs@.len());
                    }
                    Some(vtable.algebraic_logs[idx].clone())
                },
                None => None,
            }
        },
    }
}

/// The rational children of a rewriting, in order: `exp` copies of each rational prime of the
/// entries whose index lies inside `primes`.
pub open spec fn rational_children(entries: Seq<(usize, u32)>, primes: Seq<u64>) -> Seq<DescentTarget>
    decreases entries.len(),
{
    if entries.len() == 0 {
        Seq::empty()
    } else {
        let prev = rational_children(entries.drop_last(), primes);
        let idx = entries.last().0;
        let exp = entries.last().1;
        if idx < primes.len() {
            prev + Seq::new(exp as nat, |k: int| DescentTarget::Rational(primes[idx as int]))
        } else {
            prev
        }
    }
}

/// The algebraic children of a rewriting of `q`, in order: `exp` copies of each algebraic
/// ideal of the entries whose index lies inside `ideals` and whose prime is not `q`.
pub open spec fn algebraic_children(entries: Seq<(usize, u32)>, ideals: Seq<AlgebraicPrime>, q: u64) -> Seq<DescentTarget>
    decreases entries.len(),
{
    if entries.len() == 0 {
        Seq::empty()
    } else {
        let prev = algebraic_children(entries.drop_last(), ideals, q);
        let idx = entries.last().0;
        let exp = entries.last().1;
        if idx < ideals.len() && ideals[idx as int].p != q {
            prev + Seq::new(exp as nat, |k: int| DescentTarget::Algebraic { p: ideals[idx as int].p, r: ideals[idx as int].r })
        } else {
            prev
        }
    }
}

/// `nodes` are fresh leaves or pending nodes for `targets`: no relation, no children, and the
/// virtual log the factor base and table give.
pub open spec fn fresh_nodes_for<F: Clone>(nodes: Seq<DescentNode<F>>, targets: Seq<DescentTarget>, fb: FactorBase, vtable: VirtualLogTable<F>) -> bool {
    &&& nodes.len() == targets.len()
    &&& forall|i: int| 0 <= i < nodes.len() ==> {
        &&& (#[trigger] nodes[i]).target == targets[i]
        &&& nodes[i].rewriting_relation is None
        &&& nodes[i].children@.len() == 0
        &&& leaf_log_matches(nodes[i].target, fb, vtable, nodes[i].known_log)
    }
}

/// Push `exp` fresh nodes for `child` onto `children`.
fn push_copies<F: Clone>(children: &mut Vec<DescentNode<F>>, child: DescentTarget, exp: u32, fb: &FactorBase, vtable: &VirtualLogTable<F>, Ghost(before): Ghost<Seq<DescentTarget>>)
    requires
        table_covers(*fb, *vtable),
        fresh_nodes_for(old(children)@, before, *fb, *vtable),
    ensures
        fresh_nodes_for(final(children)@, before + Seq::new(exp as nat, |k: int| child), *fb, *vtable),
{
    let mut j: u32 = 0;
    while j < exp
        invariant
            j <= exp,
            table_covers(*fb, *vtable),
            fresh_nodes_for(children@, before + Seq::new(j as nat, |k: int| child), *fb, *vtable),
        decreases exp - j,
    {
        let known_log = lookup_leaf_log(&child, fb, vtable);
        let ghost prev = children@;
        children.push(DescentNode { target: child, rewriting_relation: None, children: Vec::new(), known_log });
        proof {
            let t_old = before + Seq::new(j as nat, |k: int| child);
            let t_new = before + Seq::new((j + 1) as nat, |k: int| child);
            assert(t_new =~= t_old.push(child));
            assert forall|i: int| 0 <= i < children@.len() implies {
                &&& (#[trigger] children@[i]).target == t_new[i]
                &&& children@[i].rewriting_relation is None
                &&& children@[i].children@.len() == 0
                &&& leaf_log_matches(children@[i].target, *fb, *vtable, children@[i].known_log)
            } by {
                if i < prev.len() {
                    assert(children@[i] == prev[i]);
                }
            }
        }
        j = j + 1;
    }
}

/// The child nodes of the rewriting of `target` by `rel`: for each prime of `rel` (read
/// through `temp_fb`, entries outside it skipped) one node per unit of exponent, rational
/// side first, the special prime `q` itself left out on the algebraic side. Each node is a
/// leaf when its target is in `fb`, with the virtual log of `vtable`.
pub fn build_children<F: Clone>(rel: &Relation, target: &DescentTarget, temp_fb: &FactorBase, fb: &FactorBase, vtable: &VirtualLogTable<F>) -> (r: Vec<DescentNode<F>>)
    requires
        table_covers(*fb, *vtable),
    ensures
        fresh_nodes_for(
            r@,
            rational_children(rel.rational_exponents.entries@, temp_fb.rational_primes@)
                + algebraic_children(rel.algebraic_exponents.entries@, temp_fb.algebraic_ideals@, prime_of(*target)),
            *fb,
            *vtable,
        ),
{
    let q = target.prime();
    let mut children: Vec<DescentNode<F>> = Vec::new();
    let rat = &rel.rational_exponents.entries;
    let mut k: usize = 0;
    while k < rat.len()
        invariant
            *rat == rel.rational_exponents.entries,
            k <= rat@.len(),
            table_covers(*fb, *vtable),
            fresh_nodes_for(children@, rational_children(rat@.take(k as int), temp_fb.rational_primes@), *fb, *vtable),
        decreases rat@.len() - k,
    {
        let (idx, exp) = rat[k];
        proof {
            assert(rat@.take(k + 1).drop_last() =~= rat@.take(k as int));
        }
        if idx < temp_fb.rational_primes.len() {
            let p = temp_fb.rational_primes[idx];
            push_copies(&mut children, DescentTarget::Rational(p), exp, fb, vtable, Ghost(rational_children(rat@.take(k as int), temp_fb.rational_primes@)));
        }
        k = k + 1;
    }
    proof {
        assert(rat@.take(rat@.len() as int) =~= rat@);
    }
    let ghost rat_targets = rational_children(rat@, temp_fb.rational_primes@);
    let alg = &rel.algebraic_exponents.entries;
    let mut k: usize = 0;
    proof {
        assert(rat_targets + algebraic_children(alg@.take(0), temp_fb.algebraic_ideals@, q) =~= rat_targets);
    }
    while k < alg.len()
        invariant
            *alg == rel.algebraic_exponents.entries,
            k <= alg@.len(),
            q == prime_of(*target),
            table_covers(*fb, *vtable),
            fresh_nodes_for(children@, rat_targets + algebraic_children(alg@.take(k as int), temp_fb.algebraic_ideals@, q), *fb, *vtable),
        decreases alg@.len() - k,
    {
        let (idx, exp) = alg[k];
        let ghost prev = algebraic_children(alg@.take(k as int), temp_fb.algebraic_ideals@, q);
        proof {
            assert(alg@.take(k + 1).drop_last() =~= alg@.take(k as int));
        }
        if idx < temp_fb.algebraic_ideals.len() {
            let ap = &temp_fb.algebraic_ideals[idx];
            if ap.p != q {
                let child = DescentTarget::Algebraic { p: ap.p, r: ap.r };
                push_copies(&mut children, child, exp, fb, vtable, Ghost(rat_targets + prev));
                proof {
                    assert(rat_targets + prev + Seq::new(exp as nat, |j: int| child) =~= rat_targets + algebraic_children(alg@.take(k + 1), temp_fb.algebraic_ideals@, q));
                }
            }
        }
        k = k + 1;
    }
    proof {
        assert(alg@.take(alg@.len() as int) =~= alg@);
    }
    children
}


/// The children of the rewriting of `target` by `rel` through `temp_fb` (see `build_children`).
pub open spec fn children_of(rel: Relation, target: DescentTarget, temp_fb: FactorBase) -> Seq<DescentTarget> {
    rational_children(rel.rational_exponents.entries@, temp_fb.rational_primes@)
        + algebraic_children(rel.algebraic_exponents.entries@, temp_fb.algebraic_ideals@, prime_of(target))
}

/// Rational children of entries whose primes are all below `q` are below `q`.
proof fn lemma_rational_children_below(entries: Seq<(usize, u32)>, primes: Seq<u64>, q: u64)
    requires
        forall|k: int|
            0 <= k < entries.len() ==> (#[trigger] entries[k]).0 < primes.len() && primes[entries[k].0 as int] < q,
    ensures
        forall|j: int|
            0 <= j < rational_children(entries, primes).len() ==> prime_of(#[trigger] rational_children(entries, primes)[j]) < q,
    decreases entries.len(),
{
    if entries.len() > 0 {
        let prev = entries.drop_last();
        assert forall|k: int| 0 <= k < prev.len() implies (#[trigger] prev[k]).0 < primes.len() && primes[prev[k].0 as int] < q by {
            assert(prev[k] == entries[k]);
        }
        lemma_rational_children_below(prev, primes, q);
        assert(entries[entries.len() - 1] == entries.last());
        let rc = rational_children(entries, primes);
        let rp = rational_children(prev, primes);
        assert forall|j: int| 0 <= j < rc.len() implies prime_of(#[trigger] rc[j]) < q by {
            if j >= rp.len() {
                assert(rc[j] == DescentTarget::Rational(primes[entries.last().0 as int]));
            } else {
                assert(rc[j] == rp[j]);
            }
        }
    }
}

/// Algebraic children of ideals of primes at most `q`, `q` itself left out, are below `q`.
proof fn lemma_algebraic_children_below(entries: Seq<(usize, u32)>, ideals: Seq<AlgebraicPrime>, q: u64)
    requires
        forall|k: int|
            0 <= k < entries.len() ==> (#[trigger] entries[k]).0 < ideals.len() && ideals[entries[k].0 as int].p <= q,
    ensures
        forall|j: int|
            0 <= j < algebraic_children(entries, ideals, q).len() ==> prime_of(
                #[trigger] algebraic_children(entries, ideals, q)[j],
            ) < q,
    decreases entries.len(),
{
    if entries.len() > 0 {
        let prev = entries.drop_last();
        assert forall|k: int| 0 <= k < prev.len() implies (#[trigger] prev[k]).0 < ideals.len() && ideals[prev[k].0 as int].p <= q by {
            assert(prev[k] == entries[k]);
        }
        lemma_algebraic_children_below(prev, ideals, q);
        assert(entries[entries.len() - 1] == entries.last());
        let ac = algebraic_children(entries, ideals, q);
        let ap = algebraic_children(prev, ideals, q);
        assert forall|j: int| 0 <= j < ac.len() implies prime_of(#[trigger] ac[j]) < q by {
            if j >= ap.len() {
                let id = ideals[entries.last().0 as int];
                assert(ac[j] == DescentTarget::Algebraic { p: id.p, r: id.r });
            } else {
                assert(ac[j] == ap[j]);
            }
        }
    }
}

/// The termination invariant of the descent: rewriting a target by a relation that strictly
/// reduces it gives children whose primes are all smaller than the target's.
pub proof fn lemma_children_below(rel: Relation, target: DescentTarget, temp_fb: FactorBase)
    requires
        strictly_reduces(rel, prime_of(target), temp_fb),
    ensures
        forall|j: int|
            0 <= j < children_of(rel, target, temp_fb).len() ==> prime_of(#[trigger] children_of(rel, target, temp_fb)[j])
                < prime_of(target),
{
    let q = prime_of(target);
    let re = rel.rational_exponents.entries@;
    let ae = rel.algebraic_exponents.entries@;
    assert forall|k: int| 0 <= k < re.len() implies (#[trigger] re[k]).0 < temp_fb.rational_primes@.len()
        && temp_fb.rational_primes@[re[k].0 as int] < q by {}
    assert forall|k: int| 0 <= k < ae.len() implies (#[trigger] ae[k]).0 < temp_fb.algebraic_ideals@.len()
        && temp_fb.algebraic_ideals@[ae[k].0 as int].p <= q by {}
    lemma_rational_children_below(re, temp_fb.rational_primes@, q);
    lemma_algebraic_children_below(ae, temp_fb.algebraic_ideals@, q);
    let rc = rational_children(re, temp_fb.rational_primes@);
    let ac = algebraic_children(ae, temp_fb.algebraic_ideals@, q);
    assert forall|j: int| 0 <= j < (rc + ac).len() implies prime_of(#[trigger] (rc + ac)[j]) < q by {
        if j < rc.len() {
            assert((rc + ac)[j] == rc[j]);
        } else {
            assert((rc + ac)[j] == ac[j - rc.len()]);
        }
    }
}

/// One descent step once the special-q sieve has found `all_relations` for `target`: the
/// first relation that rewrites `target` with smaller primes becomes the node's rewriting
/// relation (with no Schirokauer columns), its primes the node's children.
///
/// No relation at all gives `NoRelationFound`; relations of which none strictly reduces give
/// `NoStrictReduction`.
pub fn descend_with_relations<F: Clone>(
    target: DescentTarget,
    all_relations: &[(u64, &Relation)],
    temp_fb: &FactorBase,
    fb: &FactorBase,
    vtable: &VirtualLogTable<F>,
) -> (r: Result<DescentNode<F>, DescentStepError>)
    requires
        table_covers(*fb, *vtable),
    ensures
        all_relations@.len() == 0 ==> r == Err::<DescentNode<F>, DescentStepError>(DescentStepError::NoRelationFound { target }),
        all_relations@.len() > 0 && (forall|i: int|
            0 <= i < all_relations@.len() ==> !strictly_reduces(*(#[trigger] all_relations@[i]).1, prime_of(target), *temp_fb))
            ==> r == Err::<DescentNode<F>, DescentStepError>(DescentStepError::NoStrictReduction { target }),
        (exists|i: int|
            0 <= i < all_relations@.len() && strictly_reduces(*(#[trigger] all_relations@[i]).1, prime_of(target), *temp_fb))
            ==> r is Ok,
        r matches Ok(node) ==> exists|i: int|
            0 <= i < all_relations@.len() && strictly_reduces(*(#[trigger] all_relations@[i]).1, prime_of(target), *temp_fb)
                && (forall|j: int| 0 <= j < i ==> !strictly_reduces(*(#[trigger] all_relations@[j]).1, prime_of(target), *temp_fb))
                && node.target == target
                && node.known_log is None
                && (node.rewriting_relation matches Some(d) && d.relation.same_as(*all_relations@[i].1)
                && d.schirokauer_cols@.len() == 0)
                && fresh_nodes_for(node.children@, children_of(*all_relations@[i].1, target, *temp_fb), *fb, *vtable),
        r matches Ok(node) ==> forall|j: int|
            0 <= j < node.children@.len() ==> prime_of((#[trigger] node.children@[j]).target) < prime_of(target),
{
    let q = target.prime();
    if all_relations.len() == 0 {
        return Err(DescentStepError::NoRelationFound { target });
    }
    let chosen = find_strictly_reducing_relation(all_relations, q, temp_fb);
    let relation = match chosen {
        Some(x) => x.1,
        None => {
            return Err(DescentStepError::NoStrictReduction { target });
        },
    };
    let children = build_children(relation, &target, temp_fb, fb, vtable);
    proof {
        lemma_children_below(*relation, target, *temp_fb);
        assert forall|j: int| 0 <= j < children@.len() implies prime_of((#[trigger] children@[j]).target) < prime_of(target) by {
            assert(children@[j].target == children_of(*relation, target, *temp_fb)[j]);
        }
    }
    let dl_relation = DLRelation::new(relation.duplicate(), Vec::new());
    Ok(DescentNode { target, rewriting_relation: Some(dl_relation), children, known_log: None })
}

/// What the descent loop does next: stop, record a factor-base leaf, or descend a target
/// with the special-q sieve.
pub enum DescentStep<F> {
    /// The frontier is empty.
    Done,
    /// The popped target is a factor-base element: its leaf, with the virtual log.
    Leaf(DescentNode<F>),
    /// The popped target is outside the factor base and must be descended.
    Descend(DescentTarget),
}

/// Pop the pending target of largest prime and decide what to do with it.
pub fn descent_step<F: Clone>(frontier: &mut DescentFrontier<F>, fb: &FactorBase, vtable: &VirtualLogTable<F>) -> (r: DescentStep<F>)
    requires
        table_covers(*fb, *vtable),
    ensures
        r is Done <==> old(frontier).entries().len() == 0,
        r is Done ==> final(frontier).entries() == old(frontier).entries(),
        !(r is Done) ==> exists|i: int|
            #[trigger] holds_largest(old(frontier).entries(), i) && final(frontier).entries() == old(frontier).entries().remove(i)
                && match r {
                    DescentStep::Leaf(node) => {
                        &&& node.target == old(frontier).entries()[i].0
                        &&& node.rewriting_relation is None
                        &&& node.children@.len() == 0
                        &&& node.known_log is Some
                        &&& leaf_log_matches(node.target, *fb, *vtable, node.known_log)
                    },
                    DescentStep::Descend(t) => {
                        &&& t == old(frontier).entries()[i].0
                        &&& leaf_log_matches(t, *fb, *vtable, None)
                    },
                    DescentStep::Done => false,
                },
{
    match frontier.pop_largest() {
        None => DescentStep::Done,
        Some((target, _node)) => {
            let leaf_log = lookup_leaf_log(&target, fb, vtable);
            match leaf_log {
                Some(log) => DescentStep::Leaf(
                    DescentNode { target, rewriting_relation: None, children: Vec::new(), known_log: Some(log) },
                ),
                None => DescentStep::Descend(target),
            }
        },
    }
}

/// The targets of the children without a virtual log, in order.
pub open spec fn pending_targets<F>(children: Seq<DescentNode<F>>) -> Seq<DescentTarget>
    decreases children.len(),
{
    if children.len() == 0 {
        Seq::empty()
    } else {
        let prev = pending_targets(children.drop_last());
        if children.last().known_log is None {
            prev.push(children.last().target)
        } else {
            prev
        }
    }
}

/// There are exactly as many pending targets as children without a virtual log.
proof fn lemma_pending_targets_len<F>(children: Seq<DescentNode<F>>)
    ensures
        pending_targets(children).len() == children.filter(|c: DescentNode<F>| c.known_log is None).len(),
    decreases children.len(),
{
    let pred = |c: DescentNode<F>| c.known_log is None;
    if children.len() > 0 {
        lemma_pending_targets_len(children.drop_last());
        assert(children == children.drop_last().push(children.last()));
        children.drop_last().lemma_filter_len_push(pred, children.last());
    }
}

/// Every child without a virtual log, at every position, has its target among the pending
/// targets.
proof fn lemma_pending_targets_complete<F>(children: Seq<DescentNode<F>>, j: int)
    requires
        0 <= j < children.len(),
        children[j].known_log is None,
    ensures
        exists|k: int| 0 <= k < pending_targets(children).len() && pending_targets(children)[k] == children[j].target,
    decreases children.len(),
{
    let init = children.drop_last();
    let pi = pending_targets(init);
    let pt = pending_targets(children);
    if j < children.len() - 1 {
        assert(init[j] == children[j]);
        lemma_pending_targets_complete(init, j);
        let k0 = choose|k: int| 0 <= k < pi.len() && pi[k] == init[j].target;
        assert(pt[k0] == pi[k0]);
    } else {
        assert(pt[pi.len() as int] == children[j].target);
    }
}

/// Every pending target is the target of a child without a virtual log.
proof fn lemma_pending_targets_sound<F>(children: Seq<DescentNode<F>>, k: int)
    requires
        0 <= k < pending_targets(children).len(),
    ensures
        exists|j: int|
            0 <= j < children.len() && children[j].known_log is None && children[j].target == pending_targets(children)[k],
    decreases children.len(),
{
    let init = children.drop_last();
    let pi = pending_targets(init);
    let pt = pending_targets(children);
    if k < pi.len() {
        assert(pt[k] == pi[k]);
        lemma_pending_targets_sound(init, k);
        let j0 = choose|j: int| 0 <= j < init.len() && init[j].known_log is None && init[j].target == pi[k];
        assert(children[j0] == init[j0]);
    } else {
        assert(children[children.len() - 1] == children.last());
    }
}

/// The children still to descend, as a law over the children themselves: every child without
/// a virtual log, at every position (the first included), has its target among the pending
/// targets; every pending target is the target of such a child; and there are exactly as many
/// pending targets as children without a log; in order, they are exactly those children's
/// targets.
pub proof fn lemma_pending_targets_are_unlogged_children<F>(children: Seq<DescentNode<F>>)
    ensures
        pending_targets(children) == children.filter(|c: DescentNode<F>| c.known_log is None).map_values(
            |c: DescentNode<F>| c.target,
        ),
        pending_targets(children).len() == children.filter(|c: DescentNode<F>| c.known_log is None).len(),
        forall|j: int|
            0 <= j < children.len() && (#[trigger] children[j]).known_log is None ==> exists|k: int|
                0 <= k < pending_targets(children).len() && pending_targets(children)[k] == children[j].target,
        forall|k: int|
            0 <= k < pending_targets(children).len() ==> exists|j: int|
                0 <= j < children.len() && children[j].known_log is None && children[j].target
                    == #[trigger] pending_targets(children)[k],
{
    lemma_pending_targets_len(children);
    lemma_pending_targets_filter(children);
    assert forall|j: int| 0 <= j < children.len() && (#[trigger] children[j]).known_log is None implies exists|k: int|
        0 <= k < pending_targets(children).len() && pending_targets(children)[k] == children[j].target by {
        lemma_pending_targets_complete(children, j);
    }
    assert forall|k: int| 0 <= k < pending_targets(children).len() implies exists|j: int|
        0 <= j < children.len() && children[j].known_log is None && children[j].target
            == #[trigger] pending_targets(children)[k] by {
        lemma_pending_targets_sound(children, k);
    }
}

/// Entry `e` is a fresh pending node for target `t`: no relation, no children, no log.
pub open spec fn fresh_pending<F>(e: (DescentTarget, DescentNode<F>), t: DescentTarget) -> bool {
    &&& e.0 == t
    &&& e.1.target == t
    &&& e.1.rewriting_relation is None
    &&& e.1.children@.len() == 0
    &&& e.1.known_log is None
}

/// After a descent of one target: push a fresh pending node for each child without a virtual
/// log, in order; the entries already there stay as they are.
pub fn absorb_descent<F: Clone>(frontier: &mut DescentFrontier<F>, descended: &DescentNode<F>)
    ensures
        final(frontier).entries().len() == old(frontier).entries().len() + pending_targets(descended.children@).len(),
        final(frontier).entries().subrange(0, old(frontier).entries().len() as int) == old(frontier).entries(),
        forall|k: int|
            0 <= k < pending_targets(descended.children@).len() ==> #[trigger] fresh_pending(
                final(frontier).entries()[old(frontier).entries().len() + k],
                pending_targets(descended.children@)[k],
            ),
        final(frontier).entries().len() == old(frontier).entries().len() + descended.children@.filter(
            |c: DescentNode<F>| c.known_log is None,
        ).len(),
        forall|j: int|
            0 <= j < descended.children@.len() && (#[trigger] descended.children@[j]).known_log is None
                ==> exists|k: int|
                old(frontier).entries().len() <= k < final(frontier).entries().len() && fresh_pending(
                    #[trigger] final(frontier).entries()[k],
                    descended.children@[j].target,
                ),
        final(frontier).entries().subrange(
            old(frontier).entries().len() as int,
            final(frontier).entries().len() as int,
        ).map_values(|e: (DescentTarget, DescentNode<F>)| e.0) == descended.children@.filter(
            |c: DescentNode<F>| c.known_log is None,
        ).map_values(|c: DescentNode<F>| c.target),
        forall|k: int|
            old(frontier).entries().len() <= k < final(frontier).entries().len() ==> fresh_pending(
                #[trigger] final(frontier).entries()[k],
                final(frontier).entries()[k].0,
            ),
{
    let ghost start = frontier.entries();
    let ghost ch = descended.children@;
    let n = descended.children.len();
    let mut j: usize = 0;
    while j < n
        invariant
            n == ch.len(),
            ch == descended.children@,
            j <= n,
            frontier.entries().len() == start.len() + pending_targets(ch.take(j as int)).len(),
            frontier.entries().subrange(0, start.len() as int) == start,
            forall|k: int|
                0 <= k < pending_targets(ch.take(j as int)).len() ==> #[trigger] fresh_pending(
                    frontier.entries()[start.len() + k],
                    pending_targets(ch.take(j as int))[k],
                ),
        decreases n - j,
    {
        let child = &descended.children[j];
        let ghost pt = pending_targets(ch.take(j as int));
        proof {
            assert(ch.take(j + 1).drop_last() =~= ch.take(j as int));
            assert(ch.take(j + 1).last() == *child);
        }
        if child.known_log.is_none() {
            let t = child.target;
            let ghost before = frontier.entries();
            frontier.push(t, DescentNode { target: t, rewriting_relation: None, children: Vec::new(), known_log: None });
            proof {
                let pt2 = pending_targets(ch.take(j + 1));
                assert(pt2 == pt.push(t));
                assert(frontier.entries().subrange(0, start.len() as int) =~= before.subrange(0, start.len() as int));
                assert forall|k: int| 0 <= k < pt2.len() implies #[trigger] fresh_pending(frontier.entries()[start.len() + k], pt2[k]) by {
                    if k < pt.len() {
                        assert(frontier.entries()[start.len() + k] == before[start.len() + k]);
                        assert(fresh_pending(before[start.len() + k], pt[k]));
                    } else {
                        assert(frontier.entries()[start.len() + k] == frontier.entries()[before.len() as int]);
                    }
                }
            }
        } else {
            proof {
                assert(pending_targets(ch.take(j + 1)) == pt);
            }
        }
        j = j + 1;
    }
    proof {
        assert(ch.take(n as int) =~= ch);
        lemma_absorb_pending(start, frontier.entries(), ch);
    }
}

/// From the entries pushed for the pending targets to the children themselves.
proof fn lemma_absorb_pending<F>(
    start: Seq<(DescentTarget, DescentNode<F>)>,
    fin: Seq<(DescentTarget, DescentNode<F>)>,
    ch: Seq<DescentNode<F>>,
)
    requires
        fin.len() == start.len() + pending_targets(ch).len(),
        forall|k: int|
            0 <= k < pending_targets(ch).len() ==> #[trigger] fresh_pending(fin[start.len() + k], pending_targets(ch)[k]),
    ensures
        fin.len() == start.len() + ch.filter(|c: DescentNode<F>| c.known_log is None).len(),
        forall|j: int|
            0 <= j < ch.len() && (#[trigger] ch[j]).known_log is None ==> exists|k: int|
                start.len() <= k < fin.len() && fresh_pending(#[trigger] fin[k], ch[j].target),
        fin.subrange(start.len() as int, fin.len() as int).map_values(|e: (DescentTarget, DescentNode<F>)| e.0)
            == ch.filter(|c: DescentNode<F>| c.known_log is None).map_values(|c: DescentNode<F>| c.target),
        forall|k: int| start.len() <= k < fin.len() ==> fresh_pending(#[trigger] fin[k], fin[k].0),
{
    lemma_pending_targets_len(ch);
    lemma_pending_targets_filter(ch);
    let pt = pending_targets(ch);
    assert forall|j: int| 0 <= j < ch.len() && (#[trigger] ch[j]).known_log is None implies exists|k: int|
        start.len() <= k < fin.len() && fresh_pending(#[trigger] fin[k], ch[j].target) by {
        lemma_pending_targets_complete(ch, j);
        let k0 = choose|k: int| 0 <= k < pt.len() && pt[k] == ch[j].target;
        assert(fresh_pending(fin[start.len() + k0], pt[k0]));
    }
    let added = fin.subrange(start.len() as int, fin.len() as int).map_values(|e: (DescentTarget, DescentNode<F>)| e.0);
    assert forall|i: int| 0 <= i < pt.len() implies #[trigger] added[i] == pt[i] by {
        assert(fresh_pending(fin[start.len() + i], pt[i]));
    }
    assert(added =~= pt);
    assert forall|k: int| start.len() <= k < fin.len() implies fresh_pending(#[trigger] fin[k], fin[k].0) by {
        let i = k - start.len();
        assert(fresh_pending(fin[start.len() + i], pt[i]));
    }
}

/// The pending targets are the targets of the children without a virtual log, in order.
proof fn lemma_pending_targets_filter<F>(children: Seq<DescentNode<F>>)
    ensures
        pending_targets(children) == children.filter(|c: DescentNode<F>| c.known_log is None).map_values(
            |c: DescentNode<F>| c.target,
        ),
    decreases children.len(),
{
    let pred = |c: DescentNode<F>| c.known_log is None;
    let tg = |c: DescentNode<F>| c.target;
    if children.len() > 0 {
        let init = children.drop_last();
        lemma_pending_targets_filter(init);
        assert(children == init.push(children.last()));
        init.lemma_filter_push(children.last(), pred);
        if pred(children.last()) {
            assert(init.filter(pred).push(children.last()).map_values(tg) =~= init.filter(pred).map_values(tg).push(
                children.last().target,
            ));
        }
    } else {
        assert(children.filter(pred) =~= children) by {
            reveal(Seq::filter);
        }
        assert(children.filter(pred).map_values(tg) =~= Seq::<DescentTarget>::empty());
    }
}

} // verus!
