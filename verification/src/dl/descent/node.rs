//! The descent tree: targets (rational primes and degree-1 algebraic ideals), nodes, and the
//! frontier that hands out the largest pending prime first.

use vstd::prelude::*;
use core::cmp::Ordering;
use vstd::std_specs::cmp::PartialOrdSpecImpl;
use crate::dl::DLRelation;

verus! {

/// A rational prime or a degree-1 algebraic prime ideal being descended.
#[derive(Debug, Clone, Copy, PartialEq, Eq, Structural)]
pub enum DescentTarget {
    /// A rational prime `p`.
    Rational(u64),
    /// An algebraic ideal `(p, r)` with `f(r) = 0 mod p`.
    Algebraic {
        /// The rational prime.
        p: u64,
        /// The root.
        r: u64,
    },
}

/// The prime of a target: `p` on both sides.
pub open spec fn prime_of(t: DescentTarget) -> u64 {
    match t {
        DescentTarget::Rational(p) => p,
        DescentTarget::Algebraic { p, .. } => p,
    }
}

/// Variant rank used to break ties: rational 0, algebraic 1.
pub open spec fn variant_rank(t: DescentTarget) -> u8 {
    match t {
        DescentTarget::Rational(_) => 0,
        DescentTarget::Algebraic { .. } => 1,
    }
}

/// Root used to break ties: `r` for an algebraic ideal, 0 for a rational prime.
pub open spec fn root_rank(t: DescentTarget) -> u64 {
    match t {
        DescentTarget::Rational(_) => 0,
        DescentTarget::Algebraic { r, .. } => r,
    }
}

/// Order of targets: by prime, then rational before algebraic, then by root.
pub open spec fn target_ordering(a: DescentTarget, b: DescentTarget) -> Ordering {
    if prime_of(a) < prime_of(b) {
        Ordering::Less
    } else if prime_of(a) > prime_of(b) {
        Ordering::Greater
    } else if variant_rank(a) < variant_rank(b) {
        Ordering::Less
    } else if variant_rank(a) > variant_rank(b) {
        Ordering::Greater
    } else if root_rank(a) < root_rank(b) {
        Ordering::Less
    } else if root_rank(a) > root_rank(b) {
        Ordering::Greater
    } else {
        Ordering::Equal
    }
}

impl DescentTarget {
    /// The prime `p`, on both sides: the value each descent step strictly lowers.
    pub fn prime(&self) -> (p: u64)
        ensures
            p == prime_of(*self),
    {
        match self {
            DescentTarget::Rational(p) => *p,
            DescentTarget::Algebraic { p, .. } => *p,
        }
    }

    /// Variant rank for tie-breaking: rational 0, algebraic 1.
    pub fn variant_ord(&self) -> (v: u8)
        ensures
            v == variant_rank(*self),
    {
        match self {
            DescentTarget::Rational(_) => 0,
            DescentTarget::Algebraic { .. } => 1,
        }
    }

    /// Root for tie-breaking: `r` for an algebraic ideal, 0 for a rational prime.
    pub fn r_ord(&self) -> (v: u64)
        ensures
            v == root_rank(*self),
    {
        match self {
            DescentTarget::Rational(_) => 0,
            DescentTarget::Algebraic { r, .. } => *r,
        }
    }
}

impl PartialOrd for DescentTarget {
    fn partial_cmp(&self, other: &Self) -> (r: Option<Ordering>) {
        let (pa, pb) = (self.prime(), other.prime());
        if pa < pb {
            return Some(Ordering::Less);
        }
        if pa > pb {
            return Some(Ordering::Greater);
        }
        let (va, vb) = (self.variant_ord(), other.variant_ord());
        if va < vb {
            return Some(Ordering::Less);
        }
        if va > vb {
            return Some(Ordering::Greater);
        }
        let (ra, rb) = (self.r_ord(), other.r_ord());
        if ra < rb {
            Some(Ordering::Less)
        } else if ra > rb {
            Some(Ordering::Greater)
        } else {
            Some(Ordering::Equal)
        }
    }
}

impl PartialOrdSpecImpl for DescentTarget {
    open spec fn obeys_partial_cmp_spec() -> bool {
        true
    }

    open spec fn partial_cmp_spec(&self, other: &Self) -> Option<Ordering> {
        Some(target_ordering(*self, *other))
    }
}

/// A node of the descent tree: its target, the relation rewriting it (interior nodes), its
/// children, and its virtual log when the target is a factor-base element.
#[derive(Debug)]
pub struct DescentNode<F> {
    /// The target descended.
    pub target: DescentTarget,
    /// The relation rewriting the target as smaller primes (interior nodes).
    pub rewriting_relation: Option<DLRelation>,
    /// The child nodes.
    pub children: Vec<DescentNode<F>>,
    /// The virtual log of a factor-base target.
    pub known_log: Option<F>,
}

impl<F: Clone> Clone for DescentNode<F> {
    fn clone(&self) -> (r: Self)
        ensures
            r.target == self.target,
            r.children@.len() == self.children@.len(),
        decreases self,
    {
        let mut children: Vec<DescentNode<F>> = Vec::with_capacity(self.children.len());
        let mut i: usize = 0;
        while i < self.children.len()
            invariant
                i <= self.children@.len(),
                children@.len() == i,
            decreases self.children@.len() - i,
        {
            proof {
                vstd::std_specs::vec::axiom_vec_index_decreases(self.children, i as int);
            }
            children.push(self.children[i].clone());
            i = i + 1;
        }
        DescentNode {
            target: self.target,
            rewriting_relation: self.rewriting_relation.clone(),
            children,
            known_log: self.known_log.clone(),
        }
    }
}

/// Position `i` of `s` holds a largest prime.
pub open spec fn holds_largest<F>(s: Seq<(DescentTarget, DescentNode<F>)>, i: int) -> bool {
    &&& 0 <= i < s.len()
    &&& forall|j: int| 0 <= j < s.len() ==> prime_of(#[trigger] s[j].0) <= prime_of(s[i].0)
}

/// The pending targets of the descent, each with its node; handed out largest prime first.
pub struct DescentFrontier<F> {
    heap: Vec<(DescentTarget, DescentNode<F>)>,
}

impl<F> DescentFrontier<F> {
    /// The pending `(target, node)` pairs, in insertion order less the ones handed out.
    pub closed spec fn entries(&self) -> Seq<(DescentTarget, DescentNode<F>)> {
        self.heap@
    }

    /// The empty frontier.
    pub fn new() -> (r: Self)
        ensures
            r.entries() == Seq::<(DescentTarget, DescentNode<F>)>::empty(),
    {
        DescentFrontier { heap: Vec::new() }
    }

    /// Add a target with its node.
    pub fn push(&mut self, target: DescentTarget, node: DescentNode<F>)
        ensures
            final(self).entries() == old(self).entries().push((target, node)),
    {
        self.heap.push((target, node));
    }

    /// Remove and return a pending target of largest prime, with its node; `None` when the
    /// frontier is empty.
    pub fn pop_largest(&mut self) -> (r: Option<(DescentTarget, DescentNode<F>)>)
        ensures
            r is None <==> old(self).entries().len() == 0,
            r is None ==> final(self).entries() == old(self).entries(),
            r matches Some(e) ==> exists|i: int|
                #[trigger] holds_largest(old(self).entries(), i) && old(self).entries()[i] == e
                    && final(self).entries() == old(self).entries().remove(i),
    {
        let n = self.heap.len();
        if n == 0 {
            return None;
        }
        let mut best: usize = 0;
        let mut best_prime = self.heap[0].0.prime();
        let mut i: usize = 1;
        while i < n
            invariant
                n == self.heap@.len(),
                self.heap@ == old(self).heap@,
                1 <= i <= n,
                best < n,
                best_prime == prime_of(self.heap@[best as int].0),
                forall|j: int| 0 <= j < i ==> prime_of(#[trigger] self.heap@[j].0) <= best_prime,
            decreases n - i,
        {
            let p = self.heap[i].0.prime();
            if p > best_prime {
                best = i;
                best_prime = p;
            }
            i = i + 1;
        }
        let e = self.heap.remove(best);
        proof {
            assert(holds_largest(old(self).entries(), best as int));
        }
        Some(e)
    }

    /// True when no target is pending.
    pub fn is_empty(&self) -> (b: bool)
        ensures
            b == (self.entries().len() == 0),
    {
        self.heap.len() == 0
    }

    /// Number of pending targets.
    pub fn len(&self) -> (n: usize)
        ensures
            n == self.entries().len(),
    {
        self.heap.len()
    }
}

impl<F> Default for DescentFrontier<F> {
    fn default() -> (r: Self)
        ensures
            r.entries() == Seq::<(DescentTarget, DescentNode<F>)>::empty(),
    {
        DescentFrontier::new()
    }
}

/// Successive pops never raise the prime: after a largest entry is removed, a largest entry
/// of what remains has a prime no larger.
pub proof fn lemma_pops_nonincreasing<F>(s: Seq<(DescentTarget, DescentNode<F>)>, i: int, k: int)
    requires
        holds_largest(s, i),
        holds_largest(s.remove(i), k),
    ensures
        prime_of(s.remove(i)[k].0) <= prime_of(s[i].0),
{
    let t = s.remove(i);
    if k < i {
        assert(t[k] == s[k]);
    } else {
        assert(t[k] == s[k + 1]);
    }
}

} // verus!
