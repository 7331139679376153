//! Errors of the individual-logarithm solver, and the map key of a descent target.

use vstd::prelude::*;
use crate::dl::descent::node::{prime_of, DescentNode, DescentTarget};
use crate::dl::descent::node::DescentFrontier;
use crate::dl::residue::{big_add, big_div, big_mul, big_rem, LogResidue};
use crate::linalg::qc::{is_prime, is_prime_spec};
use vstd::arithmetic::div_mod::{lemma_div_decreases, lemma_fundamental_div_mod, lemma_mul_mod_noop_left};
use vstd::arithmetic::power::pow;
use crate::dl::text::{decimal, push_decimal};

verus! {

/// Error of the individual-logarithm solver.
#[derive(Debug, Clone, PartialEq, Eq)]
pub enum SolveDlError {
    /// Extension degree beyond 2 is not supported.
    Unsupported {
        /// The degree asked for.
        k: usize,
    },
    /// No exponent `e` made `g^e h` smooth.
    InitSmoothingFailed {
        /// Exponents tried.
        attempts: u64,
    },
    /// A medium prime could not be rewritten as smaller primes.
    DescentFailed {
        /// The prime that could not be descended.
        stuck_prime: u64,
    },
}

impl SolveDlError {
    /// The human-readable message of the error.
    pub fn message(&self) -> (r: String)
        ensures
            r@ == match *self {
                SolveDlError::Unsupported { k } => "extension field F_{p^"@ + decimal(k as nat)
                    + "} (k > 2) not supported (toy ceiling)"@,
                SolveDlError::InitSmoothingFailed { attempts } => "initialization-smoothing failed after "@ + decimal(
                    attempts as nat,
                ) + " attempts"@,
                SolveDlError::DescentFailed { stuck_prime } => "descent failed: could not rewrite prime "@ + decimal(
                    stuck_prime as nat,
                ),
            },
    {
        match self {
            SolveDlError::Unsupported { k } => {
                let mut s = String::from_str("extension field F_{p^");
                push_decimal(&mut s, *k as u64);
                s.append("} (k > 2) not supported (toy ceiling)");
                s
            },
            SolveDlError::InitSmoothingFailed { attempts } => {
                let mut s = String::from_str("initialization-smoothing failed after ");
                push_decimal(&mut s, *attempts);
                s.append(" attempts");
                s
            },
            SolveDlError::DescentFailed { stuck_prime } => {
                let mut s = String::from_str("descent failed: could not rewrite prime ");
                push_decimal(&mut s, *stuck_prime);
                s
            },
        }
    }
}

/// Error of initialization-smoothing.
#[derive(Debug, Clone, PartialEq, Eq)]
pub enum InitSmoothingError {
    /// No smooth exponent within the attempt limit.
    NoSmoothExponent {
        /// Exponents tried.
        attempts: u64,
    },
}

impl InitSmoothingError {
    /// The human-readable message of the error.
    pub fn message(&self) -> (r: String)
        ensures
            r@ == match *self {
                InitSmoothingError::NoSmoothExponent { attempts } => "no smooth exponent found after "@ + decimal(
                    attempts as nat,
                ) + " attempts"@,
            },
    {
        match self {
            InitSmoothingError::NoSmoothExponent { attempts } => {
                let mut s = String::from_str("no smooth exponent found after ");
                push_decimal(&mut s, *attempts);
                s.append(" attempts");
                s
            },
        }
    }
}

/// Error of one descent step.
#[derive(Debug, Clone, PartialEq, Eq)]
pub enum DescentStepError {
    /// No relation rewrites the target as smaller primes.
    NoRelationFound {
        /// The target.
        target: DescentTarget,
    },
    /// Relations were found, but none strictly lowers the largest prime.
    NoStrictReduction {
        /// The target.
        target: DescentTarget,
    },
}

impl DescentStepError {
    /// The human-readable message of the error.
    pub fn message(&self) -> (r: String)
        ensures
            r@ == match *self {
                DescentStepError::NoRelationFound { target } => "no relation found for prime "@ + decimal(
                    prime_of(target) as nat,
                ),
                DescentStepError::NoStrictReduction { target } => "no strict reduction found for prime "@ + decimal(
                    prime_of(target) as nat,
                ),
            },
    {
        match self {
            DescentStepError::NoRelationFound { target } => {
                let mut s = String::from_str("no relation found for prime ");
                push_decimal(&mut s, target.prime());
                s
            },
            DescentStepError::NoStrictReduction { target } => {
                let mut s = String::from_str("no strict reduction found for prime ");
                push_decimal(&mut s, target.prime());
                s
            },
        }
    }
}

/// Key of a target in the assembled-log map: `(p, r)`, with `r = 0` on the rational side.
#[derive(Debug, Clone, Copy, PartialEq, Eq, Hash)]
pub struct TargetKey(pub u64, pub u64);

/// The map key of a target.
pub fn target_key(target: &DescentTarget) -> (k: TargetKey)
    ensures
        k == (match *target {
            DescentTarget::Rational(p) => TargetKey(p, 0),
            DescentTarget::Algebraic { p, r } => TargetKey(p, r),
        }),
{
    match target {
        DescentTarget::Rational(p) => TargetKey(*p, 0),
        DescentTarget::Algebraic { p, r } => TargetKey(*p, *r),
    }
}

/// The map key of a target, as a spec value.
pub open spec fn key_of(t: DescentTarget) -> TargetKey {
    match t {
        DescentTarget::Rational(p) => TargetKey(p, 0),
        DescentTarget::Algebraic { p, r } => TargetKey(p, r),
    }
}

/// The log of a child: its virtual log when it has one, else its entry in `table`; the
/// child's prime when it has neither.
pub open spec fn child_log(c: DescentNode<LogResidue>, table: Map<TargetKey, nat>) -> Result<nat, u64> {
    match c.known_log {
        Some(x) => Ok(x.value()),
        None => if table.contains_key(key_of(c.target)) {
            Ok(table[key_of(c.target)])
        } else {
            Err(prime_of(c.target))
        },
    }
}

/// The sum modulo `ell` of the logs of the first `j` children, stopping at the first child
/// without a log.
pub open spec fn children_log(children: Seq<DescentNode<LogResidue>>, table: Map<TargetKey, nat>, ell: nat, j: int) -> Result<
    nat,
    u64,
>
    decreases j,
{
    if j <= 0 {
        Ok(0)
    } else {
        match children_log(children, table, ell, j - 1) {
            Err(p) => Err(p),
            Ok(acc) => match child_log(children[j - 1], table) {
                Err(p) => Err(p),
                Ok(l) => Ok((acc + l) % ell),
            },
        }
    }
}

/// The log of a node: its virtual log modulo `ell` for a leaf, the sum of its children's logs
/// modulo `ell` otherwise.
pub open spec fn node_log(node: DescentNode<LogResidue>, table: Map<TargetKey, nat>, ell: nat) -> Result<nat, u64> {
    match node.known_log {
        Some(x) => Ok(x.value() % ell),
        None => children_log(node.children@, table, ell, node.children@.len() as int),
    }
}

/// The logs of the targets after the last `t` nodes of `nodes` are taken, last node first,
/// each recorded under its target's key; the prime of the first child without a log when
/// one is missing.
pub open spec fn log_table(nodes: Seq<DescentNode<LogResidue>>, ell: nat, t: int) -> Result<Map<TargetKey, nat>, u64>
    decreases t,
{
    if t <= 0 {
        Ok(Map::empty())
    } else {
        match log_table(nodes, ell, t - 1) {
            Err(p) => Err(p),
            Ok(table) => {
                let node = nodes[nodes.len() - t];
                match node_log(node, table, ell) {
                    Err(p) => Err(p),
                    Ok(l) => Ok(table.insert(key_of(node.target), l)),
                }
            },
        }
    }
}

/// The sum modulo `ell` of the logs in `table` of the first `j` targets; the prime of the
/// first one missing.
pub open spec fn targets_log(targets: Seq<DescentTarget>, table: Map<TargetKey, nat>, ell: nat, j: int) -> Result<nat, u64>
    decreases j,
{
    if j <= 0 {
        Ok(0)
    } else {
        match targets_log(targets, table, ell, j - 1) {
            Err(p) => Err(p),
            Ok(acc) => if table.contains_key(key_of(targets[j - 1])) {
                Ok((acc + table[key_of(targets[j - 1])]) % ell)
            } else {
                Err(prime_of(targets[j - 1]))
            },
        }
    }
}

/// The assembled log of a descent: the logs of all completed nodes, leaves first, then the
/// sum of the initial targets' logs, all modulo `ell`; the prime of the first target found
/// without a log.
pub open spec fn assembled_log(nodes: Seq<DescentNode<LogResidue>>, targets: Seq<DescentTarget>, ell: nat) -> Result<
    nat,
    u64,
> {
    match log_table(nodes, ell, nodes.len() as int) {
        Err(p) => Err(p),
        Ok(table) => targets_log(targets, table, ell, targets.len() as int),
    }
}

/// The map held by a list of `(key, log)` entries: later entries override earlier ones.
pub open spec fn entries_map(v: Seq<(TargetKey, LogResidue)>) -> Map<TargetKey, nat>
    decreases v.len(),
{
    if v.len() == 0 {
        Map::empty()
    } else {
        entries_map(v.drop_last()).insert(v.last().0, v.last().1.value())
    }
}

/// The log recorded last under `key`.
fn lookup_log(table: &Vec<(TargetKey, LogResidue)>, key: TargetKey) -> (r: Option<LogResidue>)
    ensures
        match r {
            Some(x) => entries_map(table@).contains_key(key) && x.value() == entries_map(table@)[key],
            None => !entries_map(table@).contains_key(key),
        },
{
    let mut i = table.len();
    proof {
        assert(table@.take(i as int) =~= table@);
    }
    while i > 0
        invariant
            i <= table@.len(),
            entries_map(table@).contains_key(key) == entries_map(table@.take(i as int)).contains_key(key),
            entries_map(table@).contains_key(key) ==> entries_map(table@)[key] == entries_map(
                table@.take(i as int),
            )[key],
        decreases i,
    {
        let ghost pre = table@.take(i as int);
        proof {
            assert(pre.drop_last() =~= table@.take(i - 1));
            assert(pre.last() == table@[i - 1]);
        }
        i = i - 1;
        let e = &table[i];
        if e.0.0 == key.0 && e.0.1 == key.1 {
            assert(e.0 == key);
            return Some(e.1.copy());
        }
        assert(e.0 != key);
    }
    None
}

/// Walk the descent tree from the leaves (known virtual logs) up to the initial targets:
/// taking `completed` last node first, a leaf's log is its virtual log modulo `ell` and an
/// interior node's log is the sum of its children's logs modulo `ell`; the result is the sum
/// of the initial targets' logs modulo `ell`, the log of `g^e h`. A child or initial target
/// with no log gives `DescentFailed` with its prime.
pub fn assemble_log(completed: &[DescentNode<LogResidue>], initial_targets: &[DescentTarget], ell: &LogResidue) -> (r: Result<
    LogResidue,
    SolveDlError,
>)
    requires
        ell.value() > 0,
    ensures
        match assembled_log(completed@, initial_targets@, ell.value()) {
            Ok(v) => r matches Ok(x) && x.value() == v,
            Err(p) => r == Err::<LogResidue, SolveDlError>(SolveDlError::DescentFailed { stuck_prime: p }),
        },
{
    let ghost nodes = completed@;
    let ghost ellv = ell.value();
    let mut table: Vec<(TargetKey, LogResidue)> = Vec::new();
    let n = completed.len();
    let mut i = n;
    proof {
        assert(entries_map(table@) =~= Map::<TargetKey, nat>::empty());
    }
    while i > 0
        invariant
            nodes == completed@,
            ellv == ell.value(),
            ellv > 0,
            n == nodes.len(),
            i <= n,
            log_table(nodes, ellv, n - i) == Ok::<Map<TargetKey, nat>, u64>(entries_map(table@)),
        decreases i,
    {
        i = i - 1;
        let node = &completed[i];
        let key = target_key(&node.target);
        let ghost tb = entries_map(table@);
        assert(nodes[nodes.len() - (n - i)] == *node);
        match &node.known_log {
            Some(known) => {
                let log = big_rem(known, ell);
                let ghost before = table@;
                table.push((key, log));
                assert(table@.drop_last() =~= before);
            },
            None => {
                let mut log = LogResidue::zero();
                let mut j: usize = 0;
                while j < node.children.len()
                    invariant
                        ellv == ell.value(),
                        ellv > 0,
                        tb == entries_map(table@),
                        j <= node.children@.len(),
                        children_log(node.children@, tb, ellv, j as int) == Ok::<nat, u64>(log.value()),
                        nodes == completed@,
                        n == nodes.len(),
                        i < n,
                        nodes[i as int] == *node,
                        node.known_log is None,
                        log_table(nodes, ellv, n - i - 1) == Ok::<Map<TargetKey, nat>, u64>(tb),
                    decreases node.children@.len() - j,
                {
                    let child = &node.children[j];
                    let child_val = match &child.known_log {
                        Some(known) => known.copy(),
                        None => {
                            let ckey = target_key(&child.target);
                            match lookup_log(&table, ckey) {
                                Some(l) => l,
                                None => {
                                    proof {
                                        let ch = node.children@;
                                        assert(ch[j as int] == *child);
                                        assert(child_log(ch[j as int], tb) == Err::<nat, u64>(prime_of(child.target)));
                                        assert(children_log(ch, tb, ellv, j as int + 1) == Err::<nat, u64>(prime_of(child.target)));
                                        lemma_children_log_err(ch, tb, ellv, j as int + 1, ch.len() as int);
                                        assert(node_log(*node, tb, ellv) == Err::<nat, u64>(prime_of(child.target)));
                                        assert(nodes[nodes.len() - (n - i)] == *node);
                                        assert(log_table(nodes, ellv, n - i) == Err::<Map<TargetKey, nat>, u64>(
                                            prime_of(child.target),
                                        ));
                                        lemma_log_table_err(nodes, ellv, n - i, n as int);
                                    }
                                    return Err(SolveDlError::DescentFailed { stuck_prime: child.target.prime() });
                                },
                            }
                        },
                    };
                    let sum = big_add(&log, &child_val);
                    log = big_rem(&sum, ell);
                    j = j + 1;
                }
                let ghost before = table@;
                table.push((key, log));
                assert(table@.drop_last() =~= before);
            },
        }
    }
    let ghost tb = entries_map(table@);
    let mut assembled = LogResidue::zero();
    let mut j: usize = 0;
    while j < initial_targets.len()
        invariant
            ellv == ell.value(),
            ellv > 0,
            tb == entries_map(table@),
            log_table(nodes, ellv, n as int) == Ok::<Map<TargetKey, nat>, u64>(tb),
            nodes == completed@,
            n == nodes.len(),
            j <= initial_targets@.len(),
            targets_log(initial_targets@, tb, ellv, j as int) == Ok::<nat, u64>(assembled.value()),
        decreases initial_targets@.len() - j,
    {
        let t = &initial_targets[j];
        match lookup_log(&table, target_key(t)) {
            Some(l) => {
                let sum = big_add(&assembled, &l);
                assembled = big_rem(&sum, ell);
            },
            None => {
                proof {
                    lemma_targets_log_err(initial_targets@, tb, ellv, j as int + 1, initial_targets@.len() as int);
                }
                return Err(SolveDlError::DescentFailed { stuck_prime: t.prime() });
            },
        }
        j = j + 1;
    }
    Ok(assembled)
}

/// Once the children's sum fails, it fails the same way over more children.
proof fn lemma_children_log_err(children: Seq<DescentNode<LogResidue>>, table: Map<TargetKey, nat>, ell: nat, j: int, k: int)
    requires
        0 < j <= k,
        children_log(children, table, ell, j) is Err,
    ensures
        children_log(children, table, ell, k) == children_log(children, table, ell, j),
    decreases k - j,
{
    if k > j {
        lemma_children_log_err(children, table, ell, j, k - 1);
    }
}

/// Once the table fails, it fails the same way over more nodes.
proof fn lemma_log_table_err(nodes: Seq<DescentNode<LogResidue>>, ell: nat, j: int, k: int)
    requires
        0 < j <= k,
        log_table(nodes, ell, j) is Err,
    ensures
        log_table(nodes, ell, k) == log_table(nodes, ell, j),
    decreases k - j,
{
    if k > j {
        lemma_log_table_err(nodes, ell, j, k - 1);
    }
}

/// Once the targets' sum fails, it fails the same way over more targets.
proof fn lemma_targets_log_err(targets: Seq<DescentTarget>, table: Map<TargetKey, nat>, ell: nat, j: int, k: int)
    requires
        0 < j <= k,
        targets_log(targets, table, ell, j) is Err,
    ensures
        targets_log(targets, table, ell, k) == targets_log(targets, table, ell, j),
    decreases k - j,
{
    if k > j {
        lemma_targets_log_err(targets, table, ell, j, k - 1);
    }
}

/// `n` with every factor `p` divided out, and how many factors `p` there were; `n` itself
/// and none when `p < 2` or `n = 0`.
pub open spec fn strip_factor(n: nat, p: nat) -> (nat, nat)
    decreases n,
{
    if p >= 2 && n > 0 && n % p == 0 {
        proof {
            lemma_div_decreases(n as int, p as int);
        }
        let r = strip_factor(n / p, p);
        (r.0, r.1 + 1)
    } else {
        (n, 0)
    }
}

/// Trial division of `n` by the first `i` entries of `base`, in order: what is left, and the
/// factors divided out, each entry repeated as often as it divided.
pub open spec fn trial_strip(n: nat, base: Seq<u64>, i: int) -> (nat, Seq<u64>)
    decreases i,
{
    if i <= 0 {
        (n, Seq::empty())
    } else {
        let prev = trial_strip(n, base, i - 1);
        let st = strip_factor(prev.0, base[i - 1] as nat);
        (st.0, prev.1 + Seq::new(st.1, |k: int| base[i - 1]))
    }
}

/// The factors of `n` over `base` when trial division leaves one; none for zero or when a
/// factor outside `base` remains.
pub open spec fn trial_division(n: nat, base: Seq<u64>) -> Option<Seq<u64>> {
    if n == 0 {
        None
    } else {
        let t = trial_strip(n, base, base.len() as int);
        if t.0 == 1 {
            Some(t.1)
        } else {
            None
        }
    }
}

/// The product of the entries of `s`.
pub open spec fn product(s: Seq<u64>) -> nat
    decreases s.len(),
{
    if s.len() == 0 {
        1
    } else {
        product(s.drop_last()) * (s.last() as nat)
    }
}

/// The product of a concatenation is the product of the products.
proof fn lemma_product_concat(a: Seq<u64>, b: Seq<u64>)
    ensures
        product(a + b) == product(a) * product(b),
    decreases b.len(),
{
    if b.len() == 0 {
        assert(a + b =~= a);
        assert(product(b) == 1);
        assert(product(a + b) == product(a));
    } else {
        lemma_product_concat(a, b.drop_last());
        assert((a + b).drop_last() =~= a + b.drop_last());
        assert((a + b).last() == b.last());
        let x = product(a);
        let y = product(b.drop_last());
        let z = b.last() as nat;
        assert(product(a + b) == product(a + b.drop_last()) * z);
        assert(product(b) == y * z);
        assert(product(a + b.drop_last()) == x * y);
        assert((x * y) * z == x * (y * z)) by (nonlinear_arith);
        assert(product(a + b) == x * (y * z));
    }
}

/// Stripping `p` from `n` leaves `r` with `n = r * p^c`.
proof fn lemma_strip_factor_product(n: nat, p: u64)
    ensures
        n == strip_factor(n, p as nat).0 * product(Seq::new(strip_factor(n, p as nat).1, |k: int| p)),
    decreases n,
{
    if p >= 2 && n > 0 && n % (p as nat) == 0 {
        lemma_div_decreases(n as int, p as int);
        lemma_strip_factor_product(n / (p as nat), p);
        let r = strip_factor(n / (p as nat), p as nat);
        assert(strip_factor(n, p as nat) == (r.0, r.1 + 1));
        let s1 = Seq::new(r.1, |k: int| p);
        let s2 = Seq::new(r.1 + 1, |k: int| p);
        assert(s2.drop_last() =~= s1);
        assert(product(s2) == product(s1) * (p as nat));
        lemma_fundamental_div_mod(n as int, p as int);
        let q = n / (p as nat);
        let a = r.0;
        let b = product(s1);
        assert(n == a * (b * (p as nat))) by (nonlinear_arith)
            requires
                n == p * q + 0,
                q == a * b,
        ;
        assert(n == a * product(s2));
    } else {
        assert(Seq::new(0, |k: int| p) =~= Seq::<u64>::empty());
        assert(product(Seq::new(0, |k: int| p)) == 1);
        assert(n == n * 1);
    }
}

/// Trial division keeps `n` equal to what is left times the factors divided out.
proof fn lemma_trial_strip_product(n: nat, base: Seq<u64>, i: int)
    requires
        0 <= i <= base.len(),
    ensures
        n == trial_strip(n, base, i).0 * product(trial_strip(n, base, i).1),
        forall|k: int| 0 <= k < trial_strip(n, base, i).1.len() ==> base.contains(#[trigger] trial_strip(n, base, i).1[k]),
    decreases i,
{
    if i > 0 {
        lemma_trial_strip_product(n, base, i - 1);
        let prev = trial_strip(n, base, i - 1);
        let p = base[i - 1];
        let st = strip_factor(prev.0, p as nat);
        let f = Seq::new(st.1, |k: int| p);
        assert(f =~= Seq::new(st.1, |k: int| base[i - 1]));
        assert(trial_strip(n, base, i) == (st.0, prev.1 + f));
        lemma_strip_factor_product(prev.0, p);
        lemma_product_concat(prev.1, f);
        let a = st.0;
        let b = product(f);
        let c = product(prev.1);
        assert(n == a * (c * b)) by (nonlinear_arith)
            requires
                n == prev.0 * c,
                prev.0 == a * b,
        ;
        assert(product(prev.1 + f) == c * b);
        assert(n == trial_strip(n, base, i).0 * product(trial_strip(n, base, i).1));
        let t = trial_strip(n, base, i);
        assert forall|k: int| 0 <= k < t.1.len() implies base.contains(#[trigger] t.1[k]) by {
            if k < prev.1.len() {
                assert(t.1[k] == prev.1[k]);
            } else {
                assert(t.1[k] == p);
                assert(base[i - 1] == p);
            }
        }
    } else {
        assert(product(Seq::<u64>::empty()) == 1);
        assert(n == n * 1);
    }
}

/// Once trial division leaves one, later entries (all at least 2) divide out nothing.
proof fn lemma_trial_strip_one(n: nat, base: Seq<u64>, i: int, k: int)
    requires
        0 <= i <= k <= base.len(),
        trial_strip(n, base, i).0 == 1,
    ensures
        trial_strip(n, base, k) == trial_strip(n, base, i),
    decreases k - i,
{
    if k > i {
        lemma_trial_strip_one(n, base, i, k - 1);
        let prev = trial_strip(n, base, k - 1);
        let p = base[k - 1] as nat;
        if p >= 2 {
            assert(1nat % p == 1) by (nonlinear_arith)
                requires
                    p >= 2,
            ;
        }
        assert(prev.1 + Seq::new(0, |j: int| base[k - 1]) =~= prev.1);
    }
}

/// What trial division returns: the factors of `n` over `base` (every entry at least 2,
/// taken in order, each divided out as often as it divides), when the division leaves one;
/// `None` for zero or when a factor outside `base` remains. Returned factors multiply to `n`
/// and all come from `base`.
pub fn trial_divide(n: &LogResidue, prime_base: &[u64]) -> (r: Option<Vec<u64>>)
    requires
        forall|i: int| 0 <= i < prime_base@.len() ==> #[trigger] prime_base@[i] >= 2,
    ensures
        match r {
            Some(fs) => trial_division(n.value(), prime_base@) == Some(fs@),
            None => trial_division(n.value(), prime_base@) is None,
        },
        r matches Some(fs) ==> product(fs@) == n.value() && forall|k: int|
            0 <= k < fs@.len() ==> prime_base@.contains(#[trigger] fs@[k]),
{
    let ghost nv = n.value();
    let ghost base = prime_base@;
    if n.is_zero() {
        return None;
    }
    if n.is_one() {
        proof {
            lemma_trial_strip_one(nv, base, 0, base.len() as int);
            lemma_trial_strip_product(nv, base, base.len() as int);
        }
        return Some(Vec::new());
    }
    let mut remainder = n.copy();
    let mut factors: Vec<u64> = Vec::new();
    let mut i: usize = 0;
    while i < prime_base.len() && !remainder.is_one()
        invariant
            nv == n.value(),
            base == prime_base@,
            nv > 0,
            forall|k: int| 0 <= k < base.len() ==> #[trigger] base[k] >= 2,
            i <= base.len(),
            trial_strip(nv, base, i as int) == (remainder.value(), factors@),
            remainder.value() > 0,
        decreases base.len() - i,
    {
        let p = prime_base[i];
        let p_big = LogResidue::from_u64(p);
        let ghost r0 = remainder.value();
        let ghost f0 = factors@;
        let ghost c: nat = 0;
        loop
            invariant
                p >= 2,
                p_big.value() == p,
                remainder.value() > 0,
                strip_factor(r0, p as nat) == (strip_factor(remainder.value(), p as nat).0, strip_factor(
                    remainder.value(),
                    p as nat,
                ).1 + c),
                factors@ == f0 + Seq::new(c, |k: int| p),
            ensures
                remainder.value() > 0,
                strip_factor(r0, p as nat) == (remainder.value(), c),
                factors@ == f0 + Seq::new(c, |k: int| p),
            decreases remainder.value(),
        {
            let rem = big_rem(&remainder, &p_big);
            if !rem.is_zero() {
                assert(strip_factor(remainder.value(), p as nat) == (remainder.value(), 0nat));
                break;
            }
            let ghost before = remainder.value();
            proof {
                lemma_div_decreases(before as int, p as int);
                lemma_fundamental_div_mod(before as int, p as int);
            }
            remainder = big_div(&remainder, &p_big);
            factors.push(p);
            proof {
                assert(remainder.value() > 0) by (nonlinear_arith)
                    requires
                        before == p * remainder.value() + 0,
                        before > 0,
                ;
                assert(factors@ =~= f0 + Seq::new(c + 1, |k: int| p));
                c = c + 1;
            }
        }
        proof {
            let prev = trial_strip(nv, base, i as int);
            assert(prev == (r0, f0));
            assert(Seq::new(c, |k: int| p) =~= Seq::new(c, |k: int| base[i as int]));
            assert(trial_strip(nv, base, i + 1) == (remainder.value(), factors@));
        }
        i = i + 1;
    }
    proof {
        if i < base.len() {
            lemma_trial_strip_one(nv, base, i as int, base.len() as int);
        }
        lemma_trial_strip_product(nv, base, base.len() as int);
        assert(trial_strip(nv, base, base.len() as int) == (remainder.value(), factors@));
        assert(nv == remainder.value() * product(factors@));
        if remainder.value() == 1 {
            assert(nv == product(factors@));
        }
    }
    if remainder.is_one() {
        Some(factors)
    } else {
        None
    }
}

/// The primes from 2 to `bound`, increasing.
pub open spec fn primes_up_to_spec(bound: nat) -> Seq<u64>
    decreases bound,
{
    if bound < 2 {
        Seq::empty()
    } else {
        let prev = primes_up_to_spec((bound - 1) as nat);
        if is_prime_spec(bound) {
            prev.push(bound as u64)
        } else {
            prev
        }
    }
}

/// Every entry of the prime list is at least 2.
proof fn lemma_primes_at_least_two(bound: nat)
    requires
        bound < 0x1_0000_0000_0000_0000,
    ensures
        forall|k: int| 0 <= k < primes_up_to_spec(bound).len() ==> #[trigger] primes_up_to_spec(bound)[k] >= 2,
    decreases bound,
{
    if bound >= 2 {
        lemma_primes_at_least_two((bound - 1) as nat);
        let prev = primes_up_to_spec((bound - 1) as nat);
        if is_prime_spec(bound) {
            assert((bound as u64) as nat == bound);
            assert forall|k: int| 0 <= k < prev.push(bound as u64).len() implies #[trigger] prev.push(bound as u64)[k] >= 2 by {
                if k < prev.len() {
                    assert(prev.push(bound as u64)[k] == prev[k]);
                }
            }
        }
    }
}

/// The primes from 2 to `bound`, increasing, each found by trial division.
pub fn primes_up_to(bound: u64) -> (r: Vec<u64>)
    requires
        bound < 0xFFFF_FFFE_0000_0001,
    ensures
        r@ == primes_up_to_spec(bound as nat),
{
    let mut r: Vec<u64> = Vec::new();
    let mut q: u64 = 2;
    while q <= bound
        invariant
            bound < 0xFFFF_FFFE_0000_0001,
            2 <= q,
            q <= bound + 1 || q == 2,
            r@ == primes_up_to_spec((q - 1) as nat),
        decreases bound - q + 1,
    {
        if is_prime(q) {
            r.push(q);
        }
        q = q + 1;
    }
    r
}

/// The smoothing candidate of exponent `e`: `g^e h mod p`.
pub open spec fn smoothing_candidate(g: nat, h: nat, p: nat, e: nat) -> nat {
    ((pow(g as int, e) * h) % (p as int)) as nat
}

/// A frontier holding, in order, one fresh rational node per entry of `fs`: no relation, no
/// children, no known log.
pub open spec fn fresh_rational_frontier<F>(entries: Seq<(DescentTarget, DescentNode<F>)>, fs: Seq<u64>) -> bool {
    &&& entries.len() == fs.len()
    &&& forall|i: int|
        0 <= i < entries.len() ==> {
            &&& (#[trigger] entries[i]).0 == DescentTarget::Rational(fs[i])
            &&& entries[i].1.target == DescentTarget::Rational(fs[i])
            &&& entries[i].1.rewriting_relation is None
            &&& entries[i].1.children@.len() == 0
            &&& entries[i].1.known_log is None
        }
}

/// Multiplying the candidate by `g` modulo `p` gives the next candidate.
proof fn lemma_candidate_step(g: nat, h: nat, p: nat, e: nat)
    requires
        p > 0,
    ensures
        ((smoothing_candidate(g, h, p, e) * g) % p) as nat == smoothing_candidate(g, h, p, e + 1),
{
    let x = pow(g as int, e) * h;
    lemma_mul_mod_noop_left(x, g as int, p as int);
    reveal(pow);
    assert(pow(g as int, e + 1) == g * pow(g as int, e));
    assert(x * g == pow(g as int, e + 1) * h) by (nonlinear_arith)
        requires
            x == pow(g as int, e) * h,
            pow(g as int, e + 1) == g * pow(g as int, e),
    ;
    assert(x % (p as int) >= 0);
}

/// Initialization-smoothing: the first exponent `e < max_attempts` for which `g^e h mod p`
/// factors completely over the primes up to `medium_bound`, with a frontier of one fresh
/// rational node per prime factor, with multiplicity and in trial-division order;
/// `NoSmoothExponent` when there is none.
pub fn init_descent_frontier<F>(g: &LogResidue, h: &LogResidue, p: &LogResidue, medium_bound: u64, max_attempts: u64) -> (r: Result<
    (u64, DescentFrontier<F>),
    InitSmoothingError,
>)
    requires
        p.value() > 0,
        medium_bound < 0xFFFF_FFFE_0000_0001,
    ensures
        match r {
            Ok((e, fr)) => {
                &&& e < max_attempts
                &&& forall|e2: nat|
                    e2 < e ==> #[trigger] trial_division(
                        smoothing_candidate(g.value(), h.value(), p.value(), e2),
                        primes_up_to_spec(medium_bound as nat),
                    ) is None
                &&& trial_division(
                    smoothing_candidate(g.value(), h.value(), p.value(), e as nat),
                    primes_up_to_spec(medium_bound as nat),
                ) matches Some(fs) && fresh_rational_frontier(fr.entries(), fs)
            },
            Err(err) => {
                &&& err == InitSmoothingError::NoSmoothExponent { attempts: max_attempts }
                &&& forall|e2: nat|
                    e2 < max_attempts ==> #[trigger] trial_division(
                        smoothing_candidate(g.value(), h.value(), p.value(), e2),
                        primes_up_to_spec(medium_bound as nat),
                    ) is None
            },
        },
{
    let prime_base = primes_up_to(medium_bound);
    let ghost base = prime_base@;
    proof {
        lemma_primes_at_least_two(medium_bound as nat);
        reveal(pow);
        assert(pow(g.value() as int, 0) == 1);
    }
    let mut candidate = big_rem(h, p);
    let mut e: u64 = 0;
    while e < max_attempts
        invariant
            base == prime_base@,
            base == primes_up_to_spec(medium_bound as nat),
            forall|k: int| 0 <= k < base.len() ==> #[trigger] base[k] >= 2,
            p.value() > 0,
            e <= max_attempts,
            candidate.value() == smoothing_candidate(g.value(), h.value(), p.value(), e as nat),
            forall|e2: nat|
                e2 < e ==> #[trigger] trial_division(smoothing_candidate(g.value(), h.value(), p.value(), e2), base) is None,
        decreases max_attempts - e,
    {
        let factors = trial_divide(&candidate, prime_base.as_slice());
        if let Some(fs) = factors {
            let mut frontier: DescentFrontier<F> = DescentFrontier::new();
            let mut k: usize = 0;
            while k < fs.len()
                invariant
                    k <= fs@.len(),
                    fresh_rational_frontier(frontier.entries(), fs@.take(k as int)),
                decreases fs@.len() - k,
            {
                let target = DescentTarget::Rational(fs[k]);
                let node = DescentNode { target, rewriting_relation: None, children: Vec::new(), known_log: None };
                let ghost before = frontier.entries();
                frontier.push(target, node);
                proof {
                    let fs2 = fs@.take(k + 1);
                    assert forall|i: int| 0 <= i < frontier.entries().len() implies {
                        &&& (#[trigger] frontier.entries()[i]).0 == DescentTarget::Rational(fs2[i])
                        &&& frontier.entries()[i].1.target == DescentTarget::Rational(fs2[i])
                        &&& frontier.entries()[i].1.rewriting_relation is None
                        &&& frontier.entries()[i].1.children@.len() == 0
                        &&& frontier.entries()[i].1.known_log is None
                    } by {
                        if i < k {
                            assert(frontier.entries()[i] == before[i]);
                            assert(fs2[i] == fs@.take(k as int)[i]);
                        }
                    }
                }
                k = k + 1;
            }
            assert(fs@.take(k as int) =~= fs@);
            return Ok((e, frontier));
        }
        let prod = big_mul(&candidate, g);
        candidate = big_rem(&prod, p);
        proof {
            lemma_candidate_step(g.value(), h.value(), p.value(), e as nat);
        }
        e = e + 1;
    }
    Err(InitSmoothingError::NoSmoothExponent { attempts: max_attempts })
}

} // verus!
