//! The resolver: conflict-driven dependency solving in the PubGrub style.
//!
//! The engine maintains a partial solution (an append-only log of decisions
//! and derivations with decision levels) and a store of incompatibilities
//! (sets of terms that cannot all hold, forming a derivation DAG through
//! indices into the store). It alternates unit propagation, conflict
//! resolution with backtracking, and decision making, until it either
//! completes a total assignment or derives the empty incompatibility,
//! which proves unsatisfiability.
//!
//! A successful result is re-validated by the exact solution checker, so
//! every `Ok` carries the full validity property; a step budget bounds the
//! search and surfaces as a distinct cancelled outcome when exhausted.

use vstd::prelude::*;
use crate::adapter::{DepsError, a_contains, a_rels, adapter_candidates, adapter_deps};
use crate::maps::{DepMap, VersionMap, key_contains, key_value, unique_keys};
use crate::pkg::{Pkg, PkgKey};
use crate::provider::{DepView, RegView, Registry};
use crate::range::{Interval, Range};
use crate::solution::{check_solution, valid_solution};
use crate::term::Term;
use crate::version::Version;

verus! {

/// Candidate-ordering policy: prefer the newest or the oldest version.
#[derive(Debug, Clone, Copy, PartialEq, Eq, Structural)]
pub enum VersionStrategy {
    Newest,
    Oldest,
}

/// How resolution can end without a solution.
#[derive(Debug)]
pub enum ResolutionError {
    /// No assignment satisfies the constraints; the text explains why.
    NoSolution(String),
    /// Package metadata could not be retrieved.
    ProviderError { package: Pkg, version: Option<Version>, cause: DepsError },
    /// The step budget was exhausted before resolution completed.
    Cancelled,
    /// An internal invariant was violated.
    Failure(String),
}

impl ResolutionError {
    /// A human-readable description of the failure.
    pub fn describe(&self) -> (r: String) {
        match self {
            ResolutionError::NoSolution(text) => {
                let mut s = String::from_str("No valid set of package versions exists:\n");
                s.append(text.as_str());
                s
            },
            ResolutionError::ProviderError { package, version, cause } => {
                let mut s = String::from_str("Failed to retrieve metadata of ");
                let ps = crate::report::pkg_string(package);
                s.append(ps.as_str());
                match version {
                    Some(v) => {
                        s.append(" at version ");
                        let vs = crate::report::version_string(v);
                        s.append(vs.as_str());
                    },
                    None => {},
                }
                match cause {
                    DepsError::UnknownPackage => s.append(": the package is unknown"),
                    DepsError::UnknownVersion => s.append(": the version is unknown"),
                    DepsError::MetadataUnavailable => s.append(
                        ": its dependencies are not available",
                    ),
                }
                s
            },
            ResolutionError::Cancelled => String::from_str("Dependency resolution was cancelled."),
            ResolutionError::Failure(text) => {
                let mut s = String::from_str(
                    "An unrecoverable error happened while solving dependencies: ",
                );
                s.append(text.as_str());
                s
            },
        }
    }
}

/// What a reported provider error says about the registry.
pub open spec fn provider_error_ok(
    reg: RegView,
    rootk: PkgKey,
    rootv: Version,
    rd: DepView,
    k: PkgKey,
    vopt: Option<Version>,
    cause: DepsError,
) -> bool {
    match cause {
        DepsError::UnknownPackage => !a_contains(reg, rootk, k),
        DepsError::UnknownVersion => vopt matches Some(v) && a_contains(reg, rootk, k)
            && !key_contains(a_rels(reg, rootk, rootv, rd, k), v),
        DepsError::MetadataUnavailable => vopt matches Some(v) && a_contains(reg, rootk, k)
            && key_contains(a_rels(reg, rootk, rootv, rd, k), v) && key_value(
            a_rels(reg, rootk, rootv, rd, k),
            v,
        ) is None,
    }
}

/// Why an incompatibility holds: a root fact, a no-versions fact, a
/// dependency fact, or a derivation from two earlier incompatibilities.
#[derive(Debug)]
pub enum IncompatKind {
    NotRoot,
    NoVersions { pkg: Pkg },
    FromDependency { pkg: Pkg, version: Version },
    Derived { left: usize, right: usize },
}

/// A set of package terms that cannot all hold simultaneously.
#[derive(Debug)]
pub struct Incompat {
    pub terms: Vec<(Pkg, Term)>,
    pub kind: IncompatKind,
}

/// The spec view of an incompatibility's terms.
pub open spec fn terms_view(ts: Seq<(Pkg, Term)>) -> Seq<(PkgKey, (bool, Seq<Interval>))> {
    ts.map_values(|e: (Pkg, Term)| (e.0@, e.1@))
}

/// Well-formed incompatibility at index `idx` of the store: unique package
/// keys, canonical ranges, and causes strictly earlier in the store (the
/// derivation graph is acyclic by construction).
pub open spec fn inc_wf(inc: Incompat, idx: int) -> bool {
    &&& unique_keys(terms_view(inc.terms@))
    &&& forall|t: int| 0 <= t < inc.terms@.len() ==> (#[trigger] inc.terms@[t]).1.wf()
    &&& match inc.kind {
        IncompatKind::Derived { left, right } => (left as int) < idx && (right as int) < idx,
        _ => true,
    }
}

/// The arena of incompatibilities: given facts and derived conflicts.
#[derive(Debug)]
pub struct IncompatStore {
    pub incompats: Vec<Incompat>,
}

pub open spec fn store_wf(s: Seq<Incompat>) -> bool {
    forall|i: int| 0 <= i < s.len() ==> inc_wf(#[trigger] s[i], i)
}

/// The version the world of a solution assigns to package `k`: the root's
/// fixed version, the solved version, or nothing.
pub open spec fn w_val(
    sol: Seq<(PkgKey, Version)>,
    rootk: PkgKey,
    rootv: Version,
    k: PkgKey,
) -> Option<Version> {
    if k == rootk {
        Some(rootv)
    } else if key_contains(sol, k) {
        Some(key_value(sol, k))
    } else {
        None
    }
}

/// Every term of the list is satisfied by the solution's world.
pub open spec fn terms_sat(
    ts: Seq<(Pkg, Term)>,
    sol: Seq<(PkgKey, Version)>,
    rootk: PkgKey,
    rootv: Version,
) -> bool {
    forall|i: int|
        0 <= i < ts.len() ==> (#[trigger] ts[i]).1.allows(w_val(sol, rootk, rootv, ts[i].0@))
}

/// An incompatibility is sound when no valid solution satisfies all of its
/// terms at once.
pub open spec fn inc_sound(
    inc: Incompat,
    reg: RegView,
    rootk: PkgKey,
    rootv: Version,
    rd: DepView,
) -> bool {
    forall|sol: Seq<(PkgKey, Version)>|
        #[trigger] valid_solution(reg, rootk, rootv, rd, sol) ==> !terms_sat(
            inc.terms@,
            sol,
            rootk,
            rootv,
        )
}

/// Every recorded incompatibility is sound: the derivation store only ever
/// holds facts that no valid solution can violate.
pub open spec fn store_sound(
    s: Seq<Incompat>,
    reg: RegView,
    rootk: PkgKey,
    rootv: Version,
    rd: DepView,
) -> bool {
    forall|i: int| 0 <= i < s.len() ==> inc_sound(#[trigger] s[i], reg, rootk, rootv, rd)
}

/// `k` holds an entry in the term list.
pub open spec fn has_key(ts: Seq<(Pkg, Term)>, k: PkgKey) -> bool {
    exists|a: int| 0 <= a < ts.len() && (#[trigger] ts[a]).0@ == k
}

/// Every term of every incompatibility speaks about package `k` alone.
pub open spec fn store_only(s: Seq<Incompat>, k: PkgKey) -> bool {
    forall|i: int, t: int|
        0 <= i < s.len() && 0 <= t < s[i].terms@.len() ==> (#[trigger] s[i].terms@[t]).0@ == k
}

/// Every assignment of the log speaks about package `k` alone.
pub open spec fn log_only(log: Seq<Assignment>, k: PkgKey) -> bool {
    forall|i: int| 0 <= i < log.len() ==> (#[trigger] log[i]).pkg@ == k
}

/// One assignment of the partial solution.
#[derive(Debug)]
pub enum AssignKind {
    /// A tried exact version.
    Decision(Version),
    /// A range constraint derived from the incompatibility at `cause`.
    Derivation { term: Term, cause: usize },
}

#[derive(Debug)]
pub struct Assignment {
    pub pkg: Pkg,
    pub kind: AssignKind,
    pub level: usize,
}

/// The resolver's in-progress record: an append-only log plus the current
/// decision level; backtracking truncates the log at a level boundary.
#[derive(Debug)]
pub struct PartialSolution {
    pub log: Vec<Assignment>,
    pub level: usize,
}

pub open spec fn assign_term_wf(a: Assignment) -> bool {
    match a.kind {
        AssignKind::Decision(v) => v.patch < u64::MAX,
        AssignKind::Derivation { term, cause } => term.wf(),
    }
}

pub open spec fn assign_cause_ok(a: Assignment, nstore: int) -> bool {
    match a.kind {
        AssignKind::Derivation { term, cause } => (cause as int) < nstore,
        _ => true,
    }
}

pub open spec fn log_terms_wf(log: Seq<Assignment>) -> bool {
    forall|i: int| 0 <= i < log.len() ==> assign_term_wf(#[trigger] log[i])
}

pub open spec fn ps_wf(ps: PartialSolution, nstore: int) -> bool {
    &&& log_terms_wf(ps.log@)
    &&& forall|i: int| 0 <= i < ps.log@.len() ==> assign_cause_ok(#[trigger] ps.log@[i], nstore)
    &&& forall|i: int| 0 <= i < ps.log@.len() ==> (#[trigger] ps.log@[i]).level <= ps.level
    &&& forall|i: int, j: int|
        0 <= i < j < ps.log@.len() ==> (#[trigger] ps.log@[i]).level <= (
        #[trigger] ps.log@[j]).level
    &&& forall|i: int, j: int|
        0 <= i < j < ps.log@.len() ==> !((#[trigger] ps.log@[i]).kind is Decision && (
        #[trigger] ps.log@[j]).kind is Decision && ps.log@[i].pkg@ == ps.log@[j].pkg@)
}

/// The accumulated constraint on `p`: the intersection of all terms the
/// partial solution records for it, or `None` when nothing constrains it.
fn accumulated(ps: &PartialSolution, p: &Pkg) -> (r: Option<Term>)
    requires
        log_terms_wf(ps.log@),
    ensures
        r matches Some(t) ==> t.wf(),
{
    let n = ps.log.len();
    let mut acc: Option<Term> = None;
    let mut i: usize = 0;
    while i < n
        invariant
            log_terms_wf(ps.log@),
            n == ps.log@.len(),
            0 <= i <= n,
            acc matches Some(t) ==> t.wf(),
        decreases n - i,
    {
        if ps.log[i].pkg.eq_pkg(p) {
            assert(assign_term_wf(ps.log@[i as int]));
            let t = match &ps.log[i].kind {
                AssignKind::Decision(v) => Term::positive(Range::exact(*v)),
                AssignKind::Derivation { term, cause } => term.duplicate(),
            };
            acc = match &acc {
                None => Some(t),
                Some(a) => Some(a.intersect(&t)),
            };
        }
        i += 1;
    }
    acc
}

/// Is there a decision for package `k` in the log?
pub open spec fn spec_has_decision(log: Seq<Assignment>, k: PkgKey) -> bool {
    exists|i: int|
        0 <= i < log.len() && (#[trigger] log[i]).pkg@ == k && log[i].kind is Decision
}

fn has_decision(ps: &PartialSolution, p: &Pkg) -> (r: bool)
    ensures
        r == spec_has_decision(ps.log@, p@),
{
    let n = ps.log.len();
    let mut i: usize = 0;
    while i < n
        invariant
            n == ps.log@.len(),
            0 <= i <= n,
            forall|t: int|
                0 <= t < i ==> !((#[trigger] ps.log@[t]).pkg@ == p@ && ps.log@[t].kind
                    is Decision),
        decreases n - i,
    {
        let is_dec = match &ps.log[i].kind {
            AssignKind::Decision(_) => true,
            _ => false,
        };
        if is_dec && ps.log[i].pkg.eq_pkg(p) {
            assert(ps.log@[i as int].pkg@ == p@ && ps.log@[i as int].kind is Decision);
            return true;
        }
        i += 1;
    }
    false
}

/// How an incompatibility relates to the partial solution.
pub enum Relation {
    /// All terms hold: the partial solution violates this incompatibility.
    Satisfied,
    /// All terms but the one at this index hold.
    Almost(usize),
    /// Some term cannot hold: the incompatibility cannot fire.
    Contradicted,
    /// More than one term is undetermined.
    Inconclusive,
}

/// Is the term satisfied / contradicted by the accumulated constraint?
fn term_status(acc: &Option<Term>, t: &Term) -> (r: (bool, bool))
    requires
        acc matches Some(a) ==> a.wf(),
        t.wf(),
{
    match acc {
        None => {
            let empty = t.range.is_empty();
            ((!t.positive && empty), (t.positive && empty))
        },
        Some(a) => (a.subset_of(t), a.disjoint_from(t)),
    }
}

/// Classify `inc` against the partial solution.
fn relation(ps: &PartialSolution, inc: &Incompat) -> (r: Relation)
    requires
        log_terms_wf(ps.log@),
        forall|t: int| 0 <= t < inc.terms@.len() ==> (#[trigger] inc.terms@[t]).1.wf(),
    ensures
        r matches Relation::Almost(ti) ==> ti < inc.terms@.len(),
{
    let n = inc.terms.len();
    let mut unsat: Option<usize> = None;
    let mut ti: usize = 0;
    while ti < n
        invariant
            log_terms_wf(ps.log@),
            forall|t: int| 0 <= t < inc.terms@.len() ==> (#[trigger] inc.terms@[t]).1.wf(),
            n == inc.terms@.len(),
            0 <= ti <= n,
            unsat matches Some(u) ==> u < n,
        decreases n - ti,
    {
        let acc = accumulated(ps, &inc.terms[ti].0);
        let (sat, contra) = term_status(&acc, &inc.terms[ti].1);
        if sat {
        } else if contra {
            return Relation::Contradicted;
        } else {
            if unsat.is_some() {
                return Relation::Inconclusive;
            }
            unsat = Some(ti);
        }
        ti += 1;
    }
    match unsat {
        None => Relation::Satisfied,
        Some(u) => Relation::Almost(u),
    }
}

/// The result of unit propagation.
pub enum Propagation {
    Fixpoint,
    Conflict(usize),
}

/// Unit propagation: repeatedly derive the negation of the one open term
/// of any almost-satisfied incompatibility, until a fixpoint or a conflict.
fn propagate(store: &IncompatStore, ps: &mut PartialSolution, fuel: &mut u64) -> (r: Propagation)
    requires
        store_wf(store.incompats@),
        ps_wf(*old(ps), store.incompats@.len() as int),
    ensures
        ps_wf(*final(ps), store.incompats@.len() as int),
        final(ps).level == old(ps).level,
        *final(fuel) <= *old(fuel),
        r matches Propagation::Conflict(i) ==> i < store.incompats@.len(),
        forall|k: PkgKey|
            store_only(store.incompats@, k) && log_only(old(ps).log@, k) ==> #[trigger] log_only(
                final(ps).log@,
                k,
            ),
{
    let n = store.incompats.len();
    loop
        invariant
            store_wf(store.incompats@),
            ps_wf(*ps, store.incompats@.len() as int),
            ps.level == old(ps).level,
            n == store.incompats@.len(),
            *fuel <= *old(fuel),
            forall|k: PkgKey|
                store_only(store.incompats@, k) && log_only(old(ps).log@, k)
                    ==> #[trigger] log_only(ps.log@, k),
        decreases *fuel,
    {
        if *fuel == 0 {
            return Propagation::Fixpoint;
        }
        *fuel = *fuel - 1;
        let mut progressed = false;
        let mut idx: usize = 0;
        while idx < n
            invariant
                store_wf(store.incompats@),
                ps_wf(*ps, store.incompats@.len() as int),
                ps.level == old(ps).level,
                n == store.incompats@.len(),
                0 <= idx <= n,
                *fuel <= *old(fuel),
                forall|k: PkgKey|
                    store_only(store.incompats@, k) && log_only(old(ps).log@, k)
                        ==> #[trigger] log_only(ps.log@, k),
            decreases n - idx,
        {
            assert(inc_wf(store.incompats@[idx as int], idx as int));
            match relation(ps, &store.incompats[idx]) {
                Relation::Satisfied => {
                    return Propagation::Conflict(idx);
                },
                Relation::Almost(ti) => {
                    let pkg = store.incompats[idx].terms[ti].0.duplicate();
                    let term = store.incompats[idx].terms[ti].1.negate();
                    let a = Assignment {
                        pkg,
                        kind: AssignKind::Derivation { term, cause: idx },
                        level: ps.level,
                    };
                    let ghost pre = ps.log@;
                    ps.log.push(a);
                    proof {
                        assert forall|i: int| 0 <= i < ps.log@.len() implies assign_term_wf(
                            #[trigger] ps.log@[i],
                        ) && assign_cause_ok(ps.log@[i], store.incompats@.len() as int) by {
                            if i < pre.len() {
                                assert(ps.log@[i] == pre[i]);
                            }
                        }
                        // a derivation's package comes from the store's terms
                        assert forall|k: PkgKey|
                            store_only(store.incompats@, k) && log_only(old(ps).log@, k) implies
                            #[trigger] log_only(ps.log@, k) by {
                            if store_only(store.incompats@, k) && log_only(old(ps).log@, k) {
                                assert(log_only(pre, k));
                                assert forall|i: int| 0 <= i < ps.log@.len() implies (
                                #[trigger] ps.log@[i]).pkg@ == k by {
                                    if i < pre.len() {
                                        assert(ps.log@[i] == pre[i]);
                                    } else {
                                        assert(store.incompats@[idx as int].terms@[ti as int].0@
                                            == k);
                                    }
                                }
                            }
                        }
                    }
                    progressed = true;
                },
                _ => {},
            }
            if progressed {
                break;
            }
            idx += 1;
        }
        if !progressed {
            return Propagation::Fixpoint;
        }
    }
}

/// The first point in the log at which the accumulated constraint on `p`
/// satisfies the term `t` (the term's satisfaction index).
fn satisfaction_index(ps: &PartialSolution, p: &Pkg, t: &Term) -> (r: Option<usize>)
    requires
        log_terms_wf(ps.log@),
        t.wf(),
    ensures
        r matches Some(s) ==> s < ps.log@.len(),
{
    let n = ps.log.len();
    let mut acc: Option<Term> = None;
    let mut i: usize = 0;
    while i < n
        invariant
            log_terms_wf(ps.log@),
            t.wf(),
            n == ps.log@.len(),
            0 <= i <= n,
            acc matches Some(a) ==> a.wf(),
        decreases n - i,
    {
        if ps.log[i].pkg.eq_pkg(p) {
            assert(assign_term_wf(ps.log@[i as int]));
            let t2 = match &ps.log[i].kind {
                AssignKind::Decision(v) => Term::positive(Range::exact(*v)),
                AssignKind::Derivation { term, cause } => term.duplicate(),
            };
            acc = match &acc {
                None => Some(t2),
                Some(a) => Some(a.intersect(&t2)),
            };
            let (sat, _) = term_status(&acc, t);
            if sat {
                return Some(i);
            }
        }
        i += 1;
    }
    None
}

/// Does any term of `ts` speak about package `p`?
fn find_term(ts: &Vec<(Pkg, Term)>, p: &Pkg) -> (r: Option<usize>)
    ensures
        match r {
            Some(i) => i < ts@.len() && ts@[i as int].0@ == p@,
            None => forall|t: int| 0 <= t < ts@.len() ==> (#[trigger] ts@[t]).0@ != p@,
        },
{
    let n = ts.len();
    let mut i: usize = 0;
    while i < n
        invariant
            n == ts@.len(),
            0 <= i <= n,
            forall|t: int| 0 <= t < i ==> (#[trigger] ts@[t]).0@ != p@,
        decreases n - i,
    {
        if ts[i].0.eq_pkg(p) {
            return Some(i);
        }
        i += 1;
    }
    None
}

/// A term that every assignment satisfies carries no information.
fn is_vacuous(t: &Term) -> (r: bool)
    requires
        t.wf(),
    ensures
        r ==> forall|val: Option<Version>| #[trigger] t.allows(val),
{
    let r = !t.positive && t.range.is_empty();
    proof {
        if r {
            assert forall|val: Option<Version>| #[trigger] t.allows(val) by {
                if val is Some {
                    assert(!t.range.sem(val->0));
                }
            }
        }
    }
    r
}

/// Merge `(p, t)` into an under-construction term list, intersecting with
/// an existing term for `p` if there is one. A vacuous term (one satisfied
/// by every assignment) carries no information and is skipped.
fn merge_term(out: &mut Vec<(Pkg, Term)>, p: &Pkg, t: Term)
    requires
        t.wf(),
        unique_keys(terms_view(old(out)@)),
        forall|i: int| 0 <= i < old(out)@.len() ==> (#[trigger] old(out)@[i]).1.wf(),
    ensures
        unique_keys(terms_view(final(out)@)),
        forall|i: int| 0 <= i < final(out)@.len() ==> (#[trigger] final(out)@[i]).1.wf(),
        forall|sol: Seq<(PkgKey, Version)>, rootk: PkgKey, rootv: Version|
            #[trigger] terms_sat(final(out)@, sol, rootk, rootv) ==> terms_sat(
                old(out)@,
                sol,
                rootk,
                rootv,
            ) && t.allows(w_val(sol, rootk, rootv, p@)),
        forall|k: PkgKey| #[trigger] has_key(final(out)@, k) ==> has_key(old(out)@, k) || k == p@,
{
    if is_vacuous(&t) {
        proof {
            assert forall|sol: Seq<(PkgKey, Version)>, rootk: PkgKey, rootv: Version|
                #[trigger] terms_sat(out@, sol, rootk, rootv) implies terms_sat(
                old(out)@,
                sol,
                rootk,
                rootv,
            ) && t.allows(w_val(sol, rootk, rootv, p@)) by {}
            assert forall|k: PkgKey| #[trigger] has_key(out@, k) implies has_key(old(out)@, k)
                || k == p@ by {}
        }
        return;
    }
    let ghost pre = out@;
    match find_term(out, p) {
        Some(i) => {
            let merged = out[i].1.intersect(&t);
            let ghost old_term = out@[i as int].1;
            let pk = out[i].0.duplicate();
            out.set(i, (pk, merged));
            proof {
                assert forall|sol: Seq<(PkgKey, Version)>, rootk: PkgKey, rootv: Version|
                    #[trigger] terms_sat(out@, sol, rootk, rootv) implies terms_sat(
                    pre,
                    sol,
                    rootk,
                    rootv,
                ) && t.allows(w_val(sol, rootk, rootv, p@)) by {
                    assert(out@[i as int].1.allows(w_val(sol, rootk, rootv, out@[i as int].0@)));
                    assert(out@[i as int].0@ == p@);
                    assert(merged.allows(w_val(sol, rootk, rootv, p@)));
                    assert(old_term.allows(w_val(sol, rootk, rootv, p@)) && t.allows(
                        w_val(sol, rootk, rootv, p@),
                    ));
                    assert forall|j: int| 0 <= j < pre.len() implies (#[trigger] pre[j]).1.allows(
                        w_val(sol, rootk, rootv, pre[j].0@),
                    ) by {
                        if j != i {
                            assert(out@[j] == pre[j]);
                            assert(out@[j].1.allows(w_val(sol, rootk, rootv, out@[j].0@)));
                        }
                    }
                }
                let tv_pre = terms_view(pre);
                let tv_post = terms_view(out@);
                assert forall|a: int, b: int| 0 <= a < b < tv_post.len() implies (
                #[trigger] tv_post[a]).0 != (#[trigger] tv_post[b]).0 by {
                    assert(tv_pre[a].0 == pre[a].0@);
                    assert(tv_pre[b].0 == pre[b].0@);
                    assert(tv_post[a].0 == out@[a].0@);
                    assert(tv_post[b].0 == out@[b].0@);
                    assert(tv_pre[a].0 != tv_pre[b].0);
                }
                assert forall|i2: int| 0 <= i2 < out@.len() implies (#[trigger] out@[i2]).1.wf()
                    by {
                    if i2 != i {
                        assert(out@[i2] == pre[i2]);
                    }
                }
                assert forall|k: PkgKey| #[trigger] has_key(out@, k) implies has_key(pre, k)
                    || k == p@ by {
                    let a = choose|a: int| 0 <= a < out@.len() && (#[trigger] out@[a]).0@ == k;
                    if a == i {
                        assert(out@[a].0@ == pre[i as int].0@);
                        assert(pre[i as int].0@ == p@);
                    } else {
                        assert(out@[a] == pre[a]);
                        assert(has_key(pre, k));
                    }
                }
            }
        },
        None => {
            let pk = p.duplicate();
            out.push((pk, t));
            proof {
                assert forall|sol: Seq<(PkgKey, Version)>, rootk: PkgKey, rootv: Version|
                    #[trigger] terms_sat(out@, sol, rootk, rootv) implies terms_sat(
                    pre,
                    sol,
                    rootk,
                    rootv,
                ) && t.allows(w_val(sol, rootk, rootv, p@)) by {
                    let last = out@.len() - 1;
                    assert(out@[last].1.allows(w_val(sol, rootk, rootv, out@[last].0@)));
                    assert(out@[last].0@ == p@);
                    assert forall|j: int| 0 <= j < pre.len() implies (#[trigger] pre[j]).1.allows(
                        w_val(sol, rootk, rootv, pre[j].0@),
                    ) by {
                        assert(out@[j] == pre[j]);
                        assert(out@[j].1.allows(w_val(sol, rootk, rootv, out@[j].0@)));
                    }
                }
                let tv_pre = terms_view(pre);
                let tv_post = terms_view(out@);
                assert forall|a: int, b: int| 0 <= a < b < tv_post.len() implies (
                #[trigger] tv_post[a]).0 != (#[trigger] tv_post[b]).0 by {
                    if b < pre.len() {
                        assert(tv_pre[a].0 == pre[a].0@);
                        assert(tv_pre[b].0 == pre[b].0@);
                        assert(tv_pre[a].0 != tv_pre[b].0);
                        assert(tv_post[a].0 == out@[a].0@);
                        assert(tv_post[b].0 == out@[b].0@);
                    } else {
                        assert(tv_post[b].0 == p@);
                        assert(tv_post[a].0 == pre[a].0@);
                    }
                }
                assert forall|i2: int| 0 <= i2 < out@.len() implies (#[trigger] out@[i2]).1.wf()
                    by {
                    if i2 < pre.len() {
                        assert(out@[i2] == pre[i2]);
                    }
                }
                assert forall|k: PkgKey| #[trigger] has_key(out@, k) implies has_key(pre, k)
                    || k == p@ by {
                    let a = choose|a: int| 0 <= a < out@.len() && (#[trigger] out@[a]).0@ == k;
                    if a < pre.len() {
                        assert(out@[a] == pre[a]);
                        assert(has_key(pre, k));
                    } else {
                        assert(out@[a].0@ == p@);
                    }
                }
            }
        },
    }
}

/// Resolution step: combine two incompatibilities sharing package `p`,
/// cancelling the shared package (its residual term is the union of the
/// two terms, dropped when vacuous). Any world satisfying the combined
/// incompatibility satisfies one of the two parents, so the combination is
/// as sound as they are.
#[verifier::rlimit(100)]
#[verifier::spinoff_prover]
fn resolve_incompats(store: &IncompatStore, left: usize, right: usize, p: &Pkg) -> (r: Incompat)
    requires
        store_wf(store.incompats@),
        left < store.incompats@.len(),
        right < store.incompats@.len(),
    ensures
        unique_keys(terms_view(r.terms@)),
        forall|t: int| 0 <= t < r.terms@.len() ==> (#[trigger] r.terms@[t]).1.wf(),
        r.kind matches IncompatKind::Derived { left: l, right: rr } ==> l == left && rr == right,
        r.kind is Derived,
        forall|sol: Seq<(PkgKey, Version)>, rootk: PkgKey, rootv: Version|
            #[trigger] terms_sat(r.terms@, sol, rootk, rootv) ==> (terms_sat(
                store.incompats@[left as int].terms@,
                sol,
                rootk,
                rootv,
            ) || terms_sat(store.incompats@[right as int].terms@, sol, rootk, rootv)),
        forall|k: PkgKey|
            #[trigger] has_key(r.terms@, k) ==> has_key(
                store.incompats@[left as int].terms@,
                k,
            ) || has_key(store.incompats@[right as int].terms@, k),
{
    let mut out: Vec<(Pkg, Term)> = Vec::new();
    let lterms = &store.incompats[left].terms;
    let rterms = &store.incompats[right].terms;
    proof {
        assert(inc_wf(store.incompats@[left as int], left as int));
        assert(inc_wf(store.incompats@[right as int], right as int));
    }
    let nl = lterms.len();
    let mut i: usize = 0;
    while i < nl
        invariant
            nl == lterms@.len(),
            0 <= i <= nl,
            forall|t: int| 0 <= t < lterms@.len() ==> (#[trigger] lterms@[t]).1.wf(),
            unique_keys(terms_view(out@)),
            forall|t: int| 0 <= t < out@.len() ==> (#[trigger] out@[t]).1.wf(),
            forall|sol: Seq<(PkgKey, Version)>, rootk: PkgKey, rootv: Version, t: int|
                #![trigger terms_sat(out@, sol, rootk, rootv), lterms@[t]]
                terms_sat(out@, sol, rootk, rootv) && 0 <= t < i && (lterms@[t]).0@ != p@
                    ==> lterms@[t].1.allows(w_val(sol, rootk, rootv, lterms@[t].0@)),
            forall|k: PkgKey| #[trigger] has_key(out@, k) ==> has_key(lterms@, k),
        decreases nl - i,
    {
        let ghost pre_out = out@;
        let mut copied = false;
        if !lterms[i].0.eq_pkg(p) {
            let t = lterms[i].1.duplicate();
            merge_term(&mut out, &lterms[i].0, t);
            copied = true;
        }
        proof {
            assert forall|sol: Seq<(PkgKey, Version)>, rootk: PkgKey, rootv: Version, t: int|
                #![trigger terms_sat(out@, sol, rootk, rootv), lterms@[t]]
                terms_sat(out@, sol, rootk, rootv) && 0 <= t < i + 1 && (lterms@[t]).0@ != p@
                    implies lterms@[t].1.allows(w_val(sol, rootk, rootv, lterms@[t].0@)) by {
                if copied {
                    assert(terms_sat(pre_out, sol, rootk, rootv));
                    if t == i {
                        assert(lterms@[i as int].1.allows(
                            w_val(sol, rootk, rootv, lterms@[i as int].0@),
                        ));
                    }
                } else {
                    assert(out@ == pre_out);
                    assert(t < i);
                }
            }
            assert forall|k: PkgKey| #[trigger] has_key(out@, k) implies has_key(lterms@, k) by {
                if copied {
                    if has_key(pre_out, k) {
                    } else {
                        assert(k == lterms@[i as int].0@);
                        assert(has_key(lterms@, k));
                    }
                } else {
                    assert(out@ == pre_out);
                }
            }
        }
        i += 1;
    }
    let nr = rterms.len();
    let mut j: usize = 0;
    while j < nr
        invariant
            nl == lterms@.len(),
            nr == rterms@.len(),
            0 <= j <= nr,
            forall|t: int| 0 <= t < rterms@.len() ==> (#[trigger] rterms@[t]).1.wf(),
            unique_keys(terms_view(out@)),
            forall|t: int| 0 <= t < out@.len() ==> (#[trigger] out@[t]).1.wf(),
            forall|sol: Seq<(PkgKey, Version)>, rootk: PkgKey, rootv: Version, t: int|
                #![trigger terms_sat(out@, sol, rootk, rootv), lterms@[t]]
                terms_sat(out@, sol, rootk, rootv) && 0 <= t < nl && (lterms@[t]).0@ != p@
                    ==> lterms@[t].1.allows(w_val(sol, rootk, rootv, lterms@[t].0@)),
            forall|sol: Seq<(PkgKey, Version)>, rootk: PkgKey, rootv: Version, t: int|
                #![trigger terms_sat(out@, sol, rootk, rootv), rterms@[t]]
                terms_sat(out@, sol, rootk, rootv) && 0 <= t < j && (rterms@[t]).0@ != p@
                    ==> rterms@[t].1.allows(w_val(sol, rootk, rootv, rterms@[t].0@)),
            forall|k: PkgKey|
                #[trigger] has_key(out@, k) ==> has_key(lterms@, k) || has_key(rterms@, k),
        decreases nr - j,
    {
        let ghost pre_out = out@;
        let mut copied = false;
        if !rterms[j].0.eq_pkg(p) {
            let t = rterms[j].1.duplicate();
            merge_term(&mut out, &rterms[j].0, t);
            copied = true;
        }
        proof {
            if copied {
                assert forall|sol: Seq<(PkgKey, Version)>, rootk: PkgKey, rootv: Version|
                    #[trigger] terms_sat(out@, sol, rootk, rootv) implies terms_sat(
                    pre_out,
                    sol,
                    rootk,
                    rootv,
                ) by {}
            }
            assert forall|sol: Seq<(PkgKey, Version)>, rootk: PkgKey, rootv: Version, t: int|
                #![trigger terms_sat(out@, sol, rootk, rootv), rterms@[t]]
                terms_sat(out@, sol, rootk, rootv) && 0 <= t < j + 1 && (rterms@[t]).0@ != p@
                    implies rterms@[t].1.allows(w_val(sol, rootk, rootv, rterms@[t].0@)) by {
                if copied {
                    assert(terms_sat(pre_out, sol, rootk, rootv));
                    if t == j {
                        assert(rterms@[j as int].1.allows(
                            w_val(sol, rootk, rootv, rterms@[j as int].0@),
                        ));
                    }
                } else {
                    assert(out@ == pre_out);
                    assert(t < j);
                }
            }
            assert forall|k: PkgKey| #[trigger] has_key(out@, k) implies has_key(lterms@, k)
                || has_key(rterms@, k) by {
                if copied {
                    if has_key(pre_out, k) {
                    } else {
                        assert(k == rterms@[j as int].0@);
                        assert(has_key(rterms@, k));
                    }
                } else {
                    assert(out@ == pre_out);
                }
            }
        }
        j += 1;
    }
    // the shared package's residual term: satisfied only when one parent's
    // own term for `p` is satisfied
    let ghost pre_res = out@;
    let lt = find_term(lterms, p);
    let rt = find_term(rterms, p);
    match (lt, rt) {
        (Some(li), Some(ri)) => {
            let u = lterms[li].1.union(&rterms[ri].1);
            if !is_vacuous(&u) {
                merge_term(&mut out, p, u);
            }
            proof {
                assert forall|sol: Seq<(PkgKey, Version)>, rootk: PkgKey, rootv: Version|
                    #[trigger] terms_sat(out@, sol, rootk, rootv) implies (terms_sat(
                    lterms@,
                    sol,
                    rootk,
                    rootv,
                ) || terms_sat(rterms@, sol, rootk, rootv)) by {
                    assert(terms_sat(pre_res, sol, rootk, rootv));
                    assert(u.allows(w_val(sol, rootk, rootv, p@)));
                    if lterms@[li as int].1.allows(w_val(sol, rootk, rootv, p@)) {
                        assert forall|t: int| 0 <= t < lterms@.len() implies (
                        #[trigger] lterms@[t]).1.allows(
                            w_val(sol, rootk, rootv, lterms@[t].0@),
                        ) by {
                            if lterms@[t].0@ == p@ {
                                lemma_unique_term_index(lterms@, t, li as int);
                            }
                        }
                    } else {
                        assert(rterms@[ri as int].1.allows(w_val(sol, rootk, rootv, p@)));
                        assert forall|t: int| 0 <= t < rterms@.len() implies (
                        #[trigger] rterms@[t]).1.allows(
                            w_val(sol, rootk, rootv, rterms@[t].0@),
                        ) by {
                            if rterms@[t].0@ == p@ {
                                lemma_unique_term_index(rterms@, t, ri as int);
                            }
                        }
                    }
                }
            }
        },
        (Some(li), None) => {
            let u = lterms[li].1.duplicate();
            merge_term(&mut out, p, u);
            proof {
                assert forall|sol: Seq<(PkgKey, Version)>, rootk: PkgKey, rootv: Version|
                    #[trigger] terms_sat(out@, sol, rootk, rootv) implies terms_sat(
                    rterms@,
                    sol,
                    rootk,
                    rootv,
                ) by {
                    assert(terms_sat(pre_res, sol, rootk, rootv));
                    assert forall|t: int| 0 <= t < rterms@.len() implies (
                    #[trigger] rterms@[t]).1.allows(w_val(sol, rootk, rootv, rterms@[t].0@)) by {
                        assert(rterms@[t].0@ != p@);
                    }
                }
            }
        },
        (None, Some(ri)) => {
            let u = rterms[ri].1.duplicate();
            merge_term(&mut out, p, u);
            proof {
                assert forall|sol: Seq<(PkgKey, Version)>, rootk: PkgKey, rootv: Version|
                    #[trigger] terms_sat(out@, sol, rootk, rootv) implies terms_sat(
                    lterms@,
                    sol,
                    rootk,
                    rootv,
                ) by {
                    assert(terms_sat(pre_res, sol, rootk, rootv));
                    assert forall|t: int| 0 <= t < lterms@.len() implies (
                    #[trigger] lterms@[t]).1.allows(w_val(sol, rootk, rootv, lterms@[t].0@)) by {
                        assert(lterms@[t].0@ != p@);
                    }
                }
            }
        },
        (None, None) => {
            proof {
                assert forall|sol: Seq<(PkgKey, Version)>, rootk: PkgKey, rootv: Version|
                    #[trigger] terms_sat(out@, sol, rootk, rootv) implies terms_sat(
                    lterms@,
                    sol,
                    rootk,
                    rootv,
                ) by {
                    assert forall|t: int| 0 <= t < lterms@.len() implies (
                    #[trigger] lterms@[t]).1.allows(w_val(sol, rootk, rootv, lterms@[t].0@)) by {
                        assert(lterms@[t].0@ != p@);
                    }
                }
            }
        },
    }
    proof {
        // the residual merge only adds the shared package, which belongs
        // to whichever parent carries a term for it
        assert forall|k: PkgKey| #[trigger] has_key(out@, k) implies has_key(lterms@, k)
            || has_key(rterms@, k) by {
            if !has_key(pre_res, k) {
                assert(k == p@);
                match (lt, rt) {
                    (Some(li), _) => {
                        assert(lterms@[li as int].0@ == p@);
                        assert(has_key(lterms@, k));
                    },
                    (None, Some(ri)) => {
                        assert(rterms@[ri as int].0@ == p@);
                        assert(has_key(rterms@, k));
                    },
                    (None, None) => {
                        assert(out@ == pre_res);
                        assert(false);
                    },
                }
            }
        }
    }
    Incompat { terms: out, kind: IncompatKind::Derived { left, right } }
}

/// With unique term keys, two terms sharing a key share the index.
proof fn lemma_unique_term_index(ts: Seq<(Pkg, Term)>, a: int, b: int)
    requires
        unique_keys(terms_view(ts)),
        0 <= a < ts.len(),
        0 <= b < ts.len(),
        ts[a].0@ == ts[b].0@,
    ensures
        a == b,
{
    let tv = terms_view(ts);
    if a < b {
        assert(tv[a].0 == ts[a].0@ && tv[b].0 == ts[b].0@);
        assert(tv[a].0 != tv[b].0);
        assert(false);
    } else if b < a {
        assert(tv[a].0 == ts[a].0@ && tv[b].0 == ts[b].0@);
        assert(tv[b].0 != tv[a].0);
        assert(false);
    }
}

/// Truncate the partial solution back to decision level `lvl`.
fn backtrack(ps: &mut PartialSolution, lvl: usize, Ghost(nstore): Ghost<int>)
    requires
        ps_wf(*old(ps), nstore),
        lvl <= old(ps).level,
    ensures
        ps_wf(*final(ps), nstore),
        final(ps).level == lvl,
        forall|k: PkgKey|
            log_only(old(ps).log@, k) ==> #[trigger] log_only(final(ps).log@, k),
{
    let mut keep = true;
    while keep
        invariant
            ps_wf(*ps, nstore),
            ps.level == old(ps).level,
            forall|k: PkgKey|
                log_only(old(ps).log@, k) ==> #[trigger] log_only(ps.log@, k),
            !keep ==> (ps.log@.len() == 0 || ps.log@[ps.log@.len() - 1].level <= lvl),
        decreases ps.log@.len() + if keep {
            1int
        } else {
            0int
        },
    {
        let n = ps.log.len();
        if n == 0 {
            keep = false;
        } else if ps.log[n - 1].level <= lvl {
            keep = false;
        } else {
            let ghost prelog = ps.log@;
            ps.log.pop();
            proof {
                assert forall|k: PkgKey| log_only(old(ps).log@, k) implies #[trigger] log_only(
                    ps.log@,
                    k,
                ) by {
                    if log_only(old(ps).log@, k) {
                        assert(log_only(prelog, k));
                        assert forall|i: int| 0 <= i < ps.log@.len() implies (
                        #[trigger] ps.log@[i]).pkg@ == k by {
                            assert(ps.log@[i] == prelog[i]);
                        }
                    }
                }
            }
        }
    }
    let ghost pre = ps.log@;
    ps.level = lvl;
    proof {
        if pre.len() > 0 {
            assert forall|i: int| 0 <= i < pre.len() implies (#[trigger] pre[i]).level <= lvl by {
                assert(pre[i].level <= pre[pre.len() - 1].level);
            }
        }
    }
}

/// The outcome of conflict resolution.
pub enum CrOutcome {
    /// The empty incompatibility was derived: unsatisfiability is proven,
    /// rooted at this store index.
    ProvenUnsat(usize),
    /// A learned incompatibility was recorded and the solution backtracked.
    Resolved,
    /// The walk could not continue (out of budget, or no satisfier).
    Broken,
}

/// Walk backward through the derivation history, combining the conflicting
/// incompatibility with the cause of its most recent satisfier until it can
/// be resolved by backtracking, or until it becomes the empty (always
/// false) incompatibility, which proves unsatisfiability.
fn conflict_resolution(
    store: &mut IncompatStore,
    ps: &mut PartialSolution,
    start: usize,
    fuel: &mut u64,
    Ghost(ctx): Ghost<(RegView, PkgKey, Version, DepView)>,
) -> (r: CrOutcome)
    requires
        store_wf(old(store).incompats@),
        store_sound(old(store).incompats@, ctx.0, ctx.1, ctx.2, ctx.3),
        ps_wf(*old(ps), old(store).incompats@.len() as int),
        start < old(store).incompats@.len(),
    ensures
        store_wf(final(store).incompats@),
        store_sound(final(store).incompats@, ctx.0, ctx.1, ctx.2, ctx.3),
        final(store).incompats@.len() >= old(store).incompats@.len(),
        ps_wf(*final(ps), final(store).incompats@.len() as int),
        *final(fuel) <= *old(fuel),
        r matches CrOutcome::ProvenUnsat(i) ==> i < final(store).incompats@.len()
            && final(store).incompats@[i as int].terms@.len() == 0,
        forall|k: PkgKey|
            store_only(old(store).incompats@, k) ==> #[trigger] store_only(
                final(store).incompats@,
                k,
            ),
        forall|k: PkgKey|
            log_only(old(ps).log@, k) ==> #[trigger] log_only(final(ps).log@, k),
{
    let mut cur = start;
    loop
        invariant
            store_wf(store.incompats@),
            store_sound(store.incompats@, ctx.0, ctx.1, ctx.2, ctx.3),
            store.incompats@.len() >= old(store).incompats@.len(),
            ps_wf(*ps, store.incompats@.len() as int),
            cur < store.incompats@.len(),
            *fuel <= *old(fuel),
            forall|k: PkgKey|
                store_only(old(store).incompats@, k) ==> #[trigger] store_only(
                    store.incompats@,
                    k,
                ),
            forall|k: PkgKey|
                log_only(old(ps).log@, k) ==> #[trigger] log_only(ps.log@, k),
        decreases *fuel,
    {
        if *fuel == 0 {
            return CrOutcome::Broken;
        }
        *fuel = *fuel - 1;
        if store.incompats[cur].terms.len() == 0 {
            return CrOutcome::ProvenUnsat(cur);
        }
        // the satisfier: the latest of the terms' satisfaction indices
        let nterms = store.incompats[cur].terms.len();
        let mut sat_idx: usize = 0;
        let mut sat_term: usize = 0;
        let mut have = false;
        let mut ti: usize = 0;
        while ti < nterms
            invariant
                store_wf(store.incompats@),
                store_sound(store.incompats@, ctx.0, ctx.1, ctx.2, ctx.3),
                store.incompats@.len() >= old(store).incompats@.len(),
                *fuel <= *old(fuel),
                ps_wf(*ps, store.incompats@.len() as int),
                cur < store.incompats@.len(),
                nterms == store.incompats@[cur as int].terms@.len(),
                0 <= ti <= nterms,
                have ==> sat_idx < ps.log@.len() && sat_term < nterms,
                forall|k: PkgKey|
                    store_only(old(store).incompats@, k) ==> #[trigger] store_only(
                        store.incompats@,
                        k,
                    ),
                forall|k: PkgKey|
                    log_only(old(ps).log@, k) ==> #[trigger] log_only(ps.log@, k),
            decreases nterms - ti,
        {
            proof {
                assert(inc_wf(store.incompats@[cur as int], cur as int));
            }
            match satisfaction_index(
                ps,
                &store.incompats[cur].terms[ti].0,
                &store.incompats[cur].terms[ti].1,
            ) {
                None => {
                    return CrOutcome::Broken;
                },
                Some(s) => {
                    if !have || s > sat_idx {
                        sat_idx = s;
                        sat_term = ti;
                    }
                    have = true;
                },
            }
            ti += 1;
        }
        if !have {
            return CrOutcome::Broken;
        }
        let satisfier_level = ps.log[sat_idx].level;
        // the highest level among the other terms' satisfaction indices
        let mut prev_level: usize = 0;
        let mut tj: usize = 0;
        while tj < nterms
            invariant
                store_wf(store.incompats@),
                store_sound(store.incompats@, ctx.0, ctx.1, ctx.2, ctx.3),
                store.incompats@.len() >= old(store).incompats@.len(),
                *fuel <= *old(fuel),
                ps_wf(*ps, store.incompats@.len() as int),
                cur < store.incompats@.len(),
                nterms == store.incompats@[cur as int].terms@.len(),
                0 <= tj <= nterms,
                sat_idx < ps.log@.len(),
                prev_level <= ps.level,
                forall|k: PkgKey|
                    store_only(old(store).incompats@, k) ==> #[trigger] store_only(
                        store.incompats@,
                        k,
                    ),
                forall|k: PkgKey|
                    log_only(old(ps).log@, k) ==> #[trigger] log_only(ps.log@, k),
            decreases nterms - tj,
        {
            proof {
                assert(inc_wf(store.incompats@[cur as int], cur as int));
            }
            if tj != sat_term {
                match satisfaction_index(
                    ps,
                    &store.incompats[cur].terms[tj].0,
                    &store.incompats[cur].terms[tj].1,
                ) {
                    None => {
                        return CrOutcome::Broken;
                    },
                    Some(s) => {
                        if ps.log[s].level > prev_level {
                            prev_level = ps.log[s].level;
                        }
                    },
                }
            }
            tj += 1;
        }
        let is_decision = match &ps.log[sat_idx].kind {
            AssignKind::Decision(_) => true,
            _ => false,
        };
        if is_decision || prev_level < satisfier_level {
            let lvl = if prev_level <= ps.level {
                prev_level
            } else {
                ps.level
            };
            backtrack(ps, lvl, Ghost(store.incompats@.len() as int));
            return CrOutcome::Resolved;
        }
        let cause = match &ps.log[sat_idx].kind {
            AssignKind::Derivation { term, cause } => *cause,
            AssignKind::Decision(_) => 0,
        };
        proof {
            assert(assign_cause_ok(ps.log@[sat_idx as int], store.incompats@.len() as int));
        }
        let spkg = ps.log[sat_idx].pkg.duplicate();
        let newinc = resolve_incompats(store, cur, cause, &spkg);
        let ghost pre = store.incompats@;
        proof {
            // the combination is sound because its two parents are
            assert forall|sol: Seq<(PkgKey, Version)>|
                #[trigger] valid_solution(ctx.0, ctx.1, ctx.2, ctx.3, sol) implies !terms_sat(
                newinc.terms@,
                sol,
                ctx.1,
                ctx.2,
            ) by {
                if terms_sat(newinc.terms@, sol, ctx.1, ctx.2) {
                    assert(inc_sound(pre[cur as int], ctx.0, ctx.1, ctx.2, ctx.3));
                    assert(inc_sound(pre[cause as int], ctx.0, ctx.1, ctx.2, ctx.3));
                    assert(false);
                }
            }
            assert(inc_sound(newinc, ctx.0, ctx.1, ctx.2, ctx.3));
        }
        store.incompats.push(newinc);
        proof {
            assert forall|i: int| 0 <= i < store.incompats@.len() implies inc_wf(
                #[trigger] store.incompats@[i],
                i,
            ) by {
                if i < pre.len() {
                    assert(store.incompats@[i] == pre[i]);
                    assert(inc_wf(pre[i], i));
                }
            }
            assert forall|i: int| 0 <= i < store.incompats@.len() implies inc_sound(
                #[trigger] store.incompats@[i],
                ctx.0,
                ctx.1,
                ctx.2,
                ctx.3,
            ) by {
                if i < pre.len() {
                    assert(store.incompats@[i] == pre[i]);
                    assert(inc_sound(pre[i], ctx.0, ctx.1, ctx.2, ctx.3));
                }
            }
            assert forall|i: int| 0 <= i < ps.log@.len() implies assign_cause_ok(
                #[trigger] ps.log@[i],
                store.incompats@.len() as int,
            ) by {
                assert(assign_cause_ok(ps.log@[i], pre.len() as int));
            }
            // the combined incompatibility's packages come from its parents
            assert forall|k: PkgKey|
                store_only(old(store).incompats@, k) implies #[trigger] store_only(
                store.incompats@,
                k,
            ) by {
                if store_only(old(store).incompats@, k) {
                    assert(store_only(pre, k));
                    assert forall|i2: int, t2: int|
                        0 <= i2 < store.incompats@.len() && 0 <= t2
                            < store.incompats@[i2].terms@.len() implies (
                        #[trigger] store.incompats@[i2].terms@[t2]).0@ == k by {
                        if i2 < pre.len() {
                            assert(store.incompats@[i2] == pre[i2]);
                            assert(pre[i2].terms@[t2].0@ == k);
                        } else {
                            let kk = newinc.terms@[t2].0@;
                            assert(newinc.terms@[t2].0@ == kk);
                            assert(has_key(newinc.terms@, kk));
                            if has_key(pre[cur as int].terms@, kk) {
                                let a = choose|a: int|
                                    0 <= a < pre[cur as int].terms@.len() && (
                                    #[trigger] pre[cur as int].terms@[a]).0@ == kk;
                                assert(pre[cur as int].terms@[a].0@ == k);
                            } else {
                                assert(has_key(pre[cause as int].terms@, kk));
                                let a = choose|a: int|
                                    0 <= a < pre[cause as int].terms@.len() && (
                                    #[trigger] pre[cause as int].terms@[a]).0@ == kk;
                                assert(pre[cause as int].terms@[a].0@ == k);
                            }
                        }
                    }
                }
            }
        }
        cur = store.incompats.len() - 1;
    }
}

/// The candidate the strategy prefers: the newest (greatest) or the oldest
/// (least) version of a strictly ascending candidate list.
fn preferred_candidate(cands: &Vec<Version>, strategy: VersionStrategy) -> (r: Version)
    requires
        cands@.len() > 0,
        forall|a: int, b: int|
            0 <= a < b < cands@.len() ==> (#[trigger] cands@[a]).spec_lt(#[trigger] cands@[b]),
    ensures
        cands@.contains(r),
        strategy == VersionStrategy::Newest ==> forall|t: int|
            0 <= t < cands@.len() ==> (#[trigger] cands@[t]).spec_le(r),
        strategy == VersionStrategy::Oldest ==> forall|t: int|
            0 <= t < cands@.len() ==> r.spec_le(#[trigger] cands@[t]),
{
    match strategy {
        VersionStrategy::Newest => {
            let r = cands[cands.len() - 1];
            proof {
                assert(cands@[cands@.len() - 1] == r);
                assert(cands@.contains(r));
                assert forall|t: int| 0 <= t < cands@.len() implies (
                #[trigger] cands@[t]).spec_le(r) by {
                    if t < cands@.len() - 1 {
                        assert(cands@[t].spec_lt(cands@[cands@.len() - 1]));
                    }
                }
            }
            r
        },
        VersionStrategy::Oldest => {
            let r = cands[0];
            proof {
                assert(cands@[0] == r);
                assert(cands@.contains(r));
                assert forall|t: int| 0 <= t < cands@.len() implies r.spec_le(
                    #[trigger] cands@[t],
                ) by {
                    if t > 0 {
                        assert(cands@[0].spec_lt(cands@[t]));
                    }
                }
            }
            r
        },
    }
}

/// The outcome of a decision step.
pub enum Decide {
    /// A decision was committed.
    Decided,
    /// New incompatibilities were recorded; propagation must run again.
    Progress,
    /// Every constrained package is decided: the assignment is total.
    Done,
    /// Resolution must stop with this error.
    Oops(ResolutionError),
}

/// Push an incompatibility whose kind is not derived and whose soundness
/// the caller has established.
fn push_fact(
    store: &mut IncompatStore,
    inc: Incompat,
    Ghost(ctx): Ghost<(RegView, PkgKey, Version, DepView)>,
)
    requires
        store_wf(old(store).incompats@),
        store_sound(old(store).incompats@, ctx.0, ctx.1, ctx.2, ctx.3),
        unique_keys(terms_view(inc.terms@)),
        forall|t: int| 0 <= t < inc.terms@.len() ==> (#[trigger] inc.terms@[t]).1.wf(),
        !(inc.kind is Derived),
        inc_sound(inc, ctx.0, ctx.1, ctx.2, ctx.3),
    ensures
        store_wf(final(store).incompats@),
        store_sound(final(store).incompats@, ctx.0, ctx.1, ctx.2, ctx.3),
        final(store).incompats@ == old(store).incompats@.push(inc),
        final(store).incompats@.len() == old(store).incompats@.len() + 1,
{
    let ghost pre = store.incompats@;
    store.incompats.push(inc);
    proof {
        assert forall|i: int| 0 <= i < store.incompats@.len() implies inc_wf(
            #[trigger] store.incompats@[i],
            i,
        ) by {
            if i < pre.len() {
                assert(store.incompats@[i] == pre[i]);
                assert(inc_wf(pre[i], i));
            }
        }
        assert forall|i: int| 0 <= i < store.incompats@.len() implies inc_sound(
            #[trigger] store.incompats@[i],
            ctx.0,
            ctx.1,
            ctx.2,
            ctx.3,
        ) by {
            if i < pre.len() {
                assert(store.incompats@[i] == pre[i]);
                assert(inc_sound(pre[i], ctx.0, ctx.1, ctx.2, ctx.3));
            }
        }
    }
}

/// Decision making: pick the undecided package with the fewest candidate
/// versions (minimizing expected backtracking; ties break on the fixed
/// order in which packages entered the partial solution, so resolution is
/// reproducible), record the dependency incompatibilities of its most
/// preferred candidate per the version strategy, and commit the decision
/// unless one of those incompatibilities would be immediately violated.
#[verifier::rlimit(100)]
#[verifier::spinoff_prover]
fn decide(
    store: &mut IncompatStore,
    ps: &mut PartialSolution,
    reg: &Registry,
    strategy: VersionStrategy,
    root: &Pkg,
    root_version: Version,
    root_deps: &DepMap,
) -> (r: Decide)
    requires
        reg.wf(),
        root_deps.wf(),
        root_version.patch < u64::MAX,
        store_wf(old(store).incompats@),
        store_sound(old(store).incompats@, reg@, root@, root_version, root_deps@),
        ps_wf(*old(ps), old(store).incompats@.len() as int),
    ensures
        store_wf(final(store).incompats@),
        store_sound(final(store).incompats@, reg@, root@, root_version, root_deps@),
        final(store).incompats@.len() >= old(store).incompats@.len(),
        ps_wf(*final(ps), final(store).incompats@.len() as int),
        (root_deps@.len() == 0 && store_only(old(store).incompats@, root@) && log_only(
            old(ps).log@,
            root@,
        )) ==> (store_only(final(store).incompats@, root@) && log_only(
            final(ps).log@,
            root@,
        )),
        r matches Decide::Oops(e) ==> !(e is NoSolution),
        r matches Decide::Oops(e) ==> (e matches ResolutionError::ProviderError {
            package,
            version,
            cause,
        } ==> provider_error_ok(
            reg@,
            root@,
            root_version,
            root_deps@,
            package@,
            version,
            cause,
        )),
{
    let ghost store0 = store.incompats@;
    let ghost log0 = ps.log@;
    let ghost onlyroot = root_deps@.len() == 0 && store_only(store0, root@) && log_only(
        log0,
        root@,
    );
    let nlog = ps.log.len();
    let mut best_pkg: Option<Pkg> = None;
    let mut best_rng: Range = Range::none();
    let mut best_cands: Vec<Version> = Vec::new();
    let mut i: usize = 0;
    while i < nlog
        invariant
            reg.wf(),
            root_deps.wf(),
            root_version.patch < u64::MAX,
            store_wf(store.incompats@),
            store_sound(store.incompats@, reg@, root@, root_version, root_deps@),
            ps_wf(*ps, store.incompats@.len() as int),
            nlog == ps.log@.len(),
            0 <= i <= nlog,
            best_pkg matches Some(bp) ==> !spec_has_decision(ps.log@, bp@),
            best_pkg matches Some(bp) ==> forall|w: Version|
                #[trigger] best_cands@.contains(w) == (crate::adapter::a_versions(
                    reg@,
                    root@,
                    root_version,
                    bp@,
                ).contains(w) && crate::range::sem_seq(best_rng@, w)),
            forall|a: int, b: int|
                0 <= a < b < best_cands@.len() ==> (#[trigger] best_cands@[a]).spec_lt(
                    #[trigger] best_cands@[b],
                ),
            store.incompats@ == store0,
            ps.log@ == log0,
            onlyroot == (root_deps@.len() == 0 && store_only(store0, root@) && log_only(
                log0,
                root@,
            )),
            onlyroot ==> (best_pkg matches Some(bp) ==> bp@ == root@),
            best_rng.wf(),
            forall|t: int| 0 <= t < best_cands@.len() ==> (#[trigger] best_cands@[t]).patch
                < u64::MAX,
        decreases nlog - i,
    {
        let mut seen = false;
        let mut j: usize = 0;
        while j < i
            invariant
                0 <= j <= i,
                i < ps.log@.len(),
            decreases i - j,
        {
            if ps.log[j].pkg.eq_pkg(&ps.log[i].pkg) {
                seen = true;
            }
            j += 1;
        }
        if !seen && !has_decision(ps, &ps.log[i].pkg) {
            let acc = accumulated(ps, &ps.log[i].pkg);
            match acc {
                Some(t) => {
                    if t.positive {
                        match adapter_candidates(reg, root, root_version, &ps.log[i].pkg, &t.range)
                        {
                            None => {
                                return Decide::Oops(
                                    ResolutionError::ProviderError {
                                        package: ps.log[i].pkg.duplicate(),
                                        version: None,
                                        cause: DepsError::UnknownPackage,
                                    },
                                );
                            },
                            Some(cands) => {
                                let replace = match &best_pkg {
                                    None => true,
                                    Some(_) => cands.len() < best_cands.len(),
                                };
                                if replace {
                                    best_pkg = Some(ps.log[i].pkg.duplicate());
                                    best_rng = t.range;
                                    best_cands = cands;
                                }
                            },
                        }
                    }
                },
                None => {},
            }
        }
        i += 1;
    }
    let p = match best_pkg {
        None => {
            return Decide::Done;
        },
        Some(p) => p,
    };
    let ghost pk = p@;
    let ghost brv = best_rng@;
    proof {
        assert(forall|w: Version|
            #[trigger] best_cands@.contains(w) == (crate::adapter::a_versions(
                reg@,
                root@,
                root_version,
                pk,
            ).contains(w) && crate::range::sem_seq(brv, w)));
    }
    if best_cands.len() == 0 {
        // no version of the package satisfies its accumulated constraint,
        // so no valid solution can select it inside that constraint
        let mut terms: Vec<(Pkg, Term)> = Vec::new();
        terms.push((p.duplicate(), Term::positive(best_rng)));
        let inc = Incompat { terms, kind: IncompatKind::NoVersions { pkg: p } };
        proof {
            assert(inc.terms@[0].0@ == pk);
            assert(inc.terms@[0].1.positive && inc.terms@[0].1.range@ == brv);
            assert forall|sol: Seq<(PkgKey, Version)>|
                #[trigger] valid_solution(reg@, root@, root_version, root_deps@, sol) implies
                !terms_sat(inc.terms@, sol, root@, root_version) by {
                if terms_sat(inc.terms@, sol, root@, root_version) {
                    assert(inc.terms@[0].1.allows(
                        w_val(sol, root@, root_version, inc.terms@[0].0@),
                    ));
                    let wv = w_val(sol, root@, root_version, pk);
                    assert(wv is Some);
                    let w = wv->0;
                    assert(crate::range::sem_seq(brv, w));
                    let avail = crate::adapter::a_versions(reg@, root@, root_version, pk);
                    if pk == root@ {
                        assert(w == root_version);
                        assert(avail[0] == root_version);
                        assert(avail.contains(w));
                    } else {
                        assert(key_contains(sol, pk) && key_value(sol, pk) == w);
                        crate::solution::lemma_selected_entry(
                            reg@,
                            root@,
                            root_version,
                            root_deps@,
                            sol,
                            pk,
                        );
                        let rels = a_rels(reg@, root@, root_version, root_deps@, pk);
                        assert(key_contains(rels, w));
                        let ti = crate::maps::key_index(rels, w);
                        assert(rels[ti].0 == w);
                        assert(avail[ti] == w);
                        assert(avail.contains(w));
                    }
                    assert(best_cands@.contains(w));
                    assert(false);
                }
            }
            assert(inc_sound(inc, reg@, root@, root_version, root_deps@));
        }
        let ghost pre_push = store.incompats@;
        push_fact(store, inc, Ghost((reg@, root@, root_version, root_deps@)));
        proof {
            assert forall|t: int| 0 <= t < ps.log@.len() implies assign_cause_ok(
                #[trigger] ps.log@[t],
                store.incompats@.len() as int,
            ) by {
                assert(assign_cause_ok(ps.log@[t], old(store).incompats@.len() as int));
            }
            if onlyroot {
                assert(pk == root@);
                assert forall|i2: int, t2: int|
                    0 <= i2 < store.incompats@.len() && 0 <= t2
                        < store.incompats@[i2].terms@.len() implies (
                    #[trigger] store.incompats@[i2].terms@[t2]).0@ == root@ by {
                    if i2 < pre_push.len() {
                        assert(store.incompats@[i2] == pre_push[i2]);
                        assert(pre_push[i2].terms@[t2].0@ == root@);
                    } else {
                        assert(store.incompats@[i2].terms@[t2].0@ == pk);
                    }
                }
                assert(store_only(store.incompats@, root@));
            }
        }
        return Decide::Progress;
    }
    // the strategy fully determines which admissible candidate is tried
    let v = preferred_candidate(&best_cands, strategy);
    proof {
        let t = choose|t: int| 0 <= t < best_cands@.len() && best_cands@[t] == v;
        assert(best_cands@[t].patch < u64::MAX);
    }
    let deps = match adapter_deps(reg, root, root_version, root_deps, &p, &v) {
        Err(e) => {
            return Decide::Oops(
                ResolutionError::ProviderError { package: p, version: Some(v), cause: e },
            );
        },
        Ok(d) => d,
    };
    proof {
        if onlyroot {
            // the only candidate package is the root, whose single version
            // carries the (empty) supplied dependency map
            assert(pk == root@);
            assert(best_cands@.contains(v));
            let avail = crate::adapter::a_versions(reg@, root@, root_version, pk);
            assert(avail.contains(v));
            let t = choose|t: int| 0 <= t < avail.len() && avail[t] == v;
            assert(v == root_version);
            let rels = a_rels(reg@, root@, root_version, root_deps@, root@);
            assert(rels == seq![(root_version, Some(root_deps@))]);
            assert(unique_keys(rels));
            crate::maps::lemma_key_at(rels, 0);
            assert(key_value(rels, root_version) == Some(root_deps@));
            assert(deps@ == root_deps@);
            assert(deps@.len() == 0);
        }
    }
    let nd = deps.len();
    let mut immediate = false;
    let mut j: usize = 0;
    while j < nd
        invariant
            reg.wf(),
            root_deps.wf(),
            deps.wf(),
            store_wf(store.incompats@),
            store_sound(store.incompats@, reg@, root@, root_version, root_deps@),
            store.incompats@.len() >= old(store).incompats@.len(),
            ps_wf(*ps, store.incompats@.len() as int),
            v.patch < u64::MAX,
            nd == deps@.len(),
            0 <= j <= nd,
            onlyroot ==> nd == 0,
            onlyroot ==> store_only(store.incompats@, root@) && log_only(ps.log@, root@),
            onlyroot == (root_deps@.len() == 0 && store_only(store0, root@) && log_only(
                log0,
                root@,
            )),
            key_value(a_rels(reg@, root@, root_version, root_deps@, p@), v) == Some(deps@),
        decreases nd - j,
    {
        let ghost pre_len = store.incompats@.len() as int;
        let d = deps.key_at(j);
        let rng = deps.range_at(j);
        let ghost dkey = d@;
        let ghost rngv = rng@;
        proof {
            assert(crate::range::wf_seq(deps@[j as int].1));
            assert(deps@[j as int] == (dkey, rngv));
        }
        if d.eq_pkg(&p) {
            // a self-dependency folds into a single term for the package
            let texact = Term::positive(Range::exact(v));
            let tneg = Term::negative(rng.duplicate());
            let t = texact.intersect(&tneg);
            let skip = t.positive && t.range.is_empty();
            if !skip {
                let tv = Term::positive(Range::exact(v));
                if tv.subset_of(&t) {
                    immediate = true;
                }
                proof {
                    assert forall|w: Version| #[trigger] crate::range::sem_seq(
                        texact.range@,
                        w,
                    ) == (w == v) by {
                        assert(texact.range.sem(w) == (w == v));
                    }
                }
                let mut terms: Vec<(Pkg, Term)> = Vec::new();
                terms.push((p.duplicate(), t));
                let inc = Incompat {
                    terms,
                    kind: IncompatKind::FromDependency { pkg: p.duplicate(), version: v },
                };
                proof {
                    assert(inc.terms@[0].0@ == p@);
                    assert forall|sol: Seq<(PkgKey, Version)>|
                        #[trigger] valid_solution(reg@, root@, root_version, root_deps@, sol)
                        implies !terms_sat(inc.terms@, sol, root@, root_version) by {
                        if terms_sat(inc.terms@, sol, root@, root_version) {
                            assert(inc.terms@[0].1.allows(
                                w_val(sol, root@, root_version, inc.terms@[0].0@),
                            ));
                            let wv = w_val(sol, root@, root_version, p@);
                            // the folded term requires p at v but outside its
                            // own declared range on itself
                            assert(texact.allows(wv) && tneg.allows(wv));
                            assert(wv is Some);
                            let w = wv->0;
                            assert(crate::range::sem_seq(texact.range@, w));
                            assert(w == v);
                            assert(!crate::range::sem_seq(rngv, v));
                            crate::solution::lemma_dep_forced(
                                reg@,
                                root@,
                                root_version,
                                root_deps@,
                                sol,
                                p@,
                                v,
                                deps@,
                                j as int,
                            );
                            assert(crate::solution::dep_entry_ok(
                                sol,
                                root@,
                                root_version,
                                dkey,
                                rngv,
                            ));
                            assert(crate::solution::world_version(
                                sol,
                                root@,
                                root_version,
                                p@,
                            ) == v);
                            assert(false);
                        }
                    }
                    assert(inc_sound(inc, reg@, root@, root_version, root_deps@));
                }
                push_fact(store, inc, Ghost((reg@, root@, root_version, root_deps@)));
            }
        } else {
            let t_p = Term::positive(Range::exact(v));
            let t_d = Term::negative(rng.duplicate());
            proof {
                assert forall|w: Version| #[trigger] crate::range::sem_seq(t_p.range@, w) == (w
                    == v) by {
                    assert(t_p.range.sem(w) == (w == v));
                }
                assert(t_d.range@ == rngv);
            }
            let accd = accumulated(ps, d);
            let (d_sat, _) = term_status(&accd, &t_d);
            if d_sat {
                immediate = true;
            }
            let mut terms: Vec<(Pkg, Term)> = Vec::new();
            terms.push((p.duplicate(), t_p));
            terms.push((d.duplicate(), t_d));
            proof {
                let tv = terms_view(terms@);
                assert(tv[0].0 == p@);
                assert(tv[1].0 == d@);
            }
            let inc = Incompat {
                terms,
                kind: IncompatKind::FromDependency { pkg: p.duplicate(), version: v },
            };
            proof {
                assert(inc.terms@[0].0@ == p@);
                assert(inc.terms@[1].0@ == dkey);
                assert forall|sol: Seq<(PkgKey, Version)>|
                    #[trigger] valid_solution(reg@, root@, root_version, root_deps@, sol) implies
                    !terms_sat(inc.terms@, sol, root@, root_version) by {
                    if terms_sat(inc.terms@, sol, root@, root_version) {
                        assert(inc.terms@[0].1.allows(
                            w_val(sol, root@, root_version, inc.terms@[0].0@),
                        ));
                        assert(inc.terms@[1].1.allows(
                            w_val(sol, root@, root_version, inc.terms@[1].0@),
                        ));
                        let wv = w_val(sol, root@, root_version, p@);
                        assert(wv is Some);
                        let w = wv->0;
                        assert(crate::range::sem_seq(inc.terms@[0].1.range@, w));
                        assert(w == v);
                        crate::solution::lemma_dep_forced(
                            reg@,
                            root@,
                            root_version,
                            root_deps@,
                            sol,
                            p@,
                            v,
                            deps@,
                            j as int,
                        );
                        assert(crate::solution::dep_entry_ok(
                            sol,
                            root@,
                            root_version,
                            dkey,
                            rngv,
                        ));
                        // the dependency is selected inside its range, which
                        // the negative term forbids
                        let dw = crate::solution::world_version(sol, root@, root_version, dkey);
                        assert(crate::range::sem_seq(rngv, dw));
                        assert(w_val(sol, root@, root_version, dkey) == Some(dw));
                        assert(!crate::range::sem_seq(inc.terms@[1].1.range@, dw));
                        assert(false);
                    }
                }
                assert(inc_sound(inc, reg@, root@, root_version, root_deps@));
            }
            push_fact(store, inc, Ghost((reg@, root@, root_version, root_deps@)));
        }
        proof {
            assert forall|t: int| 0 <= t < ps.log@.len() implies assign_cause_ok(
                #[trigger] ps.log@[t],
                store.incompats@.len() as int,
            ) by {
                assert(assign_cause_ok(ps.log@[t], pre_len));
            }
        }
        j += 1;
    }
    if immediate {
        // deciding this version would immediately violate one of its own
        // dependency incompatibilities; propagation will exclude it instead
        return Decide::Progress;
    }
    if ps.level == usize::MAX {
        return Decide::Oops(ResolutionError::Failure(String::from_str("decision level overflow")));
    }
    let ghost pre_log = ps.log@;
    proof {
        assert(!spec_has_decision(ps.log@, p@));
    }
    ps.level = ps.level + 1;
    ps.log.push(Assignment { pkg: p, kind: AssignKind::Decision(v), level: ps.level });
    proof {
        let post = ps.log@;
        assert forall|a: int, b: int| 0 <= a < b < post.len() implies !((
        #[trigger] post[a]).kind is Decision && (#[trigger] post[b]).kind is Decision
            && post[a].pkg@ == post[b].pkg@) by {
            if b < pre_log.len() {
                assert(post[a] == pre_log[a]);
                assert(post[b] == pre_log[b]);
            } else {
                assert(post[a] == pre_log[a]);
                if post[a].kind is Decision && post[a].pkg@ == post[b].pkg@ {
                    assert(spec_has_decision(pre_log, post[b].pkg@));
                }
            }
        }
        assert forall|t: int| 0 <= t < post.len() implies assign_term_wf(#[trigger] post[t])
            && assign_cause_ok(post[t], store.incompats@.len() as int) && post[t].level
            <= ps.level by {
            if t < pre_log.len() {
                assert(post[t] == pre_log[t]);
            }
        }
        if onlyroot {
            assert forall|t: int| 0 <= t < post.len() implies (#[trigger] post[t]).pkg@ == root@
                by {
                if t < pre_log.len() {
                    assert(post[t] == pre_log[t]);
                    assert(pre_log[t].pkg@ == root@);
                } else {
                    assert(post[t].pkg@ == pk);
                }
            }
            assert(log_only(post, root@));
        }
    }
    Decide::Decided
}

/// The decisions of the partial solution, as the solution map, with the
/// synthetic root left out.
fn extract_solution(ps: &PartialSolution, root: &Pkg) -> (sol: VersionMap)
    ensures
        sol.wf(),
        log_only(ps.log@, root@) ==> sol@.len() == 0,
{
    let mut sol = VersionMap::new();
    let n = ps.log.len();
    let mut i: usize = 0;
    while i < n
        invariant
            sol.wf(),
            n == ps.log@.len(),
            0 <= i <= n,
            log_only(ps.log@, root@) ==> sol@.len() == 0,
        decreases n - i,
    {
        match &ps.log[i].kind {
            AssignKind::Decision(v) => {
                if !ps.log[i].pkg.eq_pkg(root) {
                    sol.insert(ps.log[i].pkg.duplicate(), *v);
                }
            },
            _ => {},
        }
        i += 1;
    }
    sol
}

/// Resolve the project's dependencies against the registry.
///
/// Either a total assignment is found — then it is returned as a solution
/// that provably satisfies every constraint (and never contains the
/// synthetic root) — or resolution fails: with a rendered unsatisfiability
/// proof, with a provider error naming the package whose metadata is
/// missing, or with a cancelled outcome when the step budget runs out.
pub fn resolve(
    reg: &Registry,
    strategy: VersionStrategy,
    root: &Pkg,
    root_version: Version,
    root_deps: &DepMap,
    fuel: u64,
) -> (r: Result<VersionMap, ResolutionError>)
    requires
        reg.wf(),
        root_deps.wf(),
        root_version.patch < u64::MAX,
    ensures
        r matches Ok(sol) ==> sol.wf() && valid_solution(
            reg@,
            root@,
            root_version,
            root_deps@,
            sol@,
        ),
        r matches Err(ResolutionError::ProviderError { package, version, cause })
            ==> provider_error_ok(
            reg@,
            root@,
            root_version,
            root_deps@,
            package@,
            version,
            cause,
        ),
        r matches Err(ResolutionError::NoSolution(_)) ==> forall|sol: Seq<(PkgKey, Version)>|
            !(#[trigger] valid_solution(reg@, root@, root_version, root_deps@, sol)),
        root_deps@.len() == 0 ==> (r matches Ok(sol) ==> sol@.len() == 0),
{
    let mut store = IncompatStore { incompats: Vec::new() };
    // seed fact: the root package must be selected at its version
    let seed_range = Range::exact(root_version);
    proof {
        assert forall|w: Version| #[trigger] crate::range::sem_seq(seed_range@, w) == (w
            == root_version) by {
            assert(seed_range.sem(w) == (w == root_version));
        }
    }
    let mut seed_terms: Vec<(Pkg, Term)> = Vec::new();
    seed_terms.push((root.duplicate(), Term::negative(seed_range)));
    let seed = Incompat { terms: seed_terms, kind: IncompatKind::NotRoot };
    proof {
        assert(store_wf(store.incompats@));
        // the seed is sound: the world always carries the root at its version
        assert(seed.terms@[0].0@ == root@);
        assert forall|sol: Seq<(PkgKey, Version)>|
            #[trigger] valid_solution(reg@, root@, root_version, root_deps@, sol) implies
            !terms_sat(seed.terms@, sol, root@, root_version) by {
            if terms_sat(seed.terms@, sol, root@, root_version) {
                assert(seed.terms@[0].1.allows(
                    w_val(sol, root@, root_version, seed.terms@[0].0@),
                ));
                assert(w_val(sol, root@, root_version, root@) == Some(root_version));
                assert(!crate::range::sem_seq(seed.terms@[0].1.range@, root_version));
                assert(false);
            }
        }
        assert(inc_sound(seed, reg@, root@, root_version, root_deps@));
    }
    push_fact(&mut store, seed, Ghost((reg@, root@, root_version, root_deps@)));
    proof {
        // with no root dependencies the search never leaves the root
        assert forall|i2: int, t2: int|
            0 <= i2 < store.incompats@.len() && 0 <= t2 < store.incompats@[i2].terms@.len()
            implies (#[trigger] store.incompats@[i2].terms@[t2]).0@ == root@ by {
            assert(i2 == 0 && t2 == 0);
        }
        assert(store_only(store.incompats@, root@));
    }
    let mut ps = PartialSolution { log: Vec::new(), level: 0 };
    let mut fuel = fuel;
    loop
        invariant
            reg.wf(),
            root_deps.wf(),
            root_version.patch < u64::MAX,
            store_wf(store.incompats@),
            store_sound(store.incompats@, reg@, root@, root_version, root_deps@),
            ps_wf(ps, store.incompats@.len() as int),
            root_deps@.len() == 0 ==> store_only(store.incompats@, root@) && log_only(
                ps.log@,
                root@,
            ),
        decreases fuel,
    {
        if fuel == 0 {
            return Err(ResolutionError::Cancelled);
        }
        fuel = fuel - 1;
        match propagate(&store, &mut ps, &mut fuel) {
            Propagation::Conflict(idx) => {
                match conflict_resolution(
                    &mut store,
                    &mut ps,
                    idx,
                    &mut fuel,
                    Ghost((reg@, root@, root_version, root_deps@)),
                ) {
                    CrOutcome::ProvenUnsat(i) => {
                        proof {
                            // an empty incompatibility is satisfied by every
                            // world, so no valid solution can exist
                            assert forall|sol: Seq<(PkgKey, Version)>|
                                !(#[trigger] valid_solution(
                                    reg@,
                                    root@,
                                    root_version,
                                    root_deps@,
                                    sol,
                                )) by {
                                if valid_solution(reg@, root@, root_version, root_deps@, sol) {
                                    assert(inc_sound(
                                        store.incompats@[i as int],
                                        reg@,
                                        root@,
                                        root_version,
                                        root_deps@,
                                    ));
                                    assert(terms_sat(
                                        store.incompats@[i as int].terms@,
                                        sol,
                                        root@,
                                        root_version,
                                    ));
                                    assert(false);
                                }
                            }
                        }
                        let text = crate::report::render(&store, i);
                        return Err(ResolutionError::NoSolution(text));
                    },
                    CrOutcome::Resolved => {},
                    CrOutcome::Broken => {
                        if fuel == 0 {
                            return Err(ResolutionError::Cancelled);
                        }
                        return Err(
                            ResolutionError::Failure(
                                String::from_str("conflict resolution found no satisfier"),
                            ),
                        );
                    },
                }
            },
            Propagation::Fixpoint => {
                if fuel == 0 {
                    return Err(ResolutionError::Cancelled);
                }
                match decide(&mut store, &mut ps, reg, strategy, root, root_version, root_deps) {
                    Decide::Decided => {},
                    Decide::Progress => {},
                    Decide::Done => {
                        let sol = extract_solution(&ps, root);
                        proof {
                            if root_deps@.len() == 0 {
                                assert(log_only(ps.log@, root@));
                                assert(sol@.len() == 0);
                            }
                        }
                        if check_solution(reg, root, root_version, root_deps, &sol) {
                            return Ok(sol);
                        }
                        return Err(
                            ResolutionError::Failure(
                                String::from_str("the computed assignment failed validation"),
                            ),
                        );
                    },
                    Decide::Oops(e) => {
                        return Err(e);
                    },
                }
            },
        }
    }
}

} // verus!
