//! Solutions: the mapping from package to exact version produced by the
//! resolver, and the validity property every returned solution satisfies.

use vstd::prelude::*;
use crate::adapter::{DepsError, a_contains, a_rels, adapter_deps};
use crate::maps::{DepMap, VersionMap, key_contains, key_index, key_value, lemma_key_at, unique_keys};
use crate::pkg::{Pkg, PkgKey};
use crate::provider::{DepView, RegView, Registry};
use crate::range::{Interval, sem_seq};
use crate::version::Version;

verus! {

/// The world described by a solution: the selected packages plus the root.
pub open spec fn world_contains(sol: Seq<(PkgKey, Version)>, rootk: PkgKey, k: PkgKey) -> bool {
    k == rootk || key_contains(sol, k)
}

/// The version the world assigns to `k`.
pub open spec fn world_version(
    sol: Seq<(PkgKey, Version)>,
    rootk: PkgKey,
    rootv: Version,
    k: PkgKey,
) -> Version {
    if k == rootk {
        rootv
    } else {
        key_value(sol, k)
    }
}

/// One dependency constraint is met: the target package is selected, at a
/// version inside the declared range.
pub open spec fn dep_entry_ok(
    sol: Seq<(PkgKey, Version)>,
    rootk: PkgKey,
    rootv: Version,
    d: PkgKey,
    rng: Seq<Interval>,
) -> bool {
    world_contains(sol, rootk, d) && sem_seq(rng, world_version(sol, rootk, rootv, d))
}

/// Every constraint of a dependency map is met by the solution.
pub open spec fn deps_ok(
    sol: Seq<(PkgKey, Version)>,
    rootk: PkgKey,
    rootv: Version,
    dm: DepView,
) -> bool {
    forall|j: int|
        0 <= j < dm.len() ==> dep_entry_ok(sol, rootk, rootv, (#[trigger] dm[j]).0, dm[j].1)
}

/// Package `k` at version `v` resolves: it is visible through the adapter,
/// `v` is one of its listed versions, its dependency metadata is known, and
/// every one of its dependencies is met by the solution.
pub open spec fn entry_ok(
    reg: RegView,
    rootk: PkgKey,
    rootv: Version,
    rd: DepView,
    sol: Seq<(PkgKey, Version)>,
    k: PkgKey,
    v: Version,
) -> bool {
    &&& a_contains(reg, rootk, k)
    &&& key_contains(a_rels(reg, rootk, rootv, rd, k), v)
    &&& key_value(a_rels(reg, rootk, rootv, rd, k), v) matches Some(dm) && deps_ok(
        sol,
        rootk,
        rootv,
        dm,
    )
}

/// A valid solution: no entry for the synthetic root, unique keys, the
/// root's direct dependencies are met, and every selected package is a
/// listed version whose dependencies are met by the solution.
pub open spec fn valid_solution(
    reg: RegView,
    rootk: PkgKey,
    rootv: Version,
    rd: DepView,
    sol: Seq<(PkgKey, Version)>,
) -> bool {
    &&& unique_keys(sol)
    &&& !key_contains(sol, rootk)
    &&& entry_ok(reg, rootk, rootv, rd, sol, rootk, rootv)
    &&& forall|i: int|
        0 <= i < sol.len() ==> entry_ok(
            reg,
            rootk,
            rootv,
            rd,
            sol,
            (#[trigger] sol[i]).0,
            sol[i].1,
        )
}

/// Every version selected by a valid solution is one listed by the
/// registry, so it inherits the registry's room for a patch successor.
pub proof fn lemma_valid_solution_versions(
    reg: RegView,
    rootk: PkgKey,
    rootv: Version,
    rd: DepView,
    sol: Seq<(PkgKey, Version)>,
)
    requires
        unique_keys(reg),
        forall|i: int| 0 <= i < reg.len() ==> crate::provider::rels_wf((#[trigger] reg[i]).1),
        valid_solution(reg, rootk, rootv, rd, sol),
    ensures
        forall|i: int| 0 <= i < sol.len() ==> (#[trigger] sol[i]).1.patch < u64::MAX,
{
    assert forall|i: int| 0 <= i < sol.len() implies (#[trigger] sol[i]).1.patch < u64::MAX by {
        let k = sol[i].0;
        let v = sol[i].1;
        assert(entry_ok(reg, rootk, rootv, rd, sol, k, v));
        assert(key_contains(sol, k));
        assert(k != rootk);
        let rels = a_rels(reg, rootk, rootv, rd, k);
        assert(key_contains(reg, k));
        let j = crate::maps::key_index(reg, k);
        assert(reg[j].0 == k);
        lemma_key_at(reg, j);
        assert(rels == reg[j].1);
        assert(crate::provider::rels_wf(rels));
        let t = crate::maps::key_index(rels, v);
        assert(rels[t].0 == v);
    }
}

/// In a valid solution, every selected package resolves: its version is
/// listed and its dependency map is met.
pub proof fn lemma_selected_entry(
    reg: RegView,
    rootk: PkgKey,
    rootv: Version,
    rd: DepView,
    sol: Seq<(PkgKey, Version)>,
    p: PkgKey,
)
    requires
        valid_solution(reg, rootk, rootv, rd, sol),
        key_contains(sol, p),
    ensures
        entry_ok(reg, rootk, rootv, rd, sol, p, key_value(sol, p)),
{
    let i = key_index(sol, p);
    assert(0 <= i < sol.len() && sol[i].0 == p);
    lemma_key_at(sol, i);
    assert(entry_ok(reg, rootk, rootv, rd, sol, sol[i].0, sol[i].1));
}

/// In a valid solution, a package selected at `v` has every entry of its
/// declared dependency map met by the solution's world.
pub proof fn lemma_dep_forced(
    reg: RegView,
    rootk: PkgKey,
    rootv: Version,
    rd: DepView,
    sol: Seq<(PkgKey, Version)>,
    p: PkgKey,
    v: Version,
    dm: DepView,
    j: int,
)
    requires
        valid_solution(reg, rootk, rootv, rd, sol),
        (p == rootk && v == rootv) || (p != rootk && key_contains(sol, p) && key_value(sol, p)
            == v),
        key_value(a_rels(reg, rootk, rootv, rd, p), v) == Some(dm),
        0 <= j < dm.len(),
    ensures
        dep_entry_ok(sol, rootk, rootv, dm[j].0, dm[j].1),
{
    if p == rootk {
        let rels = a_rels(reg, rootk, rootv, rd, rootk);
        assert(rels == seq![(rootv, Some(rd))]);
        assert(unique_keys(rels));
        lemma_key_at(rels, 0);
        assert(key_value(rels, rootv) == Some(rd));
        assert(dm == rd);
        assert(entry_ok(reg, rootk, rootv, rd, sol, rootk, rootv));
        assert(deps_ok(sol, rootk, rootv, rd));
    } else {
        lemma_selected_entry(reg, rootk, rootv, rd, sol, p);
        assert(entry_ok(reg, rootk, rootv, rd, sol, p, v));
    }
}

/// Every version in `r1` also lies in `r2`.
pub open spec fn range_implies(r1: Seq<Interval>, r2: Seq<Interval>) -> bool {
    forall|w: Version| #[trigger] sem_seq(r1, w) ==> sem_seq(r2, w)
}

/// Law: if the root requires two packages `a` and `b`, every available
/// version of `a` constrains a shared dependency `c` to within `ra`, every
/// available version of `b` constrains `c` to within `rb`, and `ra` and
/// `rb` share no version, then no solution is valid: the conflicting
/// constraint is never silently dropped.
pub proof fn lemma_conflicting_requirements_unsolvable(
    reg: RegView,
    rootk: PkgKey,
    rootv: Version,
    rd: DepView,
    a: PkgKey,
    b: PkgKey,
    c: PkgKey,
    ra: Seq<Interval>,
    rb: Seq<Interval>,
    sol: Seq<(PkgKey, Version)>,
)
    requires
        key_contains(rd, a),
        key_contains(rd, b),
        a != rootk,
        b != rootk,
        forall|v: Version|
            #[trigger] key_contains(a_rels(reg, rootk, rootv, rd, a), v) ==> (key_value(
                a_rels(reg, rootk, rootv, rd, a),
                v,
            ) matches Some(dm) ==> key_contains(dm, c) && range_implies(key_value(dm, c), ra)),
        forall|v: Version|
            #[trigger] key_contains(a_rels(reg, rootk, rootv, rd, b), v) ==> (key_value(
                a_rels(reg, rootk, rootv, rd, b),
                v,
            ) matches Some(dm) ==> key_contains(dm, c) && range_implies(key_value(dm, c), rb)),
        forall|w: Version| !(#[trigger] sem_seq(ra, w) && sem_seq(rb, w)),
    ensures
        !valid_solution(reg, rootk, rootv, rd, sol),
{
    if valid_solution(reg, rootk, rootv, rd, sol) {
        // the root's own dependencies force a and b into the solution
        let root_rels = a_rels(reg, rootk, rootv, rd, rootk);
        assert(root_rels == seq![(rootv, Some(rd))]);
        assert(unique_keys(root_rels));
        lemma_key_at(root_rels, 0);
        assert(entry_ok(reg, rootk, rootv, rd, sol, rootk, rootv));
        assert(deps_ok(sol, rootk, rootv, rd));
        let wc = world_version(sol, rootk, rootv, c);
        // a is selected, and its dependency on c pins wc inside ra
        let ja = key_index(rd, a);
        assert(rd[ja].0 == a);
        assert(dep_entry_ok(sol, rootk, rootv, rd[ja].0, rd[ja].1));
        assert(key_contains(sol, a));
        let ia = key_index(sol, a);
        lemma_key_at(sol, ia);
        let va = sol[ia].1;
        assert(entry_ok(reg, rootk, rootv, rd, sol, a, va));
        let rels_a = a_rels(reg, rootk, rootv, rd, a);
        assert(key_contains(rels_a, va));
        let dma = key_value(rels_a, va)->0;
        assert(key_contains(dma, c) && range_implies(key_value(dma, c), ra));
        assert(deps_ok(sol, rootk, rootv, dma));
        let jc = key_index(dma, c);
        assert(dma[jc].0 == c);
        assert(dep_entry_ok(sol, rootk, rootv, dma[jc].0, dma[jc].1));
        lemma_key_at_weak(dma, jc, c);
        assert(sem_seq(key_value(dma, c), wc));
        assert(sem_seq(ra, wc));
        // b likewise pins wc inside rb
        let jb = key_index(rd, b);
        assert(rd[jb].0 == b);
        assert(dep_entry_ok(sol, rootk, rootv, rd[jb].0, rd[jb].1));
        assert(key_contains(sol, b));
        let ib = key_index(sol, b);
        lemma_key_at(sol, ib);
        let vb = sol[ib].1;
        assert(entry_ok(reg, rootk, rootv, rd, sol, b, vb));
        let rels_b = a_rels(reg, rootk, rootv, rd, b);
        assert(key_contains(rels_b, vb));
        let dmb = key_value(rels_b, vb)->0;
        assert(key_contains(dmb, c) && range_implies(key_value(dmb, c), rb));
        assert(deps_ok(sol, rootk, rootv, dmb));
        let kc = key_index(dmb, c);
        assert(dmb[kc].0 == c);
        assert(dep_entry_ok(sol, rootk, rootv, dmb[kc].0, dmb[kc].1));
        lemma_key_at_weak(dmb, kc, c);
        assert(sem_seq(key_value(dmb, c), wc));
        assert(sem_seq(rb, wc));
        // contradiction with the disjointness of ra and rb
        assert(false);
    }
}

/// Without uniqueness, the entry at the chosen index of `k` still relates
/// `key_value` to the constraint recorded there when the ranges agree on
/// membership; here we only need that the chosen index carries key `k`.
proof fn lemma_key_at_weak(dm: DepView, j: int, c: PkgKey)
    requires
        key_contains(dm, c),
        j == key_index(dm, c),
    ensures
        0 <= j < dm.len(),
        dm[j].0 == c,
        key_value(dm, c) == dm[j].1,
{
}

/// Law: under the conditions of the conflicting-requirements law, a
/// resolver outcome whose successes are valid solutions cannot be a
/// success: resolution must fail.
pub proof fn lemma_conflicting_requirements_never_solved(
    reg: RegView,
    rootk: PkgKey,
    rootv: Version,
    rd: DepView,
    a: PkgKey,
    b: PkgKey,
    c: PkgKey,
    ra: Seq<Interval>,
    rb: Seq<Interval>,
    r: Result<VersionMap, crate::solver::ResolutionError>,
)
    requires
        key_contains(rd, a),
        key_contains(rd, b),
        a != rootk,
        b != rootk,
        forall|v: Version|
            #[trigger] key_contains(a_rels(reg, rootk, rootv, rd, a), v) ==> (key_value(
                a_rels(reg, rootk, rootv, rd, a),
                v,
            ) matches Some(dm) ==> key_contains(dm, c) && range_implies(key_value(dm, c), ra)),
        forall|v: Version|
            #[trigger] key_contains(a_rels(reg, rootk, rootv, rd, b), v) ==> (key_value(
                a_rels(reg, rootk, rootv, rd, b),
                v,
            ) matches Some(dm) ==> key_contains(dm, c) && range_implies(key_value(dm, c), rb)),
        forall|w: Version| !(#[trigger] sem_seq(ra, w) && sem_seq(rb, w)),
        r matches Ok(sol) ==> valid_solution(reg, rootk, rootv, rd, sol@),
    ensures
        !(r is Ok),
{
    if r is Ok {
        let sol = r->Ok_0;
        lemma_conflicting_requirements_unsolvable(
            reg,
            rootk,
            rootv,
            rd,
            a,
            b,
            c,
            ra,
            rb,
            sol@,
        );
    }
}

/// Check one dependency map against the solution.
fn check_deps(sol: &VersionMap, root: &Pkg, root_version: Version, dm: &DepMap) -> (r: bool)
    requires
        sol.wf(),
        dm.wf(),
    ensures
        r == deps_ok(sol@, root@, root_version, dm@),
{
    let n = dm.len();
    let mut j: usize = 0;
    while j < n
        invariant
            sol.wf(),
            dm.wf(),
            n == dm@.len(),
            0 <= j <= n,
            forall|t: int|
                0 <= t < j ==> dep_entry_ok(
                    sol@,
                    root@,
                    root_version,
                    (#[trigger] dm@[t]).0,
                    dm@[t].1,
                ),
        decreases n - j,
    {
        let d = dm.key_at(j);
        let rng = dm.range_at(j);
        if d.eq_pkg(root) {
            if !rng.contains(&root_version) {
                assert(!dep_entry_ok(sol@, root@, root_version, dm@[j as int].0, dm@[j as int].1));
                return false;
            }
        } else {
            match sol.get(d) {
                None => {
                    assert(!world_contains(sol@, root@, d@));
                    assert(!dep_entry_ok(
                        sol@,
                        root@,
                        root_version,
                        dm@[j as int].0,
                        dm@[j as int].1,
                    ));
                    return false;
                },
                Some(wv) => {
                    if !rng.contains(&wv) {
                        assert(world_version(sol@, root@, root_version, d@) == wv);
                        assert(!dep_entry_ok(
                            sol@,
                            root@,
                            root_version,
                            dm@[j as int].0,
                            dm@[j as int].1,
                        ));
                        return false;
                    }
                },
            }
        }
        assert(dep_entry_ok(sol@, root@, root_version, dm@[j as int].0, dm@[j as int].1));
        j += 1;
    }
    true
}

/// Decide validity of a proposed solution against the registry and the
/// project's root. This is the exact check behind the resolver's contract.
pub fn check_solution(
    reg: &Registry,
    root: &Pkg,
    root_version: Version,
    root_deps: &DepMap,
    sol: &VersionMap,
) -> (r: bool)
    requires
        reg.wf(),
        root_deps.wf(),
        sol.wf(),
    ensures
        r == valid_solution(reg@, root@, root_version, root_deps@, sol@),
{
    let ghost rootk = root@;
    let ghost root_rels = a_rels(reg@, rootk, root_version, root_deps@, rootk);
    proof {
        assert(root_rels == seq![(root_version, Some(root_deps@))]);
        assert(crate::maps::unique_keys(root_rels));
        lemma_key_at(root_rels, 0);
    }
    if sol.contains_key(root) {
        return false;
    }
    if !check_deps(sol, root, root_version, root_deps) {
        assert(!entry_ok(reg@, rootk, root_version, root_deps@, sol@, rootk, root_version));
        return false;
    }
    assert(entry_ok(reg@, rootk, root_version, root_deps@, sol@, rootk, root_version));
    let n = sol.len();
    let mut i: usize = 0;
    while i < n
        invariant
            reg.wf(),
            root_deps.wf(),
            sol.wf(),
            n == sol@.len(),
            0 <= i <= n,
            forall|t: int|
                0 <= t < i ==> entry_ok(
                    reg@,
                    root@,
                    root_version,
                    root_deps@,
                    sol@,
                    (#[trigger] sol@[t]).0,
                    sol@[t].1,
                ),
        decreases n - i,
    {
        let k = sol.key_at(i);
        let v = sol.version_at(i);
        match adapter_deps(reg, root, root_version, root_deps, k, &v) {
            Err(_) => {
                assert(!entry_ok(
                    reg@,
                    root@,
                    root_version,
                    root_deps@,
                    sol@,
                    sol@[i as int].0,
                    sol@[i as int].1,
                ));
                return false;
            },
            Ok(dm) => {
                if !check_deps(sol, root, root_version, dm) {
                    assert(!entry_ok(
                        reg@,
                        root@,
                        root_version,
                        root_deps@,
                        sol@,
                        sol@[i as int].0,
                        sol@[i as int].1,
                    ));
                    return false;
                }
                assert(entry_ok(
                    reg@,
                    root@,
                    root_version,
                    root_deps@,
                    sol@,
                    sol@[i as int].0,
                    sol@[i as int].1,
                ));
            },
        }
        i += 1;
    }
    true
}

} // verus!
