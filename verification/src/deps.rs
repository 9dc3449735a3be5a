//! Solving the dependencies needed to run a project's tests: combining the
//! project configuration with the test-runner packages, choosing a
//! connectivity strategy, and installing the test dependency.

use vstd::prelude::*;
use crate::maps::{DepMap, VersionMap, key_contains, key_value, lemma_key_at};
use crate::pkg::{Pkg, PkgKey};
use crate::project_config::{
    AppDependencies, ApplicationConfig, PackageConfig, ProjectConfig,
};
use crate::provider::Registry;
use crate::range::Range;
use crate::solution::valid_solution;
use crate::solver::{ResolutionError, VersionStrategy, resolve};
use crate::version::Version;

verus! {

/// The default step budget handed to the resolver.
pub const DEFAULT_FUEL: u64 = 10000;

/// Which metadata sources to consult, and in which order.
#[derive(Debug)]
pub enum ConnectivityStrategy {
    /// Try the local cache alone first; on any failure retry the whole
    /// resolution online.
    Progressive,
    /// Local cache only.
    Offline,
    /// Remote registry only, with the given candidate ordering.
    Online(VersionStrategy),
}

/// Why project-level solving failed.
#[derive(Debug)]
pub enum SolveError {
    /// The resolver could not produce a solution.
    Resolution(ResolutionError),
    /// A solution was produced but the project's declared shape refuses it.
    Invalid(String),
}

impl SolveError {
    /// A human-readable description of the failure.
    pub fn describe(&self) -> (r: String) {
        match self {
            SolveError::Resolution(e) => e.describe(),
            SolveError::Invalid(text) => text.clone(),
        }
    }
}

/// The synthetic root package identity.
pub open spec fn root_key() -> PkgKey {
    ("root"@, ""@)
}

/// The identity of the test framework package.
pub open spec fn test_key() -> PkgKey {
    ("elm-explorations"@, "test"@)
}

/// The test-runner package identity.
pub open spec fn runner_key() -> PkgKey {
    ("mpizenberg"@, "elm-test-runner"@)
}

/// The identity of the JSON package the generated runner code uses.
pub open spec fn json_key() -> PkgKey {
    ("elm"@, "json"@)
}

/// The constraint `rv` admits exactly the version `v`.
pub open spec fn exact_pin(rv: Seq<crate::range::Interval>, v: Version) -> bool {
    forall|w: Version| #[trigger] crate::range::sem_seq(rv, w) == (w == v)
}

/// The constraint `rv` admits exactly the versions in `[lo, hi)`.
pub open spec fn between_pin(
    rv: Seq<crate::range::Interval>,
    lo: Version,
    hi: Version,
) -> bool {
    forall|w: Version|
        #[trigger] crate::range::sem_seq(rv, w) == (lo.spec_le(w) && w.spec_lt(hi))
}

/// Record each pinned version as an exact singleton constraint, replacing
/// earlier constraints on the same packages.
#[verifier::rlimit(100)]
#[verifier::spinoff_prover]
fn pins_to_exact(vm: &VersionMap, out: &mut DepMap)
    requires
        vm.wf(),
        old(out).wf(),
        forall|k: PkgKey|
            #[trigger] key_contains(vm@, k) ==> key_value(vm@, k).patch < u64::MAX,
    ensures
        final(out).wf(),
        forall|k: PkgKey|
            #[trigger] key_contains(final(out)@, k) == (key_contains(old(out)@, k)
                || key_contains(vm@, k)),
        forall|k: PkgKey|
            #[trigger] key_contains(vm@, k) ==> exact_pin(
                key_value(final(out)@, k),
                key_value(vm@, k),
            ),
        forall|k: PkgKey|
            !key_contains(vm@, k) && key_contains(old(out)@, k) ==> #[trigger] key_value(
                final(out)@,
                k,
            ) == key_value(old(out)@, k),
{
    let n = vm.len();
    let mut i: usize = 0;
    while i < n
        invariant
            vm.wf(),
            out.wf(),
            forall|k: PkgKey|
                #[trigger] key_contains(vm@, k) ==> key_value(vm@, k).patch < u64::MAX,
            n == vm@.len(),
            0 <= i <= n,
            forall|k: PkgKey|
                #[trigger] key_contains(out@, k) == (key_contains(old(out)@, k) || exists|t: int|
                    0 <= t < i && vm@[t].0 == k),
            forall|k: PkgKey|
                (exists|t: int| 0 <= t < i && (#[trigger] vm@[t]).0 == k) ==> exact_pin(
                    key_value(out@, k),
                    key_value(vm@, k),
                ),
            forall|k: PkgKey|
                !key_contains(vm@, k) && key_contains(old(out)@, k) ==> #[trigger] key_value(
                    out@,
                    k,
                ) == key_value(old(out)@, k),
        decreases n - i,
    {
        let p = vm.key_at(i);
        let v = vm.version_at(i);
        proof {
            lemma_key_at(vm@, i as int);
        }
        let rng = Range::exact(v);
        let ghost rv = rng@;
        proof {
            assert forall|w: Version| #[trigger] crate::range::sem_seq(rv, w) == (w == v) by {
                assert(rng.sem(w) == (w == v));
            }
            assert(exact_pin(rv, v));
        }
        let ghost pre = out@;
        out.insert(p.duplicate(), rng);
        proof {
            assert forall|k: PkgKey|
                #[trigger] key_contains(out@, k) == (key_contains(old(out)@, k) || exists|t: int|
                    0 <= t < i + 1 && vm@[t].0 == k) by {
                if k == p@ {
                    assert(vm@[i as int].0 == k);
                } else {
                    assert(key_contains(out@, k) == key_contains(pre, k));
                    if exists|t: int| 0 <= t < i + 1 && vm@[t].0 == k {
                        let t = choose|t: int| 0 <= t < i + 1 && vm@[t].0 == k;
                        assert(t < i);
                    }
                }
            }
            assert forall|k: PkgKey|
                (exists|t: int| 0 <= t < i + 1 && (#[trigger] vm@[t]).0 == k) implies exact_pin(
                    key_value(out@, k),
                    key_value(vm@, k),
                ) by {
                if k == p@ {
                    assert(key_value(out@, k) == rv);
                    assert(exact_pin(rv, v));
                } else {
                    let t = choose|t: int| 0 <= t < i + 1 && (#[trigger] vm@[t]).0 == k;
                    assert(t < i);
                    assert(key_value(out@, k) == key_value(pre, k));
                }
            }
            assert forall|k: PkgKey|
                !key_contains(vm@, k) && key_contains(old(out)@, k) implies #[trigger] key_value(
                    out@,
                    k,
                ) == key_value(old(out)@, k) by {
                assert(vm@[i as int].0 == p@);
                assert(k != p@);
            }
        }
        i += 1;
    }
    proof {
        assert forall|k: PkgKey|
            #[trigger] key_contains(out@, k) == (key_contains(old(out)@, k) || key_contains(
                vm@,
                k,
            )) by {
            if key_contains(vm@, k) {
                let t = crate::maps::key_index(vm@, k);
                assert(0 <= t < n && vm@[t].0 == k);
            }
            if exists|t: int| 0 <= t < n && vm@[t].0 == k {
                let t = choose|t: int| 0 <= t < n && vm@[t].0 == k;
                assert(key_contains(vm@, k));
            }
        }
        assert forall|k: PkgKey| #[trigger] key_contains(vm@, k) implies exact_pin(
            key_value(out@, k),
            key_value(vm@, k),
        ) by {
            let t = crate::maps::key_index(vm@, k);
            assert(0 <= t < n && vm@[t].0 == k);
        }
    }
}

/// Merge each range constraint into `out`, replacing earlier constraints
/// on the same packages.
#[verifier::rlimit(100)]
#[verifier::spinoff_prover]
fn ranges_merge(dm: &DepMap, out: &mut DepMap)
    requires
        dm.wf(),
        old(out).wf(),
    ensures
        final(out).wf(),
        forall|k: PkgKey|
            #[trigger] key_contains(final(out)@, k) == (key_contains(old(out)@, k)
                || key_contains(dm@, k)),
        forall|k: PkgKey|
            #[trigger] key_contains(dm@, k) ==> key_value(final(out)@, k) == key_value(dm@, k),
        forall|k: PkgKey|
            !key_contains(dm@, k) && key_contains(old(out)@, k) ==> #[trigger] key_value(
                final(out)@,
                k,
            ) == key_value(old(out)@, k),
{
    let n = dm.len();
    let mut i: usize = 0;
    while i < n
        invariant
            dm.wf(),
            out.wf(),
            n == dm@.len(),
            0 <= i <= n,
            forall|k: PkgKey|
                #[trigger] key_contains(out@, k) == (key_contains(old(out)@, k) || exists|t: int|
                    0 <= t < i && dm@[t].0 == k),
            forall|k: PkgKey|
                (exists|t: int| 0 <= t < i && (#[trigger] dm@[t]).0 == k) ==> key_value(out@, k)
                    == key_value(dm@, k),
            forall|k: PkgKey|
                !key_contains(dm@, k) && key_contains(old(out)@, k) ==> #[trigger] key_value(
                    out@,
                    k,
                ) == key_value(old(out)@, k),
        decreases n - i,
    {
        let p = dm.key_at(i);
        let rng = dm.range_at(i);
        proof {
            assert(crate::range::wf_seq(dm@[i as int].1));
            lemma_key_at(dm@, i as int);
        }
        let ghost pre = out@;
        out.insert(p.duplicate(), rng.duplicate());
        proof {
            assert forall|k: PkgKey|
                #[trigger] key_contains(out@, k) == (key_contains(old(out)@, k) || exists|t: int|
                    0 <= t < i + 1 && dm@[t].0 == k) by {
                if k == p@ {
                    assert(dm@[i as int].0 == k);
                } else {
                    assert(key_contains(out@, k) == key_contains(pre, k));
                    if exists|t: int| 0 <= t < i + 1 && dm@[t].0 == k {
                        let t = choose|t: int| 0 <= t < i + 1 && dm@[t].0 == k;
                        assert(t < i);
                    }
                }
            }
            assert forall|k: PkgKey|
                (exists|t: int| 0 <= t < i + 1 && (#[trigger] dm@[t]).0 == k) implies key_value(
                    out@,
                    k,
                ) == key_value(dm@, k) by {
                if k == p@ {
                    assert(key_value(out@, k) == dm@[i as int].1);
                } else {
                    let t = choose|t: int| 0 <= t < i + 1 && (#[trigger] dm@[t]).0 == k;
                    assert(t < i);
                    assert(key_value(out@, k) == key_value(pre, k));
                }
            }
            assert forall|k: PkgKey|
                !key_contains(dm@, k) && key_contains(old(out)@, k) implies #[trigger] key_value(
                    out@,
                    k,
                ) == key_value(old(out)@, k) by {
                assert(dm@[i as int].0 == p@);
                assert(k != p@);
            }
        }
        i += 1;
    }
    proof {
        assert forall|k: PkgKey|
            #[trigger] key_contains(out@, k) == (key_contains(old(out)@, k) || key_contains(
                dm@,
                k,
            )) by {
            if key_contains(dm@, k) {
                let t = crate::maps::key_index(dm@, k);
                assert(0 <= t < n && dm@[t].0 == k);
            }
            if exists|t: int| 0 <= t < n && dm@[t].0 == k {
                let t = choose|t: int| 0 <= t < n && dm@[t].0 == k;
                assert(key_contains(dm@, k));
            }
        }
        assert forall|k: PkgKey| #[trigger] key_contains(dm@, k) implies key_value(out@, k)
            == key_value(dm@, k) by {
            let t = crate::maps::key_index(dm@, k);
            assert(0 <= t < n && dm@[t].0 == k);
        }
    }
}

/// Solve project dependencies against the chosen sources. A returned
/// solution is valid against the registry that produced it: under
/// `Offline` the local cache, under `Online` the remote registry, and
/// under `Progressive` one of the two (offline is attempted first, and the
/// whole resolution is retried online on any failure).
pub fn solve_deps(
    connectivity: &ConnectivityStrategy,
    offline: &Registry,
    online: &Registry,
    deps: &DepMap,
    pkg_id: &Pkg,
    version: Version,
    fuel: u64,
) -> (r: Result<VersionMap, ResolutionError>)
    requires
        offline.wf(),
        online.wf(),
        deps.wf(),
        version.patch < u64::MAX,
    ensures
        r matches Ok(sol) ==> sol.wf() && match *connectivity {
            ConnectivityStrategy::Offline => valid_solution(
                offline@,
                pkg_id@,
                version,
                deps@,
                sol@,
            ),
            ConnectivityStrategy::Online(_) => valid_solution(
                online@,
                pkg_id@,
                version,
                deps@,
                sol@,
            ),
            ConnectivityStrategy::Progressive => valid_solution(
                offline@,
                pkg_id@,
                version,
                deps@,
                sol@,
            ) || valid_solution(online@, pkg_id@, version, deps@, sol@),
        },
        r matches Err(ResolutionError::ProviderError { package: ep, version: ev, cause: ec })
            ==> match *connectivity {
            ConnectivityStrategy::Offline => crate::solver::provider_error_ok(
                offline@,
                pkg_id@,
                version,
                deps@,
                ep@,
                ev,
                ec,
            ),
            ConnectivityStrategy::Online(_) => crate::solver::provider_error_ok(
                online@,
                pkg_id@,
                version,
                deps@,
                ep@,
                ev,
                ec,
            ),
            ConnectivityStrategy::Progressive => crate::solver::provider_error_ok(
                online@,
                pkg_id@,
                version,
                deps@,
                ep@,
                ev,
                ec,
            ),
        },
        r matches Err(ResolutionError::NoSolution(_)) ==> match *connectivity {
            // an unsatisfiability report is sound against the registry that
            // produced it (under Progressive, the online retry's universe)
            ConnectivityStrategy::Offline => forall|sol: Seq<(PkgKey, Version)>|
                !(#[trigger] valid_solution(offline@, pkg_id@, version, deps@, sol)),
            ConnectivityStrategy::Online(_) => forall|sol: Seq<(PkgKey, Version)>|
                !(#[trigger] valid_solution(online@, pkg_id@, version, deps@, sol)),
            ConnectivityStrategy::Progressive => forall|sol: Seq<(PkgKey, Version)>|
                !(#[trigger] valid_solution(online@, pkg_id@, version, deps@, sol)),
        },
        deps@.len() == 0 ==> (r matches Ok(sol) ==> sol@.len() == 0),
{
    match connectivity {
        ConnectivityStrategy::Offline => resolve(
            offline,
            VersionStrategy::Newest,
            pkg_id,
            version,
            deps,
            fuel,
        ),
        ConnectivityStrategy::Online(strategy) => resolve(
            online,
            *strategy,
            pkg_id,
            version,
            deps,
            fuel,
        ),
        ConnectivityStrategy::Progressive => {
            // incompatibilities learned offline are not valid against the
            // online universe, so the retry restarts from scratch
            match resolve(offline, VersionStrategy::Newest, pkg_id, version, deps, fuel) {
                Ok(sol) => Ok(sol),
                Err(_) => resolve(online, VersionStrategy::Newest, pkg_id, version, deps, fuel),
            }
        },
    }
}

/// A witness that `deps` can be solved for the synthetic root against the
/// registry: a valid solution which, for an application, stays inside the
/// declared (direct plus indirect) dependency keys.
pub open spec fn checked_solution(
    regv: crate::provider::RegView,
    deps: crate::provider::DepView,
    is_app: bool,
    sol: Seq<(PkgKey, Version)>,
) -> bool {
    &&& valid_solution(regv, root_key(), crate::version::zero_version(), deps, sol)
    &&& (is_app ==> forall|i: int|
        0 <= i < sol.len() ==> key_contains(deps, (#[trigger] sol[i]).0))
}

/// Check that the given dependencies can be solved at all; for an
/// application, additionally check that the solution stays inside the
/// declared (direct plus indirect) dependencies. A success carries a
/// witness solution per connectivity mode; the invalid error names the
/// offending undeclared package.
fn solve_check(
    connectivity: &ConnectivityStrategy,
    offline: &Registry,
    online: &Registry,
    deps: &DepMap,
    is_app: bool,
    fuel: u64,
) -> (r: Result<(), SolveError>)
    requires
        offline.wf(),
        online.wf(),
        deps.wf(),
    ensures
        r is Ok ==> match *connectivity {
            ConnectivityStrategy::Offline => exists|sol: Seq<(PkgKey, Version)>|
                #[trigger] checked_solution(offline@, deps@, is_app, sol),
            ConnectivityStrategy::Online(_) => exists|sol: Seq<(PkgKey, Version)>|
                #[trigger] checked_solution(online@, deps@, is_app, sol),
            ConnectivityStrategy::Progressive => (exists|sol: Seq<(PkgKey, Version)>|
                #[trigger] checked_solution(offline@, deps@, is_app, sol)) || (exists|
                sol: Seq<(PkgKey, Version)>,
            |
                #[trigger] checked_solution(online@, deps@, is_app, sol)),
        },
        r matches Err(SolveError::Invalid(_)) ==> is_app,
        r matches Err(SolveError::Resolution(ResolutionError::NoSolution(_))) ==> match *connectivity {
            ConnectivityStrategy::Offline => forall|sol: Seq<(PkgKey, Version)>|
                !(#[trigger] valid_solution(
                    offline@,
                    root_key(),
                    crate::version::zero_version(),
                    deps@,
                    sol,
                )),
            ConnectivityStrategy::Online(_) => forall|sol: Seq<(PkgKey, Version)>|
                !(#[trigger] valid_solution(
                    online@,
                    root_key(),
                    crate::version::zero_version(),
                    deps@,
                    sol,
                )),
            ConnectivityStrategy::Progressive => forall|sol: Seq<(PkgKey, Version)>|
                !(#[trigger] valid_solution(
                    online@,
                    root_key(),
                    crate::version::zero_version(),
                    deps@,
                    sol,
                )),
        },
{
    let root = Pkg::root();
    let version = Version::zero();
    let solution = match solve_deps(connectivity, offline, online, deps, &root, version, fuel) {
        Ok(sol) => sol,
        Err(e) => {
            return Err(SolveError::Resolution(e));
        },
    };
    if is_app {
        // all chosen packages must already be declared by the application
        // (the root itself never appears in a valid solution)
        let n = solution.len();
        let mut i: usize = 0;
        while i < n
            invariant
                is_app,
                deps.wf(),
                solution.wf(),
                n == solution@.len(),
                0 <= i <= n,
                forall|t: int| 0 <= t < i ==> key_contains(deps@, (#[trigger] solution@[t]).0),
            decreases n - i,
        {
            let p = solution.key_at(i);
            if !deps.contains_key(p) {
                let mut msg = crate::report::pkg_string(p);
                msg.append(" is missing in the indirect dependencies");
                return Err(SolveError::Invalid(msg));
            }
            i += 1;
        }
    }
    proof {
        reveal_strlit("root");
        reveal_strlit("");
        assert(root@ == root_key());
        assert(version == crate::version::zero_version());
        match *connectivity {
            ConnectivityStrategy::Offline => {
                assert(checked_solution(offline@, deps@, is_app, solution@));
                assert(exists|sol: Seq<(PkgKey, Version)>|
                    #[trigger] checked_solution(offline@, deps@, is_app, sol));
            },
            ConnectivityStrategy::Online(_) => {
                assert(checked_solution(online@, deps@, is_app, solution@));
                assert(exists|sol: Seq<(PkgKey, Version)>|
                    #[trigger] checked_solution(online@, deps@, is_app, sol));
            },
            ConnectivityStrategy::Progressive => {
                if valid_solution(offline@, root@, version, deps@, solution@) {
                    assert(checked_solution(offline@, deps@, is_app, solution@));
                } else {
                    assert(checked_solution(online@, deps@, is_app, solution@));
                }
                assert((exists|sol: Seq<(PkgKey, Version)>|
                    #[trigger] checked_solution(offline@, deps@, is_app, sol)) || (exists|
                    sol: Seq<(PkgKey, Version)>,
                |
                    #[trigger] checked_solution(online@, deps@, is_app, sol)));
            },
        }
    }
    Ok(())
}

/// Clone a list of source directory names.
fn clone_strings(v: &Vec<String>) -> (r: Vec<String>)
    ensures
        r@.len() == v@.len(),
        forall|t: int| 0 <= t < v@.len() ==> (#[trigger] r@[t])@ == v@[t]@,
{
    let n = v.len();
    let mut out: Vec<String> = Vec::new();
    let mut i: usize = 0;
    while i < n
        invariant
            n == v@.len(),
            0 <= i <= n,
            out@.len() == i,
            forall|t: int| 0 <= t < i ==> (#[trigger] out@[t])@ == v@[t]@,
        decreases n - i,
    {
        out.push(v[i].clone());
        i += 1;
    }
    out
}

/// The application `app` was produced by an actual resolution against the
/// registry: some query `q` (the declared constraints plus the runner
/// pins) admits a valid solution which `app`'s direct and indirect pins
/// partition by declaredness.
pub open spec fn solved_with(
    regv: crate::provider::RegView,
    rootk: PkgKey,
    rootv: Version,
    declared: crate::provider::DepView,
    app: ApplicationConfig,
) -> bool {
    exists|q: crate::provider::DepView, sol: Seq<(PkgKey, Version)>|
        #[trigger] valid_solution(regv, rootk, rootv, q, sol) && runner_extended(declared, q)
            && split_of(app.dependencies.direct@, app.dependencies.indirect@, sol, q)
}

/// `d` pins each of the application's direct and direct test dependencies
/// exactly, a test pin overriding a normal pin for a shared package.
pub open spec fn app_exact_pins(
    a: ApplicationConfig,
    d: crate::provider::DepView,
) -> bool {
    &&& forall|k: PkgKey|
        #[trigger] key_contains(d, k) == (key_contains(a.dependencies.direct@, k)
            || key_contains(a.test_dependencies.direct@, k))
    &&& forall|k: PkgKey|
        #[trigger] key_contains(a.test_dependencies.direct@, k) ==> exact_pin(
            key_value(d, k),
            key_value(a.test_dependencies.direct@, k),
        )
    &&& forall|k: PkgKey|
        #[trigger] key_contains(a.dependencies.direct@, k) && !key_contains(
            a.test_dependencies.direct@,
            k,
        ) ==> exact_pin(key_value(d, k), key_value(a.dependencies.direct@, k))
}

/// `d` merges the package's dependency and test-dependency constraints, a
/// test constraint overriding for a shared package.
pub open spec fn pkg_merged_ranges(
    p: PackageConfig,
    d: crate::provider::DepView,
) -> bool {
    &&& forall|k: PkgKey|
        #[trigger] key_contains(d, k) == (key_contains(p.dependencies@, k) || key_contains(
            p.test_dependencies@,
            k,
        ))
    &&& forall|k: PkgKey|
        #[trigger] key_contains(p.test_dependencies@, k) ==> key_value(d, k) == key_value(
            p.test_dependencies@,
            k,
        )
    &&& forall|k: PkgKey|
        #[trigger] key_contains(p.dependencies@, k) && !key_contains(p.test_dependencies@, k)
            ==> key_value(d, k) == key_value(p.dependencies@, k)
}

/// The dependency set `q` handed to the resolver is `declared` extended
/// with the test-runner packages: the runner pinned at exactly 4.0.4, and
/// elm/json constrained to [1.0.0, 2.0.0) when not already declared; all
/// other declared constraints are kept as they are.
pub open spec fn runner_extended(
    declared: crate::provider::DepView,
    q: crate::provider::DepView,
) -> bool {
    &&& forall|k: PkgKey|
        #[trigger] key_contains(q, k) == (key_contains(declared, k) || k == runner_key() || k
            == json_key())
    &&& exact_pin(
        key_value(q, runner_key()),
        Version { major: 4u64, minor: 0u64, patch: 4u64 },
    )
    &&& (!key_contains(declared, json_key()) ==> between_pin(
        key_value(q, json_key()),
        Version { major: 1u64, minor: 0u64, patch: 0u64 },
        Version { major: 2u64, minor: 0u64, patch: 0u64 },
    ))
    &&& forall|k: PkgKey|
        #[trigger] key_contains(declared, k) && k != runner_key() ==> key_value(q, k)
            == key_value(declared, k)
}

/// `direct` and `indirect` partition the solution `sol` by whether the
/// package is a key of the query `q`, keeping the solved versions.
pub open spec fn split_of(
    direct: Seq<(PkgKey, Version)>,
    indirect: Seq<(PkgKey, Version)>,
    sol: Seq<(PkgKey, Version)>,
    q: crate::provider::DepView,
) -> bool {
    &&& forall|k: PkgKey|
        #[trigger] key_contains(direct, k) == (key_contains(sol, k) && key_contains(q, k))
    &&& forall|k: PkgKey|
        #[trigger] key_contains(indirect, k) == (key_contains(sol, k) && !key_contains(q, k))
    &&& forall|k: PkgKey|
        #[trigger] key_contains(direct, k) ==> key_value(direct, k) == key_value(sol, k)
    &&& forall|k: PkgKey|
        #[trigger] key_contains(indirect, k) ==> key_value(indirect, k) == key_value(sol, k)
}

/// Combine the project dependencies with the test-runner packages and
/// solve; the solution (root-free by construction) becomes the
/// dependencies of the generated test application, split into direct
/// (declared or injected) and indirect (transitively required) pins.
#[verifier::rlimit(100)]
#[verifier::spinoff_prover]
fn solve_helper(
    connectivity: &ConnectivityStrategy,
    offline: &Registry,
    online: &Registry,
    src_dirs: &Vec<String>,
    pkg_id: &Pkg,
    version: Version,
    direct_deps: DepMap,
    fuel: u64,
) -> (r: Result<ApplicationConfig, SolveError>)
    requires
        offline.wf(),
        online.wf(),
        direct_deps.wf(),
        version.patch < u64::MAX,
    ensures
        r matches Ok(app) ==> app.wf() && app.elm_version == (Version {
            major: 0u64,
            minor: 19u64,
            patch: 1u64,
        }) && app.test_dependencies.direct@.len() == 0 && app.test_dependencies.indirect@.len()
            == 0 && app.source_directories@.len() == src_dirs@.len() && (forall|t: int|
            0 <= t < src_dirs@.len() ==> (#[trigger] app.source_directories@[t])@
                == src_dirs@[t]@) && (forall|k: PkgKey|
            !(#[trigger] key_contains(app.dependencies.direct@, k) && key_contains(
                app.dependencies.indirect@,
                k,
            ))),
        r matches Ok(app) ==> match *connectivity {
            ConnectivityStrategy::Offline => solved_with(
                offline@,
                pkg_id@,
                version,
                direct_deps@,
                app,
            ),
            ConnectivityStrategy::Online(_) => solved_with(
                online@,
                pkg_id@,
                version,
                direct_deps@,
                app,
            ),
            ConnectivityStrategy::Progressive => solved_with(
                offline@,
                pkg_id@,
                version,
                direct_deps@,
                app,
            ) || solved_with(online@, pkg_id@, version, direct_deps@, app),
        },
{
    let ghost declared = direct_deps@;
    let mut deps = direct_deps;
    // the test runner itself, and elm/json which its generated code uses
    let runner_pkg = Pkg::new("mpizenberg", "elm-test-runner");
    let ghost rkey = runner_pkg@;
    let runner_version = Version::new(4, 0, 4);
    let runner_range = Range::exact(runner_version);
    let ghost runner_rv = runner_range@;
    proof {
        assert forall|w: Version|
            #[trigger] crate::range::sem_seq(runner_rv, w) == (w == runner_version) by {
            assert(runner_range.sem(w) == (w == runner_version));
        }
    }
    deps.insert(runner_pkg, runner_range);
    let ghost mid = deps@;
    let json_pkg = Pkg::new("elm", "json");
    let ghost jkey = json_pkg@;
    let mut json_added = false;
    if !deps.contains_key(&json_pkg) {
        let json_lo = Version::new(1, 0, 0);
        let json_hi = Version::new(2, 0, 0);
        let json_range = Range::between(json_lo, json_hi);
        let ghost json_rv = json_range@;
        proof {
            assert forall|w: Version|
                #[trigger] crate::range::sem_seq(json_rv, w) == (json_lo.spec_le(w) && w.spec_lt(
                    json_hi,
                )) by {
                assert(json_range.sem(w) == (json_lo.spec_le(w) && w.spec_lt(json_hi)));
            }
        }
        deps.insert(json_pkg, json_range);
        json_added = true;
    }
    proof {
        reveal_strlit("mpizenberg");
        reveal_strlit("elm-test-runner");
        reveal_strlit("elm");
        reveal_strlit("json");
        assert(rkey == runner_key());
        assert(jkey == json_key());
        assert(("mpizenberg"@).len() == 10);
        assert(("elm"@).len() == 3);
        assert(rkey != jkey);
        assert forall|k: PkgKey|
            #[trigger] key_contains(deps@, k) == (key_contains(declared, k) || k == runner_key()
                || k == json_key()) by {
            if json_added {
                assert(key_contains(mid, k) == (key_contains(declared, k) || k == rkey));
            } else {
                assert(key_contains(deps@, k) == (key_contains(declared, k) || k == rkey));
                if k == jkey {
                    assert(key_contains(mid, jkey));
                    assert(key_contains(declared, jkey) || jkey == rkey);
                }
            }
        }
        assert(key_value(deps@, rkey) == runner_rv);
        assert(runner_extended(declared, deps@));
    }
    let solution = match solve_deps(connectivity, offline, online, &deps, pkg_id, version, fuel) {
        Ok(sol) => sol,
        Err(e) => {
            return Err(SolveError::Resolution(e));
        },
    };
    proof {
        match *connectivity {
            ConnectivityStrategy::Offline => {
                crate::solution::lemma_valid_solution_versions(
                    offline@,
                    pkg_id@,
                    version,
                    deps@,
                    solution@,
                );
            },
            ConnectivityStrategy::Online(_) => {
                crate::solution::lemma_valid_solution_versions(
                    online@,
                    pkg_id@,
                    version,
                    deps@,
                    solution@,
                );
            },
            ConnectivityStrategy::Progressive => {
                if valid_solution(offline@, pkg_id@, version, deps@, solution@) {
                    crate::solution::lemma_valid_solution_versions(
                        offline@,
                        pkg_id@,
                        version,
                        deps@,
                        solution@,
                    );
                } else {
                    crate::solution::lemma_valid_solution_versions(
                        online@,
                        pkg_id@,
                        version,
                        deps@,
                        solution@,
                    );
                }
            },
        }
    }
    // split the solution (root-free already: a valid solution never holds
    // the root) into declared-or-injected (direct) and transitive pins
    let mut direct = VersionMap::new();
    let mut indirect = VersionMap::new();
    let n = solution.len();
    let mut i: usize = 0;
    while i < n
        invariant
            deps.wf(),
            solution.wf(),
            direct.wf(),
            indirect.wf(),
            n == solution@.len(),
            0 <= i <= n,
            forall|t: int| 0 <= t < solution@.len() ==> (#[trigger] solution@[t]).1.patch
                < u64::MAX,
            forall|k: PkgKey|
                #[trigger] key_contains(direct@, k) == ((exists|t: int|
                    0 <= t < i && (#[trigger] solution@[t]).0 == k) && key_contains(deps@, k)),
            forall|k: PkgKey|
                #[trigger] key_contains(indirect@, k) == ((exists|t: int|
                    0 <= t < i && (#[trigger] solution@[t]).0 == k) && !key_contains(deps@, k)),
            forall|k: PkgKey|
                #[trigger] key_contains(direct@, k) ==> key_value(direct@, k) == key_value(
                    solution@,
                    k,
                ),
            forall|k: PkgKey|
                #[trigger] key_contains(indirect@, k) ==> key_value(indirect@, k) == key_value(
                    solution@,
                    k,
                ),
            forall|k: PkgKey|
                #[trigger] key_contains(direct@, k) ==> key_value(direct@, k).patch < u64::MAX,
            forall|k: PkgKey|
                #[trigger] key_contains(indirect@, k) ==> key_value(indirect@, k).patch
                    < u64::MAX,
        decreases n - i,
    {
        let p = solution.key_at(i);
        let v = solution.version_at(i);
        proof {
            lemma_key_at(solution@, i as int);
        }
        let ghost pre_d = direct@;
        let ghost pre_i = indirect@;
        if deps.contains_key(p) {
            direct.insert(p.duplicate(), v);
        } else {
            indirect.insert(p.duplicate(), v);
        }
        proof {
            assert forall|k: PkgKey|
                #[trigger] key_contains(direct@, k) == ((exists|t: int|
                    0 <= t < i + 1 && (#[trigger] solution@[t]).0 == k) && key_contains(
                    deps@,
                    k,
                )) by {
                if k == solution@[i as int].0 {
                    assert(solution@[i as int].0 == k);
                } else {
                    assert(key_contains(direct@, k) == key_contains(pre_d, k));
                    if exists|t: int| 0 <= t < i + 1 && (#[trigger] solution@[t]).0 == k {
                        let t = choose|t: int|
                            0 <= t < i + 1 && (#[trigger] solution@[t]).0 == k;
                        assert(t < i);
                    }
                }
            }
            assert forall|k: PkgKey|
                #[trigger] key_contains(indirect@, k) == ((exists|t: int|
                    0 <= t < i + 1 && (#[trigger] solution@[t]).0 == k) && !key_contains(
                    deps@,
                    k,
                )) by {
                if k == solution@[i as int].0 {
                    assert(solution@[i as int].0 == k);
                } else {
                    assert(key_contains(indirect@, k) == key_contains(pre_i, k));
                    if exists|t: int| 0 <= t < i + 1 && (#[trigger] solution@[t]).0 == k {
                        let t = choose|t: int|
                            0 <= t < i + 1 && (#[trigger] solution@[t]).0 == k;
                        assert(t < i);
                    }
                }
            }
        }
        i += 1;
    }
    proof {
        assert forall|k: PkgKey|
            #[trigger] key_contains(direct@, k) == (key_contains(solution@, k) && key_contains(
                deps@,
                k,
            )) by {
            if key_contains(solution@, k) {
                let t = crate::maps::key_index(solution@, k);
                assert(0 <= t < n && solution@[t].0 == k);
            }
            if exists|t: int| 0 <= t < n && (#[trigger] solution@[t]).0 == k {
                assert(key_contains(solution@, k));
            }
        }
        assert forall|k: PkgKey|
            #[trigger] key_contains(indirect@, k) == (key_contains(solution@, k)
                && !key_contains(deps@, k)) by {
            if key_contains(solution@, k) {
                let t = crate::maps::key_index(solution@, k);
                assert(0 <= t < n && solution@[t].0 == k);
            }
            if exists|t: int| 0 <= t < n && (#[trigger] solution@[t]).0 == k {
                assert(key_contains(solution@, k));
            }
        }
        assert(split_of(direct@, indirect@, solution@, deps@));
    }
    let app = ApplicationConfig {
        source_directories: clone_strings(src_dirs),
        elm_version: Version::new(0, 19, 1),
        dependencies: AppDependencies { direct, indirect },
        test_dependencies: AppDependencies::new(),
    };
    proof {
        match *connectivity {
            ConnectivityStrategy::Offline => {
                assert(valid_solution(offline@, pkg_id@, version, deps@, solution@)
                    && runner_extended(declared, deps@) && split_of(
                    app.dependencies.direct@,
                    app.dependencies.indirect@,
                    solution@,
                    deps@,
                ));
                assert(exists|q: crate::provider::DepView, sol: Seq<(PkgKey, Version)>|
                    #[trigger] valid_solution(offline@, pkg_id@, version, q, sol)
                        && runner_extended(declared, q) && split_of(
                        app.dependencies.direct@,
                        app.dependencies.indirect@,
                        sol,
                        q,
                    ));
                assert(solved_with(offline@, pkg_id@, version, declared, app));
            },
            ConnectivityStrategy::Online(_) => {
                assert(valid_solution(online@, pkg_id@, version, deps@, solution@)
                    && runner_extended(declared, deps@) && split_of(
                    app.dependencies.direct@,
                    app.dependencies.indirect@,
                    solution@,
                    deps@,
                ));
                assert(exists|q: crate::provider::DepView, sol: Seq<(PkgKey, Version)>|
                    #[trigger] valid_solution(online@, pkg_id@, version, q, sol)
                        && runner_extended(declared, q) && split_of(
                        app.dependencies.direct@,
                        app.dependencies.indirect@,
                        sol,
                        q,
                    ));
                assert(solved_with(online@, pkg_id@, version, declared, app));
            },
            ConnectivityStrategy::Progressive => {
                if valid_solution(offline@, pkg_id@, version, deps@, solution@) {
                    assert(exists|q: crate::provider::DepView, sol: Seq<(PkgKey, Version)>|
                        #[trigger] valid_solution(offline@, pkg_id@, version, q, sol)
                            && runner_extended(declared, q) && split_of(
                            app.dependencies.direct@,
                            app.dependencies.indirect@,
                            sol,
                            q,
                        ));
                    assert(solved_with(offline@, pkg_id@, version, declared, app));
                } else {
                    assert(valid_solution(online@, pkg_id@, version, deps@, solution@));
                    assert(exists|q: crate::provider::DepView, sol: Seq<(PkgKey, Version)>|
                        #[trigger] valid_solution(online@, pkg_id@, version, q, sol)
                            && runner_extended(declared, q) && split_of(
                            app.dependencies.direct@,
                            app.dependencies.indirect@,
                            sol,
                            q,
                        ));
                    assert(solved_with(online@, pkg_id@, version, declared, app));
                }
            },
        }
    }
    Ok(app)
}

/// Solve the dependencies needed to run the tests of the given project,
/// producing the configuration of the generated test application: the
/// project's pins (exact for an application, merged ranges for a package)
/// plus the runner packages, resolved per connectivity mode, with the
/// solution split into direct and indirect pins.
pub fn solve(
    connectivity: &ConnectivityStrategy,
    offline: &Registry,
    online: &Registry,
    config: &ProjectConfig,
    src_dirs: &Vec<String>,
    fuel: u64,
) -> (r: Result<ApplicationConfig, SolveError>)
    requires
        offline.wf(),
        online.wf(),
        config.wf(),
    ensures
        r matches Ok(app) ==> app.wf() && app.elm_version == (Version {
            major: 0u64,
            minor: 19u64,
            patch: 1u64,
        }) && app.test_dependencies.direct@.len() == 0 && app.test_dependencies.indirect@.len()
            == 0 && app.source_directories@.len() == src_dirs@.len() && (forall|t: int|
            0 <= t < src_dirs@.len() ==> (#[trigger] app.source_directories@[t])@
                == src_dirs@[t]@) && (forall|k: PkgKey|
            !(#[trigger] key_contains(app.dependencies.direct@, k) && key_contains(
                app.dependencies.indirect@,
                k,
            ))),
        r matches Ok(app) ==> match *config {
            ProjectConfig::Application(a) => exists|d: crate::provider::DepView|
                #[trigger] app_exact_pins(a, d) && match *connectivity {
                    ConnectivityStrategy::Offline => solved_with(
                        offline@,
                        root_key(),
                        crate::version::zero_version(),
                        d,
                        app,
                    ),
                    ConnectivityStrategy::Online(_) => solved_with(
                        online@,
                        root_key(),
                        crate::version::zero_version(),
                        d,
                        app,
                    ),
                    ConnectivityStrategy::Progressive => solved_with(
                        offline@,
                        root_key(),
                        crate::version::zero_version(),
                        d,
                        app,
                    ) || solved_with(
                        online@,
                        root_key(),
                        crate::version::zero_version(),
                        d,
                        app,
                    ),
                },
            ProjectConfig::Package(p) => exists|d: crate::provider::DepView|
                #[trigger] pkg_merged_ranges(p, d) && match *connectivity {
                    ConnectivityStrategy::Offline => solved_with(
                        offline@,
                        p.name@,
                        p.version,
                        d,
                        app,
                    ),
                    ConnectivityStrategy::Online(_) => solved_with(
                        online@,
                        p.name@,
                        p.version,
                        d,
                        app,
                    ),
                    ConnectivityStrategy::Progressive => solved_with(
                        offline@,
                        p.name@,
                        p.version,
                        d,
                        app,
                    ) || solved_with(online@, p.name@, p.version, d, app),
                },
        },
{
    match config {
        ProjectConfig::Application(app_config) => {
            let mut direct_deps = DepMap::new();
            pins_to_exact(&app_config.dependencies.direct, &mut direct_deps);
            pins_to_exact(&app_config.test_dependencies.direct, &mut direct_deps);
            proof {
                assert(app_exact_pins(*app_config, direct_deps@));
            }
            let ghost d0 = direct_deps@;
            let root = Pkg::root();
            let zero = Version::zero();
            proof {
                reveal_strlit("root");
                reveal_strlit("");
                assert(root@ == root_key());
                assert(zero == crate::version::zero_version());
            }
            let r = solve_helper(
                connectivity,
                offline,
                online,
                src_dirs,
                &root,
                zero,
                direct_deps,
                fuel,
            );
            proof {
                if r is Ok {
                    let app = r->Ok_0;
                    assert(app_exact_pins(*app_config, d0));
                    assert(exists|d: crate::provider::DepView|
                        #[trigger] app_exact_pins(*app_config, d) && match *connectivity {
                            ConnectivityStrategy::Offline => solved_with(
                                offline@,
                                root_key(),
                                crate::version::zero_version(),
                                d,
                                app,
                            ),
                            ConnectivityStrategy::Online(_) => solved_with(
                                online@,
                                root_key(),
                                crate::version::zero_version(),
                                d,
                                app,
                            ),
                            ConnectivityStrategy::Progressive => solved_with(
                                offline@,
                                root_key(),
                                crate::version::zero_version(),
                                d,
                                app,
                            ) || solved_with(
                                online@,
                                root_key(),
                                crate::version::zero_version(),
                                d,
                                app,
                            ),
                        });
                }
            }
            r
        },
        ProjectConfig::Package(pkg_config) => {
            let mut deps = DepMap::new();
            ranges_merge(&pkg_config.dependencies, &mut deps);
            ranges_merge(&pkg_config.test_dependencies, &mut deps);
            proof {
                assert(pkg_merged_ranges(*pkg_config, deps@));
            }
            let ghost d0 = deps@;
            let r = solve_helper(
                connectivity,
                offline,
                online,
                src_dirs,
                &pkg_config.name,
                pkg_config.version,
                deps,
                fuel,
            );
            proof {
                if r is Ok {
                    let app = r->Ok_0;
                    assert(pkg_merged_ranges(*pkg_config, d0));
                    assert(exists|d: crate::provider::DepView|
                        #[trigger] pkg_merged_ranges(*pkg_config, d) && match *connectivity {
                            ConnectivityStrategy::Offline => solved_with(
                                offline@,
                                pkg_config.name@,
                                pkg_config.version,
                                d,
                                app,
                            ),
                            ConnectivityStrategy::Online(_) => solved_with(
                                online@,
                                pkg_config.name@,
                                pkg_config.version,
                                d,
                                app,
                            ),
                            ConnectivityStrategy::Progressive => solved_with(
                                offline@,
                                pkg_config.name@,
                                pkg_config.version,
                                d,
                                app,
                            ) || solved_with(
                                online@,
                                pkg_config.name@,
                                pkg_config.version,
                                d,
                                app,
                            ),
                        });
                }
            }
            r
        },
    }
}

/// After a fresh install, the test configuration reflects an actual
/// resolution: some query `q` — the application's combined pins plus the
/// framework — admits a valid solution `sol`; the direct test pin is the
/// framework's solved version, and the indirect test pins gain exactly the
/// newly selected packages at their solved versions.
pub open spec fn installed_with(
    regv: crate::provider::RegView,
    before: ApplicationConfig,
    after: ApplicationConfig,
) -> bool {
    exists|q: crate::provider::DepView, sol: Seq<(PkgKey, Version)>|
        #[trigger] valid_solution(regv, root_key(), crate::version::zero_version(), q, sol) && (
        forall|k: PkgKey|
            #[trigger] key_contains(q, k) == (key_contains(
                before.test_dependencies.indirect@,
                k,
            ) || key_contains(before.dependencies.indirect@, k) || key_contains(
                before.test_dependencies.direct@,
                k,
            ) || key_contains(before.dependencies.direct@, k) || k == test_key())) && key_contains(
            sol,
            test_key(),
        ) && key_value(after.test_dependencies.direct@, test_key()) == key_value(
            sol,
            test_key(),
        ) && (forall|k: PkgKey|
            #[trigger] key_contains(after.test_dependencies.indirect@, k) == (key_contains(
                before.test_dependencies.indirect@,
                k,
            ) || (key_contains(sol, k) && !key_contains(q, k)))) && (forall|k: PkgKey|
            key_contains(sol, k) && !key_contains(q, k) ==> #[trigger] key_value(
                after.test_dependencies.indirect@,
                k,
            ) == key_value(sol, k)) && (forall|k: PkgKey|
            !(key_contains(sol, k) && !key_contains(q, k)) && key_contains(
                before.test_dependencies.indirect@,
                k,
            ) ==> #[trigger] key_value(after.test_dependencies.indirect@, k) == key_value(
                before.test_dependencies.indirect@,
                k,
            ))
}

/// The two synthetic identities differ from the test framework's.
proof fn lemma_test_key_not_root()
    ensures
        test_key() != root_key(),
{
    reveal_strlit("elm-explorations");
    reveal_strlit("root");
    assert(("elm-explorations"@).len() == 16);
    assert(("root"@).len() == 4);
}

/// Install the test framework package into the test dependencies of an
/// application project.
#[verifier::rlimit(100)]
#[verifier::spinoff_prover]
fn init_app(
    connectivity: &ConnectivityStrategy,
    offline: &Registry,
    online: &Registry,
    app_config: ApplicationConfig,
    fuel: u64,
) -> (r: Result<ApplicationConfig, SolveError>)
    requires
        offline.wf(),
        online.wf(),
        app_config.wf(),
    ensures
        r matches Ok(c) ==> c.wf() && (key_contains(c.test_dependencies.direct@, test_key())
            || key_contains(c.dependencies.direct@, test_key())),
        r matches Ok(c) ==> c.dependencies.direct@ == app_config.dependencies.direct@
            && c.dependencies.indirect@ == app_config.dependencies.indirect@,
        r matches Ok(c) ==> (key_contains(app_config.test_dependencies.indirect@, test_key())
            ==> {
            // an indirect test pin is moved into the direct test pins
            &&& key_contains(c.test_dependencies.direct@, test_key())
            &&& key_value(c.test_dependencies.direct@, test_key()) == key_value(
                app_config.test_dependencies.indirect@,
                test_key(),
            )
            &&& !key_contains(c.test_dependencies.indirect@, test_key())
            &&& forall|k: PkgKey|
                k != test_key() ==> #[trigger] key_contains(c.test_dependencies.direct@, k)
                    == key_contains(app_config.test_dependencies.direct@, k)
            &&& forall|k: PkgKey|
                k != test_key() ==> #[trigger] key_contains(c.test_dependencies.indirect@, k)
                    == key_contains(app_config.test_dependencies.indirect@, k)
            &&& forall|k: PkgKey|
                k != test_key() && key_contains(app_config.test_dependencies.direct@, k)
                    ==> #[trigger] key_value(c.test_dependencies.direct@, k) == key_value(
                    app_config.test_dependencies.direct@,
                    k,
                )
            &&& forall|k: PkgKey|
                k != test_key() && key_contains(app_config.test_dependencies.indirect@, k)
                    ==> #[trigger] key_value(c.test_dependencies.indirect@, k) == key_value(
                    app_config.test_dependencies.indirect@,
                    k,
                )
        }),
        r matches Ok(c) ==> (!key_contains(app_config.test_dependencies.indirect@, test_key())
            && key_contains(app_config.dependencies.indirect@, test_key()) ==> {
            // an indirect pin is copied into the direct test pins
            &&& key_contains(c.test_dependencies.direct@, test_key())
            &&& key_value(c.test_dependencies.direct@, test_key()) == key_value(
                app_config.dependencies.indirect@,
                test_key(),
            )
            &&& c.test_dependencies.indirect@ == app_config.test_dependencies.indirect@
            &&& forall|k: PkgKey|
                k != test_key() ==> #[trigger] key_contains(c.test_dependencies.direct@, k)
                    == key_contains(app_config.test_dependencies.direct@, k)
            &&& forall|k: PkgKey|
                k != test_key() && key_contains(app_config.test_dependencies.direct@, k)
                    ==> #[trigger] key_value(c.test_dependencies.direct@, k) == key_value(
                    app_config.test_dependencies.direct@,
                    k,
                )
        }),
        r matches Ok(c) ==> (!key_contains(app_config.test_dependencies.indirect@, test_key())
            && !key_contains(app_config.dependencies.indirect@, test_key()) && (key_contains(
            app_config.test_dependencies.direct@,
            test_key(),
        ) || key_contains(app_config.dependencies.direct@, test_key())) ==> {
            // already a direct pin: nothing moves
            &&& c.test_dependencies.direct@ == app_config.test_dependencies.direct@
            &&& c.test_dependencies.indirect@ == app_config.test_dependencies.indirect@
        }),
        r matches Ok(c) ==> (!key_contains(app_config.test_dependencies.indirect@, test_key())
            && !key_contains(app_config.dependencies.indirect@, test_key()) && !key_contains(
            app_config.test_dependencies.direct@,
            test_key(),
        ) && !key_contains(app_config.dependencies.direct@, test_key()) ==> {
            // fresh install: the solved framework version, inside [1.0.0, 2.0.0)
            &&& key_contains(c.test_dependencies.direct@, test_key())
            &&& (Version { major: 1u64, minor: 0u64, patch: 0u64 }).spec_le(
                key_value(c.test_dependencies.direct@, test_key()),
            )
            &&& key_value(c.test_dependencies.direct@, test_key()).spec_lt(
                Version { major: 2u64, minor: 0u64, patch: 0u64 },
            )
            &&& forall|k: PkgKey|
                k != test_key() ==> #[trigger] key_contains(c.test_dependencies.direct@, k)
                    == key_contains(app_config.test_dependencies.direct@, k)
            &&& forall|k: PkgKey|
                k != test_key() && key_contains(app_config.test_dependencies.direct@, k)
                    ==> #[trigger] key_value(c.test_dependencies.direct@, k) == key_value(
                    app_config.test_dependencies.direct@,
                    k,
                )
            &&& match *connectivity {
                ConnectivityStrategy::Offline => installed_with(offline@, app_config, c),
                ConnectivityStrategy::Online(_) => installed_with(online@, app_config, c),
                ConnectivityStrategy::Progressive => installed_with(offline@, app_config, c)
                    || installed_with(online@, app_config, c),
            }
        }),
{
    let ghost before_cfg = app_config;
    let ghost deps_direct0 = app_config.dependencies.direct@;
    let ghost deps_indirect0 = app_config.dependencies.indirect@;
    let ghost test_direct0 = app_config.test_dependencies.direct@;
    let ghost test_indirect0 = app_config.test_dependencies.indirect@;
    let mut app_config = app_config;
    // every dependency the application already pins, direct or indirect
    let mut all_deps = DepMap::new();
    pins_to_exact(&app_config.test_dependencies.indirect, &mut all_deps);
    let ghost ad1 = all_deps@;
    pins_to_exact(&app_config.dependencies.indirect, &mut all_deps);
    let ghost ad2 = all_deps@;
    pins_to_exact(&app_config.test_dependencies.direct, &mut all_deps);
    let ghost ad3 = all_deps@;
    pins_to_exact(&app_config.dependencies.direct, &mut all_deps);
    let ghost ad4 = all_deps@;
    match solve_check(connectivity, offline, online, &all_deps, true, fuel) {
        Err(e) => {
            return Err(e);
        },
        Ok(()) => {},
    }
    let test_pkg = Pkg::new("elm-explorations", "test");
    if all_deps.contains_key(&test_pkg) {
        // already a dependency: promote an indirect pin to a direct test
        // dependency so the test modules can import it
        match app_config.test_dependencies.indirect.get(&test_pkg) {
            Some(v) => {
                app_config.test_dependencies.indirect.remove(&test_pkg);
                app_config.test_dependencies.direct.insert(test_pkg, v);
            },
            None => {
                match app_config.dependencies.indirect.get(&test_pkg) {
                    Some(v) => {
                        app_config.test_dependencies.direct.insert(test_pkg, v);
                    },
                    None => {},
                }
            },
        }
        return Ok(app_config);
    }
    // add the test framework and solve the full set again
    let test_lo = Version::new(1, 0, 0);
    let test_hi = Version::new(2, 0, 0);
    let test_range = Range::between(test_lo, test_hi);
    let ghost test_rv = test_range@;
    proof {
        assert forall|w: Version|
            #[trigger] crate::range::sem_seq(test_rv, w) == (test_lo.spec_le(w) && w.spec_lt(
                test_hi,
            )) by {
            assert(test_range.sem(w) == (test_lo.spec_le(w) && w.spec_lt(test_hi)));
        }
    }
    all_deps.insert(test_pkg.duplicate(), test_range);
    let ghost adv = all_deps@;
    proof {
        // the query's keys: the four pin maps plus the test framework
        assert forall|k: PkgKey|
            #[trigger] key_contains(adv, k) == (key_contains(test_indirect0, k) || key_contains(
                deps_indirect0,
                k,
            ) || key_contains(test_direct0, k) || key_contains(deps_direct0, k) || k
                == test_key()) by {
            assert(key_contains(ad2, k) == (key_contains(ad1, k) || key_contains(
                deps_indirect0,
                k,
            )));
            assert(key_contains(ad3, k) == (key_contains(ad2, k) || key_contains(
                test_direct0,
                k,
            )));
            assert(key_contains(ad4, k) == (key_contains(ad3, k) || key_contains(
                deps_direct0,
                k,
            )));
        }
    }
    let root = Pkg::root();
    let zero = Version::zero();
    let solution = match solve_deps(connectivity, offline, online, &all_deps, &root, zero, fuel) {
        Ok(s) => s,
        Err(e) => {
            return Err(SolveError::Resolution(e));
        },
    };
    proof {
        // the root requires the test package, so a valid solution selects it
        lemma_test_key_not_root();
        let rd = all_deps@;
        let regv = if valid_solution(offline@, root@, zero, rd, solution@) {
            offline@
        } else {
            online@
        };
        assert(valid_solution(regv, root@, zero, rd, solution@));
        let rels = crate::adapter::a_rels(regv, root@, zero, rd, root@);
        assert(rels == seq![(zero, Some(rd))]);
        assert(crate::maps::unique_keys(rels));
        lemma_key_at(rels, 0);
        assert(crate::solution::entry_ok(regv, root@, zero, rd, solution@, root@, zero));
        assert(crate::solution::deps_ok(solution@, root@, zero, rd));
        let j = crate::maps::key_index(rd, test_key());
        assert(0 <= j < rd.len() && rd[j].0 == test_key());
        assert(crate::solution::dep_entry_ok(solution@, root@, zero, rd[j].0, rd[j].1));
        assert(key_contains(solution@, test_key()));
        crate::solution::lemma_valid_solution_versions(regv, root@, zero, rd, solution@);
    }
    let test_version = match solution.get(&test_pkg) {
        Some(v) => v,
        None => {
            proof {
                assert(false);
            }
            Version::zero()
        },
    };
    proof {
        let s = crate::maps::key_index(solution@, test_key());
        lemma_key_at(solution@, s);
        // the solved framework version obeys the injected constraint
        let rd = all_deps@;
        let j = crate::maps::key_index(rd, test_key());
        assert(key_value(rd, test_key()) == test_rv);
        assert(rd[j].1 == test_rv);
        assert(crate::solution::world_version(solution@, root@, zero, test_key()) == key_value(
            solution@,
            test_key(),
        ));
        assert(crate::range::sem_seq(test_rv, test_version));
        assert(test_lo.spec_le(test_version) && test_version.spec_lt(test_hi));
    }
    app_config.test_dependencies.direct.insert(test_pkg.duplicate(), test_version);
    let ghost tdd = app_config.test_dependencies.direct@;
    proof {
        assert(!key_contains(solution@, root@));
        assert(app_config.test_dependencies.indirect@ == test_indirect0);
        assert forall|k: PkgKey| #[trigger] key_contains(test_indirect0, k) implies key_contains(
            adv,
            k,
        ) by {}
    }
    // every newly selected package becomes an indirect test dependency
    let n = solution.len();
    let mut i: usize = 0;
    while i < n
        invariant
            all_deps.wf(),
            solution.wf(),
            app_config.wf(),
            key_contains(app_config.test_dependencies.direct@, test_key()),
            app_config.test_dependencies.direct@ == tdd,
            app_config.dependencies.direct@ == deps_direct0,
            app_config.dependencies.indirect@ == deps_indirect0,
            n == solution@.len(),
            0 <= i <= n,
            adv == all_deps@,
            !key_contains(solution@, root@),
            forall|t: int| 0 <= t < solution@.len() ==> (#[trigger] solution@[t]).1.patch
                < u64::MAX,
            forall|k: PkgKey| #[trigger] key_contains(test_indirect0, k) ==> key_contains(adv, k),
            forall|k: PkgKey|
                #[trigger] key_contains(app_config.test_dependencies.indirect@, k) == (
                key_contains(test_indirect0, k) || ((exists|t: int|
                    0 <= t < i && (#[trigger] solution@[t]).0 == k) && !key_contains(adv, k))),
            forall|k: PkgKey|
                ((exists|t: int| 0 <= t < i && (#[trigger] solution@[t]).0 == k)
                    && !key_contains(adv, k)) ==> key_value(
                    app_config.test_dependencies.indirect@,
                    k,
                ) == key_value(solution@, k),
            forall|k: PkgKey|
                !((exists|t: int| 0 <= t < i && (#[trigger] solution@[t]).0 == k)
                    && !key_contains(adv, k)) && key_contains(test_indirect0, k) ==> key_value(
                    app_config.test_dependencies.indirect@,
                    k,
                ) == key_value(test_indirect0, k),
        decreases n - i,
    {
        let p = solution.key_at(i);
        let v = solution.version_at(i);
        proof {
            lemma_key_at(solution@, i as int);
            if solution@[i as int].0 == root@ {
                assert(key_contains(solution@, root@));
            }
        }
        let ghost pre_ti = app_config.test_dependencies.indirect@;
        if !all_deps.contains_key(p) && !p.eq_pkg(&root) {
            app_config.test_dependencies.indirect.insert(p.duplicate(), v);
        }
        proof {
            let ti = app_config.test_dependencies.indirect@;
            let pk2 = solution@[i as int].0;
            assert forall|k: PkgKey|
                #[trigger] key_contains(ti, k) == (key_contains(test_indirect0, k) || ((exists|
                    t: int,
                |
                    0 <= t < i + 1 && (#[trigger] solution@[t]).0 == k) && !key_contains(
                    adv,
                    k,
                ))) by {
                if k == pk2 {
                    assert(solution@[i as int].0 == k);
                    if key_contains(adv, k) {
                        assert(ti == pre_ti);
                    }
                } else {
                    assert(key_contains(ti, k) == key_contains(pre_ti, k));
                    if exists|t: int| 0 <= t < i + 1 && (#[trigger] solution@[t]).0 == k {
                        let t = choose|t: int|
                            0 <= t < i + 1 && (#[trigger] solution@[t]).0 == k;
                        assert(t < i);
                    }
                }
            }
            assert forall|k: PkgKey|
                ((exists|t: int| 0 <= t < i + 1 && (#[trigger] solution@[t]).0 == k)
                    && !key_contains(adv, k)) implies key_value(ti, k) == key_value(
                solution@,
                k,
            ) by {
                let t = choose|t: int| 0 <= t < i + 1 && (#[trigger] solution@[t]).0 == k;
                if k == pk2 {
                    assert(key_value(ti, k) == solution@[i as int].1);
                } else {
                    assert(t < i);
                    assert(key_value(ti, k) == key_value(pre_ti, k));
                }
            }
            assert forall|k: PkgKey|
                !((exists|t: int| 0 <= t < i + 1 && (#[trigger] solution@[t]).0 == k)
                    && !key_contains(adv, k)) && key_contains(test_indirect0, k) implies
                key_value(ti, k) == key_value(test_indirect0, k) by {
                assert(key_contains(adv, k));
                if k == pk2 {
                    assert(ti == pre_ti);
                } else {
                    assert(key_value(ti, k) == key_value(pre_ti, k));
                }
                if !((exists|t: int| 0 <= t < i && (#[trigger] solution@[t]).0 == k)
                    && !key_contains(adv, k)) {
                } else {
                    assert(false);
                }
            }
        }
        i += 1;
    }
    proof {
        reveal_strlit("root");
        reveal_strlit("");
        assert(root@ == root_key());
        assert(zero == crate::version::zero_version());
        // the loop covered the whole solution
        let ti = app_config.test_dependencies.indirect@;
        assert forall|k: PkgKey|
            #[trigger] key_contains(ti, k) == (key_contains(test_indirect0, k) || (key_contains(
                solution@,
                k,
            ) && !key_contains(adv, k))) by {
            if key_contains(solution@, k) {
                let t = crate::maps::key_index(solution@, k);
                assert(0 <= t < n && solution@[t].0 == k);
            }
            if exists|t: int| 0 <= t < n && (#[trigger] solution@[t]).0 == k {
                assert(key_contains(solution@, k));
            }
        }
        assert forall|k: PkgKey|
            key_contains(solution@, k) && !key_contains(adv, k) implies #[trigger] key_value(
            ti,
            k,
        ) == key_value(solution@, k) by {
            let t = crate::maps::key_index(solution@, k);
            assert(0 <= t < n && solution@[t].0 == k);
        }
        assert forall|k: PkgKey|
            !(key_contains(solution@, k) && !key_contains(adv, k)) && key_contains(
                test_indirect0,
                k,
            ) implies #[trigger] key_value(ti, k) == key_value(test_indirect0, k) by {
            if key_contains(solution@, k) {
                let t = crate::maps::key_index(solution@, k);
                assert(0 <= t < n && solution@[t].0 == k);
            }
        }
        // the direct pin is the framework's solved version
        assert(key_value(tdd, test_key()) == key_value(solution@, test_key()));
        // witness the per-mode resolution
        assert(before_cfg.test_dependencies.indirect@ == test_indirect0);
        assert(before_cfg.test_dependencies.direct@ == test_direct0);
        assert(before_cfg.dependencies.indirect@ == deps_indirect0);
        assert(before_cfg.dependencies.direct@ == deps_direct0);
        match *connectivity {
            ConnectivityStrategy::Offline => {
                assert(valid_solution(
                    offline@,
                    root_key(),
                    crate::version::zero_version(),
                    adv,
                    solution@,
                ));
                assert(installed_with(offline@, before_cfg, app_config));
            },
            ConnectivityStrategy::Online(_) => {
                assert(valid_solution(
                    online@,
                    root_key(),
                    crate::version::zero_version(),
                    adv,
                    solution@,
                ));
                assert(installed_with(online@, before_cfg, app_config));
            },
            ConnectivityStrategy::Progressive => {
                if valid_solution(offline@, root@, zero, adv, solution@) {
                    assert(valid_solution(
                        offline@,
                        root_key(),
                        crate::version::zero_version(),
                        adv,
                        solution@,
                    ));
                    assert(installed_with(offline@, before_cfg, app_config));
                } else {
                    assert(valid_solution(
                        online@,
                        root_key(),
                        crate::version::zero_version(),
                        adv,
                        solution@,
                    ));
                    assert(installed_with(online@, before_cfg, app_config));
                }
            },
        }
    }
    Ok(app_config)
}

/// Install the test framework package into the test dependencies of a
/// package project.
fn init_pkg(
    connectivity: &ConnectivityStrategy,
    offline: &Registry,
    online: &Registry,
    pkg_config: PackageConfig,
    fuel: u64,
) -> (r: Result<PackageConfig, SolveError>)
    requires
        offline.wf(),
        online.wf(),
        pkg_config.wf(),
    ensures
        r matches Ok(c) ==> c.wf() && (key_contains(c.test_dependencies@, test_key())
            || key_contains(c.dependencies@, test_key())),
        r matches Ok(c) ==> c.dependencies@ == pkg_config.dependencies@ && c.name@
            == pkg_config.name@ && c.version == pkg_config.version,
        r matches Ok(c) ==> ((key_contains(pkg_config.dependencies@, test_key())
            || key_contains(pkg_config.test_dependencies@, test_key()))
            ==> c.test_dependencies@ == pkg_config.test_dependencies@),
        r matches Ok(c) ==> (!(key_contains(pkg_config.dependencies@, test_key())
            || key_contains(pkg_config.test_dependencies@, test_key())) ==> {
            &&& key_contains(c.test_dependencies@, test_key())
            &&& between_pin(
                key_value(c.test_dependencies@, test_key()),
                Version { major: 1u64, minor: 0u64, patch: 0u64 },
                Version { major: 2u64, minor: 0u64, patch: 0u64 },
            )
            &&& forall|k: PkgKey|
                k != test_key() ==> #[trigger] key_contains(c.test_dependencies@, k)
                    == key_contains(pkg_config.test_dependencies@, k)
            &&& forall|k: PkgKey|
                k != test_key() && key_contains(pkg_config.test_dependencies@, k)
                    ==> #[trigger] key_value(c.test_dependencies@, k) == key_value(
                    pkg_config.test_dependencies@,
                    k,
                )
        }),
{
    let mut pkg_config = pkg_config;
    let mut all_deps = DepMap::new();
    ranges_merge(&pkg_config.test_dependencies, &mut all_deps);
    ranges_merge(&pkg_config.dependencies, &mut all_deps);
    match solve_check(connectivity, offline, online, &all_deps, false, fuel) {
        Err(e) => {
            return Err(e);
        },
        Ok(()) => {},
    }
    let test_pkg = Pkg::new("elm-explorations", "test");
    if all_deps.contains_key(&test_pkg) {
        return Ok(pkg_config);
    }
    let test_lo = Version::new(1, 0, 0);
    let test_hi = Version::new(2, 0, 0);
    let test_range = Range::between(test_lo, test_hi);
    let ghost test_rv = test_range@;
    proof {
        assert forall|w: Version|
            #[trigger] crate::range::sem_seq(test_rv, w) == (test_lo.spec_le(w) && w.spec_lt(
                test_hi,
            )) by {
            assert(test_range.sem(w) == (test_lo.spec_le(w) && w.spec_lt(test_hi)));
        }
        assert(between_pin(test_rv, test_lo, test_hi));
    }
    all_deps.insert(test_pkg.duplicate(), test_range.duplicate());
    // check that the test framework is compatible with the package
    match solve_deps(
        connectivity,
        offline,
        online,
        &all_deps,
        &pkg_config.name,
        pkg_config.version,
        fuel,
    ) {
        Ok(_) => {},
        Err(e) => {
            return Err(SolveError::Resolution(e));
        },
    }
    pkg_config.test_dependencies.insert(test_pkg, test_range);
    Ok(pkg_config)
}

/// Install the test framework package into the project's test
/// dependencies, offline only or with progressive fallback.
pub fn init(
    offline_mode: bool,
    offline: &Registry,
    online: &Registry,
    config: ProjectConfig,
    fuel: u64,
) -> (r: Result<ProjectConfig, SolveError>)
    requires
        offline.wf(),
        online.wf(),
        config.wf(),
    ensures
        r matches Ok(c) ==> c.wf() && match c {
            ProjectConfig::Application(a) => key_contains(
                a.test_dependencies.direct@,
                test_key(),
            ) || key_contains(a.dependencies.direct@, test_key()),
            ProjectConfig::Package(p) => key_contains(p.test_dependencies@, test_key())
                || key_contains(p.dependencies@, test_key()),
        },
        r matches Ok(c) ==> match (c, config) {
            (ProjectConfig::Application(a), ProjectConfig::Application(before)) => {
                a.dependencies.direct@ == before.dependencies.direct@
                    && a.dependencies.indirect@ == before.dependencies.indirect@
            },
            (ProjectConfig::Package(p), ProjectConfig::Package(before)) => {
                p.dependencies@ == before.dependencies@
            },
            _ => false,
        },
        r matches Ok(c) ==> match (c, config) {
            (ProjectConfig::Application(a), ProjectConfig::Application(before)) => {
                // a freshly installed framework version obeys [1.0.0, 2.0.0),
                // and under offline mode reflects a resolution against the
                // local cache alone
                !key_contains(before.test_dependencies.indirect@, test_key())
                    && !key_contains(before.dependencies.indirect@, test_key())
                    && !key_contains(before.test_dependencies.direct@, test_key())
                    && !key_contains(before.dependencies.direct@, test_key()) ==> ((Version {
                    major: 1u64,
                    minor: 0u64,
                    patch: 0u64,
                }).spec_le(key_value(a.test_dependencies.direct@, test_key())) && key_value(
                    a.test_dependencies.direct@,
                    test_key(),
                ).spec_lt(Version { major: 2u64, minor: 0u64, patch: 0u64 }) && (offline_mode
                    ==> installed_with(offline@, before, a)))
            },
            (ProjectConfig::Package(p), ProjectConfig::Package(before)) => {
                // an already-declared framework leaves the config unchanged;
                // otherwise exactly the [1.0.0, 2.0.0) constraint is added
                &&& ((key_contains(before.dependencies@, test_key()) || key_contains(
                    before.test_dependencies@,
                    test_key(),
                )) ==> p.test_dependencies@ == before.test_dependencies@)
                &&& (!(key_contains(before.dependencies@, test_key()) || key_contains(
                    before.test_dependencies@,
                    test_key(),
                )) ==> between_pin(
                    key_value(p.test_dependencies@, test_key()),
                    Version { major: 1u64, minor: 0u64, patch: 0u64 },
                    Version { major: 2u64, minor: 0u64, patch: 0u64 },
                ))
            },
            _ => false,
        },
{
    let strategy = if offline_mode {
        ConnectivityStrategy::Offline
    } else {
        ConnectivityStrategy::Progressive
    };
    match config {
        ProjectConfig::Application(app_config) => {
            match init_app(&strategy, offline, online, app_config, fuel) {
                Ok(c) => Ok(ProjectConfig::Application(c)),
                Err(e) => Err(e),
            }
        },
        ProjectConfig::Package(pkg_config) => {
            match init_pkg(&strategy, offline, online, pkg_config, fuel) {
                Ok(c) => Ok(ProjectConfig::Package(c)),
                Err(e) => Err(e),
            }
        },
    }
}

} // verus!
