//! The resolver on concrete registries: scenarios, determinism, solution
//! validity, root exclusion, unsatisfiability and progressive fallback.

use elm_test_deps::deps::{solve_deps, ConnectivityStrategy};
use elm_test_deps::maps::{DepMap, VersionMap};
use elm_test_deps::pkg::Pkg;
use elm_test_deps::provider::Registry;
use elm_test_deps::range::Range;
use elm_test_deps::solver::{resolve, ResolutionError, VersionStrategy};
use elm_test_deps::version::Version;

const FUEL: u64 = 10000;

fn v(major: u64, minor: u64, patch: u64) -> Version {
    Version::new(major, minor, patch)
}

fn pkg(author: &str, name: &str) -> Pkg {
    Pkg::new(author, name)
}

fn dep(map: &mut DepMap, author: &str, name: &str, lo: Version, hi: Version) {
    map.insert(pkg(author, name), Range::between(lo, hi));
}

/// root depends on a and b in [1.0.0, 2.0.0); a@1.0.0 needs c in
/// [1.0.0, 2.0.0); b@1.0.0 needs c in [1.5.0, 2.0.0); c has 1.5.0, 1.9.0.
fn shared_dependency_registry() -> (Registry, DepMap) {
    let mut reg = Registry::new();
    let mut a_deps = DepMap::new();
    dep(&mut a_deps, "e", "c", v(1, 0, 0), v(2, 0, 0));
    reg.add_release(&pkg("e", "a"), v(1, 0, 0), Some(a_deps));
    let mut b_deps = DepMap::new();
    dep(&mut b_deps, "e", "c", v(1, 5, 0), v(2, 0, 0));
    reg.add_release(&pkg("e", "b"), v(1, 0, 0), Some(b_deps));
    reg.add_release(&pkg("e", "c"), v(1, 5, 0), Some(DepMap::new()));
    reg.add_release(&pkg("e", "c"), v(1, 9, 0), Some(DepMap::new()));
    let mut root_deps = DepMap::new();
    dep(&mut root_deps, "e", "a", v(1, 0, 0), v(2, 0, 0));
    dep(&mut root_deps, "e", "b", v(1, 0, 0), v(2, 0, 0));
    (reg, root_deps)
}

fn solve_newest(reg: &Registry, root_deps: &DepMap) -> Result<VersionMap, ResolutionError> {
    let root = Pkg::root();
    resolve(reg, VersionStrategy::Newest, &root, v(0, 0, 0), root_deps, FUEL)
}

#[test]
fn no_dependencies_yields_the_empty_solution() {
    let reg = Registry::new();
    let sol = solve_newest(&reg, &DepMap::new()).expect("resolution should succeed");
    assert_eq!(sol.len(), 0);
}

#[test]
fn shared_dependency_picks_the_intersection() {
    let (reg, root_deps) = shared_dependency_registry();
    let sol = solve_newest(&reg, &root_deps).expect("resolution should succeed");
    assert_eq!(sol.get(&pkg("e", "a")), Some(v(1, 0, 0)));
    assert_eq!(sol.get(&pkg("e", "b")), Some(v(1, 0, 0)));
    // newest: c at 1.9.0, never below 1.5.0
    assert_eq!(sol.get(&pkg("e", "c")), Some(v(1, 9, 0)));
}

#[test]
fn shared_dependency_oldest_strategy() {
    let (reg, root_deps) = shared_dependency_registry();
    let root = Pkg::root();
    let sol = resolve(&reg, VersionStrategy::Oldest, &root, v(0, 0, 0), &root_deps, FUEL)
        .expect("resolution should succeed");
    // oldest: c at 1.5.0, still never below 1.5.0
    assert_eq!(sol.get(&pkg("e", "c")), Some(v(1, 5, 0)));
}

#[test]
fn returned_solution_is_valid_and_excludes_the_root() {
    let (reg, root_deps) = shared_dependency_registry();
    let sol = solve_newest(&reg, &root_deps).expect("resolution should succeed");
    // the synthetic root is not part of the solution
    assert_eq!(sol.get(&Pkg::root()), None);
    // every root constraint is met by the solution
    for i in 0..root_deps.len() {
        let p = root_deps.key_at(i);
        let range = root_deps.range_at(i);
        let chosen = sol.get(p).expect("a required package must be selected");
        assert!(range.contains(&chosen));
    }
    // a's and b's own constraints on c are met
    let c = sol.get(&pkg("e", "c")).unwrap();
    assert!(Range::between(v(1, 0, 0), v(2, 0, 0)).contains(&c));
    assert!(Range::between(v(1, 5, 0), v(2, 0, 0)).contains(&c));
}

#[test]
fn resolution_is_deterministic() {
    let (reg, root_deps) = shared_dependency_registry();
    let first = solve_newest(&reg, &root_deps).expect("resolution should succeed");
    let second = solve_newest(&reg, &root_deps).expect("resolution should succeed");
    assert_eq!(first, second);
}

#[test]
fn mutually_exclusive_constraints_are_unsatisfiable() {
    // a needs c in [1.0.0, 1.5.0), b needs c in [1.5.0, 2.0.0): no overlap
    let mut reg = Registry::new();
    let mut a_deps = DepMap::new();
    dep(&mut a_deps, "e", "c", v(1, 0, 0), v(1, 5, 0));
    reg.add_release(&pkg("e", "a"), v(1, 0, 0), Some(a_deps));
    let mut b_deps = DepMap::new();
    dep(&mut b_deps, "e", "c", v(1, 5, 0), v(2, 0, 0));
    reg.add_release(&pkg("e", "b"), v(1, 0, 0), Some(b_deps));
    reg.add_release(&pkg("e", "c"), v(1, 2, 0), Some(DepMap::new()));
    reg.add_release(&pkg("e", "c"), v(1, 7, 0), Some(DepMap::new()));
    let mut root_deps = DepMap::new();
    dep(&mut root_deps, "e", "a", v(1, 0, 0), v(2, 0, 0));
    dep(&mut root_deps, "e", "b", v(1, 0, 0), v(2, 0, 0));
    let err = solve_newest(&reg, &root_deps).expect_err("resolution must fail");
    match err {
        ResolutionError::NoSolution(text) => {
            // the explanation ends in the derived empty incompatibility
            assert!(text.contains("no assignment is possible at all"));
        },
        other => panic!("expected an unsatisfiability proof, got {:?}", other),
    }
}

#[test]
fn indirect_self_conflict_terminates_with_no_solution() {
    // a@1.0.0 requires a itself in [2.0.0, 3.0.0): impossible
    let mut reg = Registry::new();
    let mut a_deps = DepMap::new();
    dep(&mut a_deps, "e", "a", v(2, 0, 0), v(3, 0, 0));
    reg.add_release(&pkg("e", "a"), v(1, 0, 0), Some(a_deps));
    let mut root_deps = DepMap::new();
    dep(&mut root_deps, "e", "a", v(1, 0, 0), v(2, 0, 0));
    let err = solve_newest(&reg, &root_deps).expect_err("resolution must fail");
    assert!(matches!(err, ResolutionError::NoSolution(_)));
}

#[test]
fn unknown_package_is_a_provider_error() {
    let reg = Registry::new();
    let mut root_deps = DepMap::new();
    dep(&mut root_deps, "e", "ghost", v(1, 0, 0), v(2, 0, 0));
    let err = solve_newest(&reg, &root_deps).expect_err("resolution must fail");
    assert!(matches!(err, ResolutionError::ProviderError { .. }));
}

#[test]
fn missing_metadata_surfaces_for_retrieval() {
    // the version list is known but the dependency metadata is not yet
    let mut reg = Registry::new();
    reg.add_release(&pkg("e", "a"), v(1, 0, 0), None);
    let mut root_deps = DepMap::new();
    dep(&mut root_deps, "e", "a", v(1, 0, 0), v(2, 0, 0));
    let err = solve_newest(&reg, &root_deps).expect_err("resolution must fail");
    match err {
        ResolutionError::ProviderError { package, version, .. } => {
            assert_eq!(package, pkg("e", "a"));
            assert_eq!(version, Some(v(1, 0, 0)));
        },
        other => panic!("expected a provider error, got {:?}", other),
    }
    // after the caller retrieves the metadata, resolution resumes and wins
    reg.add_release(&pkg("e", "a"), v(1, 0, 0), Some(DepMap::new()));
    let sol = solve_newest(&reg, &root_deps).expect("resolution should succeed");
    assert_eq!(sol.get(&pkg("e", "a")), Some(v(1, 0, 0)));
}

#[test]
fn progressive_falls_back_to_the_online_registry() {
    // offline lacks the package entirely; online has it
    let offline = Registry::new();
    let mut online = Registry::new();
    online.add_release(&pkg("e", "a"), v(1, 0, 0), Some(DepMap::new()));
    online.add_release(&pkg("e", "a"), v(1, 2, 0), Some(DepMap::new()));
    let mut root_deps = DepMap::new();
    dep(&mut root_deps, "e", "a", v(1, 0, 0), v(2, 0, 0));
    let root = Pkg::root();

    let offline_only = solve_deps(
        &ConnectivityStrategy::Offline,
        &offline,
        &online,
        &root_deps,
        &root,
        v(0, 0, 0),
        FUEL,
    );
    assert!(offline_only.is_err());

    let progressive = solve_deps(
        &ConnectivityStrategy::Progressive,
        &offline,
        &online,
        &root_deps,
        &root,
        v(0, 0, 0),
        FUEL,
    )
    .expect("progressive resolution should succeed");
    let online_only = solve_deps(
        &ConnectivityStrategy::Online(VersionStrategy::Newest),
        &offline,
        &online,
        &root_deps,
        &root,
        v(0, 0, 0),
        FUEL,
    )
    .expect("online resolution should succeed");
    assert_eq!(progressive, online_only);
    assert_eq!(progressive.get(&pkg("e", "a")), Some(v(1, 2, 0)));
}

#[test]
fn an_exhausted_step_budget_is_a_cancelled_outcome() {
    let (reg, root_deps) = shared_dependency_registry();
    let root = Pkg::root();
    let err = resolve(&reg, VersionStrategy::Newest, &root, v(0, 0, 0), &root_deps, 0)
        .expect_err("no budget, no resolution");
    assert!(matches!(err, ResolutionError::Cancelled));
}

#[test]
fn transitive_chains_are_followed() {
    let mut reg = Registry::new();
    let mut a_deps = DepMap::new();
    dep(&mut a_deps, "e", "b", v(1, 0, 0), v(2, 0, 0));
    reg.add_release(&pkg("e", "a"), v(1, 0, 0), Some(a_deps));
    let mut b_deps = DepMap::new();
    dep(&mut b_deps, "e", "c", v(2, 0, 0), v(3, 0, 0));
    reg.add_release(&pkg("e", "b"), v(1, 1, 0), Some(b_deps));
    reg.add_release(&pkg("e", "c"), v(2, 5, 0), Some(DepMap::new()));
    // a second, newer c outside b's constraint must not be chosen
    reg.add_release(&pkg("e", "c"), v(3, 1, 0), Some(DepMap::new()));
    let mut root_deps = DepMap::new();
    dep(&mut root_deps, "e", "a", v(1, 0, 0), v(2, 0, 0));
    let sol = solve_newest(&reg, &root_deps).expect("resolution should succeed");
    assert_eq!(sol.get(&pkg("e", "a")), Some(v(1, 0, 0)));
    assert_eq!(sol.get(&pkg("e", "b")), Some(v(1, 1, 0)));
    assert_eq!(sol.get(&pkg("e", "c")), Some(v(2, 5, 0)));
    assert_eq!(sol.len(), 3);
}

#[test]
fn backtracking_recovers_from_a_bad_newest_choice() {
    // a has 1.0.0 and 2.0.0; a@2.0.0 needs c@2 which conflicts with b's
    // need of c@1, so the resolver must back off to a@1.0.0
    let mut reg = Registry::new();
    let mut a2_deps = DepMap::new();
    dep(&mut a2_deps, "e", "c", v(2, 0, 0), v(3, 0, 0));
    let mut a1_deps = DepMap::new();
    dep(&mut a1_deps, "e", "c", v(1, 0, 0), v(2, 0, 0));
    reg.add_release(&pkg("e", "a"), v(1, 0, 0), Some(a1_deps));
    reg.add_release(&pkg("e", "a"), v(2, 0, 0), Some(a2_deps));
    let mut b_deps = DepMap::new();
    dep(&mut b_deps, "e", "c", v(1, 0, 0), v(2, 0, 0));
    reg.add_release(&pkg("e", "b"), v(1, 0, 0), Some(b_deps));
    reg.add_release(&pkg("e", "c"), v(1, 4, 0), Some(DepMap::new()));
    reg.add_release(&pkg("e", "c"), v(2, 4, 0), Some(DepMap::new()));
    let mut root_deps = DepMap::new();
    dep(&mut root_deps, "e", "a", v(1, 0, 0), v(3, 0, 0));
    dep(&mut root_deps, "e", "b", v(1, 0, 0), v(2, 0, 0));
    let sol = solve_newest(&reg, &root_deps).expect("resolution should succeed");
    assert_eq!(sol.get(&pkg("e", "a")), Some(v(1, 0, 0)));
    assert_eq!(sol.get(&pkg("e", "c")), Some(v(1, 4, 0)));
}
