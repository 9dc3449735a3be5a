//! Project-level solving: building the test application's dependencies
//! and installing the test framework.

use elm_test_deps::deps::{init, solve, ConnectivityStrategy, DEFAULT_FUEL};
use elm_test_deps::maps::{DepMap, VersionMap};
use elm_test_deps::pkg::Pkg;
use elm_test_deps::project_config::{
    AppDependencies, ApplicationConfig, PackageConfig, ProjectConfig,
};
use elm_test_deps::provider::Registry;
use elm_test_deps::range::Range;
use elm_test_deps::version::Version;

fn v(major: u64, minor: u64, patch: u64) -> Version {
    Version::new(major, minor, patch)
}

fn pkg(author: &str, name: &str) -> Pkg {
    Pkg::new(author, name)
}

/// A registry holding the runner packages and a small project dependency.
fn runner_registry() -> Registry {
    let mut reg = Registry::new();
    let mut runner_deps = DepMap::new();
    runner_deps.insert(pkg("elm", "json"), Range::between(v(1, 0, 0), v(2, 0, 0)));
    reg.add_release(&pkg("mpizenberg", "elm-test-runner"), v(4, 0, 4), Some(runner_deps));
    reg.add_release(&pkg("elm", "json"), v(1, 1, 3), Some(DepMap::new()));
    reg.add_release(&pkg("elm", "core"), v(1, 0, 5), Some(DepMap::new()));
    let mut test_deps = DepMap::new();
    test_deps.insert(pkg("elm", "core"), Range::between(v(1, 0, 0), v(2, 0, 0)));
    reg.add_release(&pkg("elm-explorations", "test"), v(1, 2, 2), Some(test_deps));
    reg
}

fn app_config(direct: &[(&str, &str, Version)]) -> ApplicationConfig {
    let mut dd = VersionMap::new();
    for (author, name, version) in direct {
        dd.insert(pkg(author, name), *version);
    }
    ApplicationConfig {
        source_directories: vec![String::from("src")],
        elm_version: v(0, 19, 1),
        dependencies: AppDependencies { direct: dd, indirect: VersionMap::new() },
        test_dependencies: AppDependencies { direct: VersionMap::new(), indirect: VersionMap::new() },
    }
}

#[test]
fn solve_builds_the_test_application() {
    let reg = runner_registry();
    let config = ProjectConfig::Application(app_config(&[("elm", "core", v(1, 0, 5))]));
    let src_dirs = vec![String::from("src")];
    let app = solve(
        &ConnectivityStrategy::Offline,
        &reg,
        &Registry::new(),
        &config,
        &src_dirs,
        DEFAULT_FUEL,
    )
    .expect("solving the test application should succeed");
    // the generated configuration targets elm 0.19.1 with the given sources
    assert_eq!(app.elm_version, v(0, 19, 1));
    assert_eq!(app.source_directories, vec![String::from("src")]);
    // the declared dependency stays direct; the runner and its needs are split
    assert_eq!(app.dependencies.direct.get(&pkg("elm", "core")), Some(v(1, 0, 5)));
    assert_eq!(
        app.dependencies.direct.get(&pkg("mpizenberg", "elm-test-runner")),
        Some(v(4, 0, 4))
    );
    assert_eq!(app.dependencies.indirect.get(&pkg("elm", "json")), None);
    assert_eq!(app.dependencies.direct.get(&pkg("elm", "json")), Some(v(1, 1, 3)));
    // no package can be both direct and indirect
    for i in 0..app.dependencies.direct.len() {
        let key = app.dependencies.direct.key_at(i).duplicate();
        assert_eq!(app.dependencies.indirect.get(&key), None);
    }
    // the test dependencies of the generated application are empty
    assert_eq!(app.test_dependencies.direct.len(), 0);
    assert_eq!(app.test_dependencies.indirect.len(), 0);
    // the synthetic root never appears
    assert_eq!(app.dependencies.direct.get(&Pkg::root()), None);
    assert_eq!(app.dependencies.indirect.get(&Pkg::root()), None);
}

#[test]
fn solve_for_a_package_project() {
    let reg = runner_registry();
    let mut dependencies = DepMap::new();
    dependencies.insert(pkg("elm", "core"), Range::between(v(1, 0, 0), v(2, 0, 0)));
    let config = ProjectConfig::Package(PackageConfig {
        name: pkg("author", "project"),
        version: v(1, 0, 0),
        dependencies,
        test_dependencies: DepMap::new(),
    });
    let src_dirs = vec![String::from("src")];
    let app = solve(
        &ConnectivityStrategy::Offline,
        &reg,
        &Registry::new(),
        &config,
        &src_dirs,
        DEFAULT_FUEL,
    )
    .expect("solving the test application should succeed");
    assert_eq!(app.dependencies.direct.get(&pkg("elm", "core")), Some(v(1, 0, 5)));
    // the package project itself never appears in its own dependencies
    assert_eq!(app.dependencies.direct.get(&pkg("author", "project")), None);
    assert_eq!(app.dependencies.indirect.get(&pkg("author", "project")), None);
}

#[test]
fn init_installs_the_test_framework_for_an_application() {
    let reg = runner_registry();
    let config = ProjectConfig::Application(app_config(&[("elm", "core", v(1, 0, 5))]));
    let out = init(true, &reg, &Registry::new(), config, DEFAULT_FUEL).expect("init should succeed");
    match out {
        ProjectConfig::Application(app) => {
            assert_eq!(
                app.test_dependencies.direct.get(&pkg("elm-explorations", "test")),
                Some(v(1, 2, 2))
            );
            // the original direct dependency is untouched
            assert_eq!(app.dependencies.direct.get(&pkg("elm", "core")), Some(v(1, 0, 5)));
        },
        ProjectConfig::Package(_) => panic!("an application must stay an application"),
    }
}

#[test]
fn init_installs_the_test_framework_for_a_package() {
    let reg = runner_registry();
    let mut dependencies = DepMap::new();
    dependencies.insert(pkg("elm", "core"), Range::between(v(1, 0, 0), v(2, 0, 0)));
    let config = ProjectConfig::Package(PackageConfig {
        name: pkg("author", "project"),
        version: v(1, 0, 0),
        dependencies,
        test_dependencies: DepMap::new(),
    });
    let out = init(true, &reg, &Registry::new(), config, DEFAULT_FUEL).expect("init should succeed");
    match out {
        ProjectConfig::Package(p) => {
            let range = p
                .test_dependencies
                .get(&pkg("elm-explorations", "test"))
                .expect("the test framework must be installed");
            assert!(range.contains(&v(1, 2, 2)));
            assert!(!range.contains(&v(2, 0, 0)));
        },
        ProjectConfig::Application(_) => panic!("a package must stay a package"),
    }
}

#[test]
fn init_keeps_an_existing_test_dependency() {
    let reg = runner_registry();
    let mut config = app_config(&[("elm", "core", v(1, 0, 5))]);
    config
        .dependencies
        .indirect
        .insert(pkg("elm-explorations", "test"), v(1, 2, 2));
    let out = init(true, &reg, &Registry::new(), ProjectConfig::Application(config), DEFAULT_FUEL)
        .expect("init should succeed");
    match out {
        ProjectConfig::Application(app) => {
            // the indirect pin is copied into the direct test dependencies
            assert_eq!(
                app.test_dependencies.direct.get(&pkg("elm-explorations", "test")),
                Some(v(1, 2, 2))
            );
            assert_eq!(
                app.dependencies.indirect.get(&pkg("elm-explorations", "test")),
                Some(v(1, 2, 2))
            );
        },
        ProjectConfig::Package(_) => panic!("an application must stay an application"),
    }
}

#[test]
fn init_rejects_undeclared_indirect_dependencies() {
    // the declared dependency needs another package the application does
    // not declare, so its dependencies are incomplete
    let mut reg = runner_registry();
    let mut a_deps = DepMap::new();
    a_deps.insert(pkg("e", "b"), Range::between(v(1, 0, 0), v(2, 0, 0)));
    reg.add_release(&pkg("e", "a"), v(1, 0, 0), Some(a_deps));
    reg.add_release(&pkg("e", "b"), v(1, 0, 0), Some(DepMap::new()));
    let config = ProjectConfig::Application(app_config(&[("e", "a", v(1, 0, 0))]));
    let err = init(true, &reg, &Registry::new(), config, DEFAULT_FUEL).expect_err("init must refuse");
    assert!(err.describe().contains("missing in the indirect dependencies"));
}

#[test]
fn solve_reports_missing_packages() {
    let reg = Registry::new();
    let config = ProjectConfig::Application(app_config(&[("elm", "core", v(1, 0, 5))]));
    let src_dirs = vec![String::from("src")];
    let err = solve(
        &ConnectivityStrategy::Offline,
        &reg,
        &Registry::new(),
        &config,
        &src_dirs,
        DEFAULT_FUEL,
    )
    .expect_err("solving must fail on an empty registry");
    assert!(!err.describe().is_empty());
}
