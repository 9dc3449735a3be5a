//! The textual configuration layer: lower bounds of constraints,
//! promoting test dependencies, package-to-application conversion, and
//! the dependency-declaration parsers.

use elm_test_deps::deps::ConnectivityStrategy;
use elm_test_deps::elm_json::{
    to_exact_version, ApplicationConfig, Config, Dependencies, PackageConfig, StringMap,
};
use elm_test_deps::elmi::TestModule;
use elm_test_deps::logger::{init, LevelFilter};
use elm_test_deps::parse::{parse_constraint, parse_version};
use elm_test_deps::run::{Options, Runtime};
use elm_test_deps::version::Version;

fn v(major: u64, minor: u64, patch: u64) -> Version {
    Version::new(major, minor, patch)
}

#[test]
fn lower_bound_of_a_constraint() {
    assert_eq!(
        to_exact_version("1.0.0 <= v < 2.0.0").unwrap(),
        String::from("1.0.0")
    );
    assert_eq!(to_exact_version("2.3.4").unwrap(), String::from("2.3.4"));
    assert_eq!(
        to_exact_version("  5.0.1   <= v < 6.0.0").unwrap(),
        String::from("5.0.1")
    );
    assert_eq!(to_exact_version("   ").unwrap(), String::from(""));
}

fn string_map(entries: &[(&str, &str)]) -> StringMap {
    let mut m = StringMap::new();
    for (k, val) in entries {
        m.insert(String::from(*k), String::from(*val));
    }
    m
}

#[test]
fn promote_test_dependencies_moves_everything() {
    let mut app = ApplicationConfig {
        type_: String::from("application"),
        source_directories: vec![String::from("src")],
        elm_version: String::from("0.19.1"),
        dependencies: Dependencies {
            direct: string_map(&[("elm/core", "1.0.5")]),
            indirect: string_map(&[("elm/json", "1.1.3")]),
        },
        test_dependencies: Dependencies {
            direct: string_map(&[("elm-explorations/test", "1.2.2"), ("elm/core", "1.0.4")]),
            indirect: string_map(&[("elm/random", "1.0.0")]),
        },
    };
    app.promote_test_dependencies();
    // the test pins moved in, overriding a shared key
    assert_eq!(
        app.dependencies.direct.get(&String::from("elm-explorations/test")),
        Some(&String::from("1.2.2"))
    );
    assert_eq!(
        app.dependencies.direct.get(&String::from("elm/core")),
        Some(&String::from("1.0.4"))
    );
    assert_eq!(
        app.dependencies.indirect.get(&String::from("elm/random")),
        Some(&String::from("1.0.0"))
    );
    assert_eq!(
        app.dependencies.indirect.get(&String::from("elm/json")),
        Some(&String::from("1.1.3"))
    );
    // and the test dependencies are now empty
    assert_eq!(app.test_dependencies.direct.len(), 0);
    assert_eq!(app.test_dependencies.indirect.len(), 0);
}

#[test]
fn package_config_converts_to_an_application() {
    let package = PackageConfig {
        type_: String::from("package"),
        name: String::from("author/project"),
        summary: String::from("a test project"),
        license: String::from("BSD-3-Clause"),
        version: String::from("1.0.0"),
        exposed_modules: vec![String::from("Main")],
        elm_version: String::from("0.19.0 <= v < 0.20.0"),
        dependencies: string_map(&[("elm/core", "1.0.0 <= v < 2.0.0")]),
        test_dependencies: string_map(&[("elm-explorations/test", "1.2.0 <= v < 2.0.0")]),
    };
    let app = ApplicationConfig::try_from_package(&package).unwrap();
    let config = Config::Application(app);
    let app = match config {
        Config::Application(app) => app,
        Config::Package(_) => panic!("the conversion must yield an application"),
    };
    assert_eq!(app.type_, String::from("application"));
    assert_eq!(app.elm_version, String::from("0.19.1"));
    assert_eq!(app.source_directories, vec![String::from("src")]);
    assert_eq!(
        app.dependencies.direct.get(&String::from("elm/core")),
        Some(&String::from("1.0.0"))
    );
    assert_eq!(
        app.test_dependencies.direct.get(&String::from("elm-explorations/test")),
        Some(&String::from("1.2.0"))
    );
    assert_eq!(app.dependencies.indirect.len(), 0);
    assert_eq!(app.test_dependencies.indirect.len(), 0);
}

#[test]
fn version_parsing() {
    assert_eq!(parse_version("1.2.3"), Some(v(1, 2, 3)));
    assert_eq!(parse_version("0.19.1"), Some(v(0, 19, 1)));
    assert_eq!(parse_version("10.0.100"), Some(v(10, 0, 100)));
    assert_eq!(parse_version(""), None);
    assert_eq!(parse_version("1.2"), None);
    assert_eq!(parse_version("1.2.3.4"), None);
    assert_eq!(parse_version("1.x.3"), None);
    assert_eq!(parse_version("1..3"), None);
    assert_eq!(parse_version("99999999999999999999999.0.0"), None);
}

#[test]
fn constraint_parsing() {
    let rng = parse_constraint("1.0.0 <= v < 2.0.0").unwrap();
    assert!(rng.contains(&v(1, 0, 0)));
    assert!(rng.contains(&v(1, 9, 9)));
    assert!(!rng.contains(&v(2, 0, 0)));
    assert!(!rng.contains(&v(0, 9, 9)));
    assert_eq!(parse_constraint("1.0.0"), None);
    assert_eq!(parse_constraint("1.0.0 < v < 2.0.0"), None);
    assert_eq!(parse_constraint("nonsense <= v < 2.0.0"), None);
}

#[test]
fn version_ordering_and_bumps() {
    assert!(v(1, 2, 3).lt(&v(1, 2, 4)));
    assert!(v(1, 2, 3).lt(&v(1, 3, 0)));
    assert!(v(1, 2, 3).lt(&v(2, 0, 0)));
    assert!(!v(2, 0, 0).lt(&v(1, 9, 9)));
    assert!(v(1, 2, 3).le(&v(1, 2, 3)));
    assert_eq!(v(1, 2, 3).bump_major(), v(2, 0, 0));
    assert_eq!(v(1, 2, 3).next_patch(), v(1, 2, 4));
    assert_eq!(Version::zero(), v(0, 0, 0));
}

#[test]
fn logger_level_mapping() {
    assert_eq!(init(0), LevelFilter::Error);
    assert_eq!(init(1), LevelFilter::Warn);
    assert_eq!(init(2), LevelFilter::Info);
    assert_eq!(init(3), LevelFilter::Debug);
    assert_eq!(init(17), LevelFilter::Debug);
}

#[test]
fn make_options_hold_plain_values() {
    let opts = elm_test_deps::make::Options {
        verbosity: 1,
        watch: false,
        compiler: String::from("elm"),
        connectivity: ConnectivityStrategy::Progressive,
        files: vec![String::from("tests/Main.elm")],
        report: String::from("console"),
    };
    assert!(!opts.watch);
    assert!(matches!(opts.connectivity, ConnectivityStrategy::Progressive));
}

#[test]
fn run_options_hold_plain_values() {
    let opts = Options {
        seed: 42,
        fuzz: 100,
        workers: 4,
        filter: None,
        reporter: String::from("console"),
        runtime: Runtime::Node,
    };
    assert_eq!(opts.runtime, Runtime::Node);
    assert_ne!(Runtime::Node, Runtime::Deno);
    let module = TestModule {
        path: String::from("tests/Main.elm"),
        tests: vec![String::from("suite")],
    };
    assert_eq!(module.tests.len(), 1);
}
