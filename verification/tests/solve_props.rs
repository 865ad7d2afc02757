use elm_deps_solver::Constraint;
use elm_deps_solver::Dep;
use elm_deps_solver::Manifest;
use elm_deps_solver::Pkg;
use elm_deps_solver::Provider;
use elm_deps_solver::ProviderError;
use elm_deps_solver::SolveError;
use elm_deps_solver::Solution;
use elm_deps_solver::Version;
use elm_deps_solver::parse_additional;
use elm_deps_solver::parse_constraint;
use elm_deps_solver::parse_version_list;
use elm_deps_solver::solve;

fn pkg(name: &str) -> Pkg {
    Pkg::parse(name).unwrap()
}

fn con(text: &str) -> Constraint {
    parse_constraint(text).unwrap()
}

fn dep(name: &str, text: &str) -> Dep {
    Dep::new(pkg(name), con(text))
}

fn deps(list: &[(&str, &str)]) -> Vec<Dep> {
    list.iter().map(|(n, c)| dep(n, c)).collect()
}

/// A provider answering from fixed tables, counting its calls.
struct TableProvider {
    lists: Vec<(String, Vec<String>)>,
    mans: Vec<(String, String, Vec<(String, String)>)>,
    list_calls: usize,
    fetch_calls: usize,
}

impl TableProvider {
    fn new(lists: &[(&str, &[&str])], mans: &[(&str, &str, &[(&str, &str)])]) -> TableProvider {
        TableProvider {
            lists: lists
                .iter()
                .map(|(n, vs)| (n.to_string(), vs.iter().map(|v| v.to_string()).collect()))
                .collect(),
            mans: mans
                .iter()
                .map(|(n, v, ds)| {
                    (
                        n.to_string(),
                        v.to_string(),
                        ds.iter().map(|(dn, dc)| (dn.to_string(), dc.to_string())).collect(),
                    )
                })
                .collect(),
            list_calls: 0,
            fetch_calls: 0,
        }
    }
}

impl Provider for TableProvider {
    fn list_versions(&mut self, p: &Pkg) -> Result<Vec<Version>, ProviderError> {
        self.list_calls += 1;
        for (name, vs) in &self.lists {
            if name == p.as_text() {
                return Ok(parse_version_list(vs));
            }
        }
        Ok(Vec::new())
    }

    fn fetch_manifest(&mut self, p: &Pkg, version: &Version) -> Result<Manifest, ProviderError> {
        self.fetch_calls += 1;
        for (name, v, ds) in &self.mans {
            if name == p.as_text() && *v == version.to_text() {
                let list: Vec<Dep> = ds.iter().map(|(dn, dc)| dep(dn, dc)).collect();
                return Ok(Manifest { deps: list, test_deps: Vec::new() });
            }
        }
        Ok(Manifest { deps: Vec::new(), test_deps: Vec::new() })
    }
}

fn project(normal: &[(&str, &str)], test: &[(&str, &str)]) -> Manifest {
    Manifest { deps: deps(normal), test_deps: deps(test) }
}

fn entry_of(sol: &Solution, name: &str) -> Option<String> {
    for e in &sol.entries {
        if e.pkg.as_text() == name {
            return Some(e.version.to_text());
        }
    }
    None
}

#[test]
fn picks_highest_satisfying_not_globally_highest() {
    let prj = project(&[("author/a", "1.0.0 <= v < 2.0.0")], &[]);
    let mut prov = TableProvider::new(&[("author/a", &["2.0.0", "1.5.0", "1.0.0"])], &[]);
    let sol = solve(&prj, false, &Vec::new(), &mut prov).unwrap();
    assert_eq!(sol.entries.len(), 1);
    assert_eq!(entry_of(&sol, "author/a"), Some("1.5.0".to_string()));
}

#[test]
fn tight_additional_constraint_with_no_matching_candidate_fails() {
    let prj = project(&[("author/a", "1.0.0 <= v < 2.0.0")], &[]);
    let extra = deps(&[("author/a", "1.6.0 <= v < 1.7.0")]);
    let mut prov = TableProvider::new(&[("author/a", &["2.0.0", "1.5.0", "1.0.0"])], &[]);
    let r = solve(&prj, false, &extra, &mut prov);
    assert!(matches!(r, Err(SolveError::NoSolution { .. })));
    // Listing may happen, but no manifest is ever fetched.
    assert_eq!(prov.fetch_calls, 0);
}

#[test]
fn empty_effective_constraint_fails_without_any_provider_call() {
    let prj = project(&[("author/a", "1.0.0 <= v < 1.5.0")], &[]);
    let extra = deps(&[("author/a", "1.6.0 <= v < 1.7.0")]);
    let mut prov = TableProvider::new(&[("author/a", &["1.0.0"])], &[]);
    let r = solve(&prj, false, &extra, &mut prov);
    assert!(matches!(r, Err(SolveError::NoSolution { .. })));
    assert_eq!(prov.list_calls, 0);
    assert_eq!(prov.fetch_calls, 0);
}

#[test]
fn conflicting_transitive_requirement_reports_no_solution() {
    let prj = project(
        &[("author/a", "1.0.0 <= v < 2.0.0"), ("author/b", "1.0.0 <= v < 2.0.0")],
        &[],
    );
    let mut prov = TableProvider::new(
        &[("author/a", &["1.0.0"]), ("author/b", &["1.0.0"])],
        &[("author/a", "1.0.0", &[("author/b", "2.0.0 <= v < 3.0.0")])],
    );
    let r = solve(&prj, false, &Vec::new(), &mut prov);
    match r {
        Err(SolveError::NoSolution { report }) => {
            // The report cites the terminal conflict: both requirements on
            // the package that cannot be satisfied.
            assert!(report.contains("the root project requires author/b in 1.0.0 <= v < 2.0.0"));
            assert!(report.contains("author/a 1.0.0 requires author/b in 2.0.0 <= v < 3.0.0"));
            assert!(report.contains("no available version of author/b"));
        },
        other => panic!("expected no solution, got {:?}", other.is_ok()),
    }
}

#[test]
fn self_dependency_message_names_package_and_version() {
    let prj = project(&[("author/a", "1.0.0 <= v < 2.0.0")], &[]);
    let mut prov = TableProvider::new(
        &[("author/a", &["1.0.0"])],
        &[("author/a", "1.0.0", &[("author/a", "1.0.0 <= v < 2.0.0")])],
    );
    match solve(&prj, false, &Vec::new(), &mut prov) {
        Err(e) => {
            assert_eq!(e.describe(), "author/a@1.0.0 somehow depends on itself");
        },
        Ok(_) => panic!("expected a self dependency error"),
    }
}

#[test]
fn self_dependency_is_fatal() {
    let prj = project(&[("author/a", "1.0.0 <= v < 2.0.0")], &[]);
    let mut prov = TableProvider::new(
        &[("author/a", &["1.0.0"])],
        &[("author/a", "1.0.0", &[("author/a", "1.0.0 <= v < 2.0.0")])],
    );
    let r = solve(&prj, false, &Vec::new(), &mut prov);
    match r {
        Err(SolveError::SelfDependency { pkg: p, version }) => {
            assert_eq!(p.as_text(), "author/a");
            assert_eq!(version.to_text(), "1.0.0");
        },
        _ => panic!("expected a self dependency error"),
    }
}

#[test]
fn test_dependencies_only_when_requested() {
    let prj = project(
        &[("author/a", "1.0.0 <= v < 2.0.0")],
        &[("author/c", "1.0.0 <= v < 2.0.0")],
    );
    let lists: &[(&str, &[&str])] = &[("author/a", &["1.0.0"]), ("author/c", &["1.2.0"])];
    let mut prov = TableProvider::new(lists, &[]);
    let sol = solve(&prj, false, &Vec::new(), &mut prov).unwrap();
    assert_eq!(entry_of(&sol, "author/c"), None);

    let mut prov2 = TableProvider::new(lists, &[]);
    let sol2 = solve(&prj, true, &Vec::new(), &mut prov2).unwrap();
    assert_eq!(entry_of(&sol2, "author/c"), Some("1.2.0".to_string()));
}

#[test]
fn transitive_dependencies_are_resolved_and_satisfied() {
    let prj = project(&[("author/a", "1.0.0 <= v < 2.0.0")], &[]);
    let mut prov = TableProvider::new(
        &[("author/a", &["1.9.0"]), ("author/b", &["2.5.0", "2.0.0"])],
        &[("author/a", "1.9.0", &[("author/b", "2.0.0 <= v < 3.0.0")])],
    );
    let sol = solve(&prj, false, &Vec::new(), &mut prov).unwrap();
    assert_eq!(entry_of(&sol, "author/a"), Some("1.9.0".to_string()));
    assert_eq!(entry_of(&sol, "author/b"), Some("2.5.0".to_string()));
}

#[test]
fn backtracks_to_an_older_version_on_conflict() {
    // a 2.0.0 needs b < 1.0.0 which does not exist; a 1.0.0 has no deps.
    let prj = project(&[("author/a", "1.0.0 <= v < 3.0.0")], &[]);
    let mut prov = TableProvider::new(
        &[("author/a", &["2.0.0", "1.0.0"]), ("author/b", &["1.0.0"])],
        &[("author/a", "2.0.0", &[("author/b", "0.1.0 <= v < 0.2.0")])],
    );
    let sol = solve(&prj, false, &Vec::new(), &mut prov).unwrap();
    assert_eq!(entry_of(&sol, "author/a"), Some("1.0.0".to_string()));
}

#[test]
fn identical_inputs_give_identical_outcomes() {
    let prj = project(
        &[("author/a", "1.0.0 <= v < 2.0.0"), ("author/b", "1.0.0 <= v < 3.0.0")],
        &[],
    );
    let lists: &[(&str, &[&str])] = &[
        ("author/a", &["1.5.0", "1.0.0"]),
        ("author/b", &["2.5.0", "1.0.0"]),
    ];
    let mans: &[(&str, &str, &[(&str, &str)])] =
        &[("author/a", "1.5.0", &[("author/b", "1.0.0 <= v < 2.0.0")])];
    let mut p1 = TableProvider::new(lists, mans);
    let mut p2 = TableProvider::new(lists, mans);
    let s1 = solve(&prj, false, &Vec::new(), &mut p1).unwrap();
    let s2 = solve(&prj, false, &Vec::new(), &mut p2).unwrap();
    let flat1: Vec<(String, String)> =
        s1.entries.iter().map(|e| (e.pkg.as_text().to_string(), e.version.to_text())).collect();
    let flat2: Vec<(String, String)> =
        s2.entries.iter().map(|e| (e.pkg.as_text().to_string(), e.version.to_text())).collect();
    assert_eq!(flat1, flat2);
}

#[test]
fn tightening_never_widens_the_choice() {
    let prj = project(&[("author/a", "1.0.0 <= v < 2.0.0")], &[]);
    let lists: &[(&str, &[&str])] = &[("author/a", &["1.9.0", "1.2.0", "1.0.0"])];
    let mut p1 = TableProvider::new(lists, &[]);
    let loose = solve(&prj, false, &Vec::new(), &mut p1).unwrap();
    assert_eq!(entry_of(&loose, "author/a"), Some("1.9.0".to_string()));

    let extra = deps(&[("author/a", "1.0.0 <= v < 1.5.0")]);
    let mut p2 = TableProvider::new(lists, &[]);
    let tight = solve(&prj, false, &extra, &mut p2).unwrap();
    let picked = tight.entries.iter().find(|e| e.pkg.as_text() == "author/a").unwrap();
    // The tightened pick still satisfies the original manifest constraint.
    assert!(con("1.0.0 <= v < 2.0.0").allows(&picked.version));
    assert_eq!(picked.version.to_text(), "1.2.0");
}

#[test]
fn version_list_failure_is_reported_with_the_package() {
    struct Failing;
    impl Provider for Failing {
        fn list_versions(&mut self, _p: &Pkg) -> Result<Vec<Version>, ProviderError> {
            Err(ProviderError::Failed("registry unreachable".to_string()))
        }
        fn fetch_manifest(&mut self, _p: &Pkg, _v: &Version) -> Result<Manifest, ProviderError> {
            Err(ProviderError::Failed("unused".to_string()))
        }
    }
    let prj = project(&[("author/a", "1.0.0 <= v < 2.0.0")], &[]);
    let r = solve(&prj, false, &Vec::new(), &mut Failing);
    match r {
        Err(SolveError::VersionList { pkg: p, message }) => {
            assert_eq!(p.as_text(), "author/a");
            assert_eq!(message, "registry unreachable");
        },
        _ => panic!("expected a version list error"),
    }
}

#[test]
fn manifest_fetch_failure_is_reported_with_package_and_version() {
    struct Failing;
    impl Provider for Failing {
        fn list_versions(&mut self, _p: &Pkg) -> Result<Vec<Version>, ProviderError> {
            Ok(vec![Version::new(1, 0, 0)])
        }
        fn fetch_manifest(&mut self, _p: &Pkg, _v: &Version) -> Result<Manifest, ProviderError> {
            Err(ProviderError::Failed("disk error".to_string()))
        }
    }
    let prj = project(&[("author/a", "1.0.0 <= v < 2.0.0")], &[]);
    let r = solve(&prj, false, &Vec::new(), &mut Failing);
    match r {
        Err(SolveError::Fetch { pkg: p, version, message }) => {
            assert_eq!(p.as_text(), "author/a");
            assert_eq!(version.to_text(), "1.0.0");
            assert_eq!(message, "disk error");
        },
        _ => panic!("expected a fetch error"),
    }
}

#[test]
fn cancellation_from_the_provider_is_propagated() {
    struct Cancelling;
    impl Provider for Cancelling {
        fn list_versions(&mut self, _p: &Pkg) -> Result<Vec<Version>, ProviderError> {
            Err(ProviderError::Cancelled("timeout".to_string()))
        }
        fn fetch_manifest(&mut self, _p: &Pkg, _v: &Version) -> Result<Manifest, ProviderError> {
            Err(ProviderError::Cancelled("timeout".to_string()))
        }
    }
    let prj = project(&[("author/a", "1.0.0 <= v < 2.0.0")], &[]);
    let r = solve(&prj, false, &Vec::new(), &mut Cancelling);
    assert!(matches!(r, Err(SolveError::Cancelled { .. })));
}

#[test]
fn solution_carries_its_evidence() {
    let prj = project(&[("author/a", "1.0.0 <= v < 2.0.0")], &[]);
    let mut prov = TableProvider::new(
        &[("author/a", &["1.9.0"]), ("author/b", &["2.0.0"])],
        &[("author/a", "1.9.0", &[("author/b", "2.0.0 <= v < 3.0.0")])],
    );
    let sol = solve(&prj, false, &Vec::new(), &mut prov).unwrap();
    // Every resolved package has its fetched manifest recorded.
    for e in &sol.entries {
        assert!(sol
            .manifests
            .iter()
            .any(|m| m.pkg.as_text() == e.pkg.as_text() && m.version == e.version));
    }
    // And the recorded roots are the effective requirements.
    assert_eq!(sol.roots.len(), 1);
    assert_eq!(sol.roots[0].pkg.as_text(), "author/a");
}

#[test]
fn repeated_consideration_fetches_each_manifest_once() {
    let prj = project(
        &[("author/a", "1.0.0 <= v < 2.0.0"), ("author/b", "1.0.0 <= v < 2.0.0")],
        &[],
    );
    let mut prov = TableProvider::new(
        &[("author/a", &["1.0.0"]), ("author/b", &["1.0.0"])],
        &[
            ("author/a", "1.0.0", &[("author/b", "1.0.0 <= v < 2.0.0")]),
            ("author/b", "1.0.0", &[]),
        ],
    );
    let sol = solve(&prj, false, &Vec::new(), &mut prov).unwrap();
    assert_eq!(sol.entries.len(), 2);
    assert_eq!(prov.fetch_calls, 2);
    assert_eq!(prov.list_calls, 2);
}

#[test]
fn every_pick_comes_from_a_recorded_listing() {
    let prj = project(&[("author/a", "1.0.0 <= v < 2.0.0")], &[]);
    let mut prov = TableProvider::new(
        &[("author/a", &["1.9.0"]), ("author/b", &["2.0.0"])],
        &[("author/a", "1.9.0", &[("author/b", "2.0.0 <= v < 3.0.0")])],
    );
    let sol = solve(&prj, false, &Vec::new(), &mut prov).unwrap();
    for e in &sol.entries {
        assert!(sol.offers.iter().any(|o| o.pkg.as_text() == e.pkg.as_text()
            && o.versions.contains(&e.version)));
    }
}

#[test]
fn empty_project_solves_to_the_empty_solution() {
    let prj = project(&[], &[]);
    let mut prov = TableProvider::new(&[], &[]);
    let sol = solve(&prj, false, &Vec::new(), &mut prov).unwrap();
    assert!(sol.entries.is_empty());
    assert_eq!(prov.list_calls, 0);
    assert_eq!(prov.fetch_calls, 0);
}

#[test]
fn additional_constraints_parse_exactly_when_well_formed() {
    let good = vec![
        ("author/a".to_string(), "1.0.0 <= v < 2.0.0".to_string()),
        ("author/b".to_string(), "".to_string()),
    ];
    let parsed = parse_additional(&good).unwrap();
    assert_eq!(parsed.len(), 2);
    assert_eq!(parsed[0].pkg.as_text(), "author/a");

    let bad_pkg = vec![("Not A Package".to_string(), "1.0.0 <= v < 2.0.0".to_string())];
    assert!(matches!(
        parse_additional(&bad_pkg),
        Err(SolveError::ConstraintParse { .. })
    ));
    let bad_con = vec![("author/a".to_string(), "1.0.0".to_string())];
    assert!(matches!(
        parse_additional(&bad_con),
        Err(SolveError::ConstraintParse { .. })
    ));
}

#[test]
fn every_error_message_carries_its_payload() {
    let impossible = SolveError::ImpossibleDependency {
        dependent: pkg("author/a"),
        version: Version::new(1, 0, 0),
        dependency: pkg("author/b"),
    };
    assert_eq!(
        impossible.describe(),
        "author/a@1.0.0 has an impossible dependency on author/b"
    );
    let fetch = SolveError::Fetch {
        pkg: pkg("author/a"),
        version: Version::new(1, 2, 3),
        message: "socket closed".to_string(),
    };
    assert_eq!(
        fetch.describe(),
        "An error occured while trying to retrieve dependencies of author/a@1.2.3:\n\nsocket closed"
    );
    let listing = SolveError::VersionList {
        pkg: pkg("author/a"),
        message: "registry unreachable".to_string(),
    };
    assert_eq!(
        listing.describe(),
        "There was an error while picking packages for dependency resolution:\n\nregistry unreachable (author/a)"
    );
    let cancelled = SolveError::Cancelled { message: "timeout".to_string() };
    assert_eq!(cancelled.describe(), "Dependency resolution was cancelled.\n\ntimeout");
    let internal = SolveError::Internal { message: "impossible".to_string() };
    assert_eq!(
        internal.describe(),
        "An unrecoverable error happened while solving dependencies:\n\nimpossible"
    );
    let parse = SolveError::ConstraintParse {
        package: "author/a".to_string(),
        text: "nonsense".to_string(),
    };
    assert_eq!(parse.describe(), "failed to parse the constraint of author/a: nonsense");
    let no_solution = SolveError::NoSolution { report: "because\n".to_string() };
    assert_eq!(no_solution.describe(), "because\n");
}
