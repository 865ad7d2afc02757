use elm_deps_solver::Constraint;
use elm_deps_solver::Pkg;
use elm_deps_solver::Version;
use elm_deps_solver::parse_constraint;
use elm_deps_solver::parse_version;
use elm_deps_solver::parse_version_list;

fn ver(major: u64, minor: u64, patch: u64) -> Version {
    Version::new(major, minor, patch)
}

fn con(lo: (u64, u64, u64), hi: (u64, u64, u64)) -> Constraint {
    Constraint::range(&ver(lo.0, lo.1, lo.2), &ver(hi.0, hi.1, hi.2))
}

#[test]
fn version_format_is_canonical() {
    assert_eq!(ver(1, 2, 3).to_text(), "1.2.3");
    assert_eq!(ver(0, 0, 0).to_text(), "0.0.0");
    assert_eq!(ver(10, 0, 305).to_text(), "10.0.305");
    assert_eq!(ver(u64::MAX, 0, 1).to_text(), format!("{}.0.1", u64::MAX));
}

#[test]
fn version_round_trip() {
    let samples = [
        ver(0, 0, 0),
        ver(1, 2, 3),
        ver(12, 34, 56),
        ver(999, 0, 1),
        ver(u64::MAX, u64::MAX, u64::MAX),
    ];
    for v in samples {
        assert_eq!(parse_version(&v.to_text()), Ok(v));
    }
}

#[test]
fn version_parse_rejects_malformed() {
    for bad in [
        "", "1", "1.2", "1.2.", "1.2.3.4", "01.2.3", "1.02.3", "1.2.3x", " 1.2.3", "1.2.3 ",
        "a.b.c", "1..3", "18446744073709551616.0.0",
    ] {
        assert!(parse_version(bad).is_err(), "accepted {:?}", bad);
    }
}

#[test]
fn version_order_is_lexicographic() {
    assert!(ver(1, 0, 0).lt(&ver(1, 0, 1)));
    assert!(ver(1, 0, 9).lt(&ver(1, 1, 0)));
    assert!(ver(1, 9, 9).lt(&ver(2, 0, 0)));
    assert!(!ver(2, 0, 0).lt(&ver(1, 9, 9)));
    assert!(ver(1, 2, 3).le(&ver(1, 2, 3)));
}

#[test]
fn constraint_format_single_range() {
    let c = con((1, 0, 0), (2, 0, 0));
    assert_eq!(c.to_text(), "1.0.0 <= v < 2.0.0");
}

#[test]
fn constraint_round_trip_single() {
    let c = con((1, 0, 0), (2, 0, 0));
    let back = parse_constraint(&c.to_text()).unwrap();
    assert!(back.is_same(&c));
}

#[test]
fn constraint_round_trip_union_and_empty() {
    let c = con((1, 0, 0), (2, 0, 0)).union(&con((3, 0, 0), (4, 5, 6)));
    assert_eq!(c.to_text(), "1.0.0 <= v < 2.0.0 || 3.0.0 <= v < 4.5.6");
    let back = parse_constraint(&c.to_text()).unwrap();
    assert!(back.is_same(&c));

    let empty = Constraint::empty();
    assert_eq!(empty.to_text(), "");
    assert!(parse_constraint("").unwrap().is_same(&empty));
}

#[test]
fn constraint_parse_rejects_malformed() {
    for bad in [
        "1.0.0", "1.0.0 <= v", "1.0.0 <= v < ", "1.0.0 < v < 2.0.0", "1.0.0 <= v < 2.0.0 ||",
        "2.0.0 <= v < 1.0.0", "1.0.0 <= v < 1.0.0",
        // non-canonical order and mergeable ranges are rejected too
        "3.0.0 <= v < 4.0.0 || 1.0.0 <= v < 2.0.0", "1.0.0 <= v < 2.0.0 || 2.0.0 <= v < 3.0.0",
    ] {
        assert!(parse_constraint(bad).is_err(), "accepted {:?}", bad);
    }
}

#[test]
fn constraint_allows_boundaries() {
    let c = con((1, 0, 0), (2, 0, 0));
    assert!(c.allows(&ver(1, 0, 0)));
    assert!(c.allows(&ver(1, 9, 9)));
    assert!(!c.allows(&ver(2, 0, 0)));
    assert!(!c.allows(&ver(0, 9, 9)));
}

#[test]
fn constraint_intersection_and_union() {
    let a = con((1, 0, 0), (2, 0, 0));
    let b = con((1, 5, 0), (3, 0, 0));
    let i = a.intersect(&b);
    assert_eq!(i.to_text(), "1.5.0 <= v < 2.0.0");
    let u = a.union(&b);
    assert_eq!(u.to_text(), "1.0.0 <= v < 3.0.0");
    // adjacent ranges merge into one
    let adj = con((1, 0, 0), (2, 0, 0)).union(&con((2, 0, 0), (3, 0, 0)));
    assert_eq!(adj.to_text(), "1.0.0 <= v < 3.0.0");
}

#[test]
fn constraint_intersection_can_be_empty() {
    let a = con((1, 0, 0), (1, 5, 0));
    let b = con((1, 6, 0), (1, 7, 0));
    let i = a.intersect(&b);
    assert!(i.is_empty());
    assert!(!a.is_empty());
}

#[test]
fn constraint_ops_commute_on_samples() {
    let a = con((1, 0, 0), (2, 0, 0)).union(&con((5, 0, 0), (6, 0, 0)));
    let b = con((1, 5, 0), (5, 5, 0));
    assert!(a.intersect(&b).is_same(&b.intersect(&a)));
    assert!(a.union(&b).is_same(&b.union(&a)));
}

#[test]
fn pkg_parse_accepts_author_name() {
    let p = Pkg::parse("elm/core").unwrap();
    assert_eq!(p.as_text(), "elm/core");
    assert!(Pkg::parse("a-1/b-2").unwrap().is_same(&Pkg::parse("a-1/b-2").unwrap()));
}

#[test]
fn pkg_parse_rejects_malformed() {
    for bad in ["", "elm", "/core", "elm/", "elm//core", "a/b/c", "Elm/core", "elm/co re"] {
        assert!(Pkg::parse(bad).is_err(), "accepted {:?}", bad);
    }
}

#[test]
fn version_list_drops_unparsable_entries() {
    let raw: Vec<String> = vec![
        "2.0.0".to_string(),
        "not-a-version".to_string(),
        "1.5.0".to_string(),
        "1.5".to_string(),
        "1.0.0".to_string(),
    ];
    let parsed = parse_version_list(&raw);
    assert_eq!(parsed, vec![ver(2, 0, 0), ver(1, 5, 0), ver(1, 0, 0)]);
}

#[test]
fn pkg_order_is_total_and_strict() {
    let a = Pkg::parse("author/alpha").unwrap();
    let b = Pkg::parse("author/beta").unwrap();
    let a2 = Pkg::parse("author/alpha").unwrap();
    assert!(a.precedes(&b));
    assert!(!b.precedes(&a));
    assert!(!a.precedes(&a2));
    // A proper prefix precedes its extensions.
    let short = Pkg::parse("author/alp").unwrap();
    assert!(short.precedes(&a));
    assert!(!a.precedes(&short));
}

#[test]
fn equal_version_sets_compare_equal() {
    // The same set built two different ways lands on one canonical form.
    let direct = con((1, 0, 0), (3, 0, 0));
    let pieced = con((1, 0, 0), (2, 0, 0))
        .union(&con((2, 0, 0), (2, 5, 0)))
        .union(&con((2, 5, 0), (3, 0, 0)));
    assert!(direct.is_same(&pieced));
    let via_intersect = con((0, 0, 0), (3, 0, 0)).intersect(&con((1, 0, 0), (9, 0, 0)));
    assert!(direct.is_same(&via_intersect));
}
