use cargo_cyclist::PackageRecord;
use cargo_cyclist::graph::{build_graph, parse_dependency, tokenize};
use cargo_cyclist::PackageId;

fn record(name: &str, version: &str, deps: &[&str]) -> PackageRecord {
    PackageRecord {
        name: Some(name.to_string()),
        version: Some(version.to_string()),
        dependencies: Some(deps.iter().map(|d| d.to_string()).collect()),
    }
}

fn pid(name: &str, version: &str) -> PackageId {
    PackageId::new(name.to_string(), version.to_string())
}

#[test]
fn tokenize_splits_on_spaces() {
    let ts = tokenize("serde 1.0.130 (registry+https://github.com/rust-lang/crates.io-index)");
    assert_eq!(
        ts,
        vec![
            "serde".to_string(),
            "1.0.130".to_string(),
            "(registry+https://github.com/rust-lang/crates.io-index)".to_string(),
        ]
    );
    assert_eq!(tokenize(""), Vec::<String>::new());
    assert_eq!(tokenize("   "), Vec::<String>::new());
    assert_eq!(tokenize("  a   b "), vec!["a".to_string(), "b".to_string()]);
}

#[test]
fn two_token_specifier_yields_an_edge() {
    let p = parse_dependency("serde 1.0.130").unwrap();
    assert_eq!(p.name, "serde".to_string());
    assert_eq!(p.version, "1.0.130".to_string());
}

#[test]
fn three_token_specifier_drops_the_source() {
    let p = parse_dependency("serde 1.0.130 (registry+source)").unwrap();
    assert_eq!(p.name, "serde".to_string());
    assert_eq!(p.version, "1.0.130".to_string());
}

#[test]
fn one_or_four_token_specifiers_are_dropped() {
    assert!(parse_dependency("serde").is_none());
    assert!(parse_dependency("").is_none());
    assert!(parse_dependency("a b c d").is_none());
}

#[test]
fn malformed_specifier_keeps_siblings() {
    let records = vec![record("a", "1.0", &["junk", "b 1.0", "c 1 2 3"])];
    let graph = build_graph(&records);
    let deps = graph.get_deps(&pid("a", "1.0")).unwrap();
    assert_eq!(deps.len(), 1);
    assert_eq!(deps[0].name, "b".to_string());
    assert_eq!(deps[0].version, "1.0".to_string());
}

#[test]
fn record_missing_a_field_is_skipped() {
    let records = vec![
        PackageRecord {
            name: Some("a".to_string()),
            version: None,
            dependencies: Some(vec![]),
        },
        PackageRecord { name: None, version: Some("1.0".to_string()), dependencies: Some(vec![]) },
        PackageRecord {
            name: Some("b".to_string()),
            version: Some("1.0".to_string()),
            dependencies: None,
        },
    ];
    let graph = build_graph(&records);
    assert_eq!(graph.len(), 0);
}

#[test]
fn later_record_overwrites_same_identity() {
    let records = vec![
        record("a", "1.0", &["b 1.0"]),
        record("a", "1.0", &["c 1.0"]),
    ];
    let graph = build_graph(&records);
    assert_eq!(graph.len(), 1);
    let deps = graph.get_deps(&pid("a", "1.0")).unwrap();
    assert_eq!(deps.len(), 1);
    assert_eq!(deps[0].name, "c".to_string());
}

#[test]
fn package_ids_compare_by_name_then_version() {
    let a1 = pid("alpha", "1.0");
    let a2 = pid("alpha", "2.0");
    let z = pid("zeta", "0.1");
    assert!(a1.same(&pid("alpha", "1.0")));
    assert!(!a1.same(&a2));
    assert!(a1.before(&a2));
    assert!(a2.before(&z));
    assert!(!z.before(&a1));
    assert!(a1.before_or_same(&pid("alpha", "1.0")));
    assert!(!a2.before_or_same(&a1));
}

#[test]
fn table_membership_follows_traversal() {
    let records = vec![record("a", "1.0", &["b 1.0"]), record("b", "1.0", &[])];
    let graph = build_graph(&records);
    let table = cargo_cyclist::detect::detect(&graph);
    assert!(table.contains(&pid("b", "1.0")));
    assert!(!table.contains(&pid("missing", "0.0")));
    assert_eq!(table.len(), 1);
}

#[test]
fn edges_keep_declared_order() {
    let records = vec![record("a", "1.0", &["z 9.0", "b 1.0", "m 2.0"])];
    let graph = build_graph(&records);
    let deps = graph.get_deps(&pid("a", "1.0")).unwrap();
    let names: Vec<String> = deps.iter().map(|d| d.name.clone()).collect();
    assert_eq!(names, vec!["z".to_string(), "b".to_string(), "m".to_string()]);
}
