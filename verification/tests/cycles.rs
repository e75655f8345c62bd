use cargo_cyclist::PackageRecord;
use cargo_cyclist::graph::build_graph;
use cargo_cyclist::detect::{Resolution, detect};
use cargo_cyclist::report::{failure_message, render_report};
use cargo_cyclist::PackageId;

fn record(name: &str, version: &str, deps: &[&str]) -> PackageRecord {
    PackageRecord {
        name: Some(name.to_string()),
        version: Some(version.to_string()),
        dependencies: Some(deps.iter().map(|d| d.to_string()).collect()),
    }
}

fn pid(name: &str, version: &str) -> PackageId {
    PackageId::new(name.to_string(), version.to_string())
}

fn chain_of(r: &Resolution) -> Vec<(String, String)> {
    match r {
        Resolution::Acyclic => panic!("expected a cyclic resolution"),
        Resolution::Cyclic(p) => p.iter().map(|x| (x.name.clone(), x.version.clone())).collect(),
    }
}

#[test]
fn acyclic_chain_reports_nothing() {
    let records = vec![
        record("a", "1.0", &["b 1.0"]),
        record("b", "1.0", &["c 1.0"]),
        record("c", "1.0", &[]),
    ];
    let graph = build_graph(&records);
    let table = detect(&graph);
    let lines = render_report(&table, false);
    assert!(lines.is_empty());
    assert!(matches!(table.get(&pid("b", "1.0")), Some(Resolution::Acyclic)));
    assert!(matches!(table.get(&pid("c", "1.0")), Some(Resolution::Acyclic)));
}

#[test]
fn two_node_cycle_single_entry() {
    let records = vec![
        record("a", "1.0", &["b 1.0"]),
        record("b", "1.0", &["a 1.0"]),
    ];
    let graph = build_graph(&records);
    let table = detect(&graph);
    let cyclic: Vec<&str> = [("a", "1.0"), ("b", "1.0")]
        .iter()
        .filter(|(n, v)| matches!(table.get(&pid(n, v)), Some(Resolution::Cyclic(_))))
        .map(|(n, _)| *n)
        .collect();
    assert_eq!(cyclic.len(), 1);
    assert_eq!(cyclic[0], "a");
    let res = table.get(&pid("a", "1.0")).unwrap();
    let chain = chain_of(res);
    assert_eq!(
        chain,
        vec![
            ("a".to_string(), "1.0".to_string()),
            ("b".to_string(), "1.0".to_string()),
            ("a".to_string(), "1.0".to_string()),
        ]
    );
    let lines = render_report(&table, false);
    assert_eq!(lines.len(), 1);
}

#[test]
fn mutual_cycle_exact_output() {
    let records = vec![
        record("a", "1.0", &["b 1.0"]),
        record("b", "1.0", &["a 1.0"]),
    ];
    let graph = build_graph(&records);
    let table = detect(&graph);
    let lines = render_report(&table, false);
    assert_eq!(lines, vec!["a (1.0): Cycle through a(1.0) -> b(1.0) -> a(1.0)".to_string()]);
    assert_eq!(
        failure_message(lines.len()),
        "1 cyclic dependencies found".to_string()
    );
}

#[test]
fn markdown_mode_quotes_identity() {
    let records = vec![
        record("a", "1.0", &["b 1.0"]),
        record("b", "1.0", &["a 1.0"]),
    ];
    let graph = build_graph(&records);
    let table = detect(&graph);
    let lines = render_report(&table, true);
    assert_eq!(
        lines,
        vec!["- [ ] `a` (`1.0`): Cycle through a(1.0) -> b(1.0) -> a(1.0)".to_string()]
    );
}

#[test]
fn diamond_resolves_shared_node_once() {
    let records = vec![
        record("a", "1.0", &["b 1.0", "c 1.0"]),
        record("b", "1.0", &["d 1.0"]),
        record("c", "1.0", &["d 1.0"]),
        record("d", "1.0", &[]),
    ];
    let graph = build_graph(&records);
    let table = detect(&graph);
    // b, d and c are resolved, each exactly once; nothing is cyclic.
    assert_eq!(table.len(), 3);
    assert!(matches!(table.get(&pid("d", "1.0")), Some(Resolution::Acyclic)));
    assert!(render_report(&table, false).is_empty());
}

#[test]
fn self_loop_is_a_one_element_cycle() {
    let records = vec![record("a", "1.0", &["a 1.0"])];
    let graph = build_graph(&records);
    let table = detect(&graph);
    let res = table.get(&pid("a", "1.0")).unwrap();
    let chain = chain_of(res);
    assert_eq!(
        chain,
        vec![("a".to_string(), "1.0".to_string()), ("a".to_string(), "1.0".to_string())]
    );
    let lines = render_report(&table, false);
    assert_eq!(lines, vec!["a (1.0): Cycle through a(1.0) -> a(1.0)".to_string()]);
}

#[test]
fn dangling_edge_is_tolerated_and_never_cyclic() {
    let records = vec![record("a", "1.0", &["ghost 0.1"])];
    let graph = build_graph(&records);
    let table = detect(&graph);
    assert!(matches!(table.get(&pid("ghost", "0.1")), Some(Resolution::Acyclic)));
    assert!(render_report(&table, false).is_empty());
}

#[test]
fn dangling_edge_stays_out_of_cycle_records() {
    let records = vec![record("a", "1.0", &["ghost 0.1", "a 1.0"])];
    let graph = build_graph(&records);
    let table = detect(&graph);
    let res = table.get(&pid("a", "1.0")).unwrap();
    for (name, _) in chain_of(res) {
        assert_ne!(name, "ghost");
    }
}

#[test]
fn detector_is_idempotent_on_one_graph() {
    let records = vec![
        record("a", "1.0", &["b 1.0"]),
        record("b", "1.0", &["a 1.0", "c 1.0"]),
        record("c", "1.0", &[]),
    ];
    let graph = build_graph(&records);
    let t1 = detect(&graph);
    let t2 = detect(&graph);
    assert_eq!(t1.len(), t2.len());
    let l1 = render_report(&t1, false);
    let l2 = render_report(&t2, false);
    assert_eq!(l1, l2);
    let m1 = render_report(&t1, true);
    let m2 = render_report(&t2, true);
    assert_eq!(m1, m2);
}

#[test]
fn report_is_sorted_by_name_then_version() {
    let records = vec![
        record("zeta", "1.0", &["zeta 1.0"]),
        record("alpha", "2.0", &["alpha 2.0"]),
        record("alpha", "1.0", &["alpha 1.0"]),
    ];
    let graph = build_graph(&records);
    let table = detect(&graph);
    let lines = render_report(&table, false);
    assert_eq!(
        lines,
        vec![
            "alpha (1.0): Cycle through alpha(1.0) -> alpha(1.0)".to_string(),
            "alpha (2.0): Cycle through alpha(2.0) -> alpha(2.0)".to_string(),
            "zeta (1.0): Cycle through zeta(1.0) -> zeta(1.0)".to_string(),
        ]
    );
}
