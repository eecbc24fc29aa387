use concord::agreement::{
    check_edges, closure_faults, cycle_faults, ensure, first_node, network, render_list, report, reservations, scope,
    select, settle_report, sort_findings, Finding, ReservationRow,
};
use concord::state::{Edge, Graph, Life, Node, Origin, Weight};
use concord::world::{DomainRow, SpaceRow, TaskRow, World};

fn node(key: i64, domain: &str, name: &str, life: Life) -> Node {
    Node { key, domain: domain.to_string(), name: name.to_string(), life, revision: 0 }
}

fn edge(key: i64, source: i64, target: i64, weight: Weight) -> Edge {
    Edge { key, source, target, weight, origin: Origin::Declared }
}

fn finding(code: &str, subject: &str, message: &str) -> Finding {
    Finding { code: code.to_string(), subject: subject.to_string(), message: message.to_string() }
}

fn world() -> World {
    let task = |key: i64, domain: i64, name: &str| TaskRow {
        key,
        domain: Some(domain),
        name: Some(name.to_string()),
        state: Some("active".to_string()),
        revision: Some(0),
    };
    World::read(
        &[SpaceRow { key: 1, revision: Some(3) }],
        &[
            DomainRow { key: 10, space: Some(1), name: Some("alpha".to_string()), revision: Some(0) },
            DomainRow { key: 20, space: Some(1), name: Some("zeta".to_string()), revision: Some(0) },
        ],
        &[task(1, 10, "build"), task(2, 10, "ship"), task(3, 20, "run")],
    )
    .unwrap()
}

#[test]
fn refusal_counts_faults() {
    let mut r = report("space".to_string(), 3);
    assert!(ensure(&r).is_ok());
    r.fault("x", "s".to_string(), "m".to_string());
    r.fault("y", "s".to_string(), "m".to_string());
    let e = ensure(&r).unwrap_err();
    assert_eq!((e.code.as_deref(), e.message.as_str()), (Some("concord.audit.refused"), "estate has 2 agreement fault(s)"));
    r.observe("z", "s".to_string(), "m".to_string());
    assert_eq!((r.faults.len(), r.observations.len(), r.agrees()), (2, 1, false));
}

#[test]
fn scope_and_selection() {
    assert!(scope(Some("a/b"), None).is_ok());
    assert!(scope(None, None).is_ok());
    assert_eq!(scope(Some("a/b"), Some("a")).unwrap_err().message, "audit accepts a Task or Domain, not both");
    let w = world();
    assert_eq!(select(&w, None, None).unwrap().len(), 3);
    let alpha: Vec<String> = select(&w, None, Some("alpha")).unwrap().iter().map(|n| n.identity()).collect();
    assert_eq!(alpha, vec!["alpha/build", "alpha/ship"]);
    assert_eq!(select(&w, Some("zeta/run"), None).unwrap()[0].key, 3);
    assert_eq!(select(&w, None, Some("beta")).unwrap_err().message, "unknown managed domain beta");
    assert_eq!(select(&w, Some("zeta/none"), None).unwrap_err().code.as_deref(), Some("concord.task.absent"));
}

#[test]
fn reservations_are_checked_both_ways() {
    let w = world();
    let rows = vec![
        ReservationRow { key: 1, domain: Some(10), name: Some("build".to_string()) },
        ReservationRow { key: 2, domain: Some(10), name: Some("ship".to_string()) },
        ReservationRow { key: 3, domain: Some(99), name: Some("gone".to_string()) },
        ReservationRow { key: 4, domain: Some(20), name: None },
    ];
    let mut r = report("space".to_string(), 3);
    reservations(&w, &rows, &mut r);
    assert_eq!(
        r.faults,
        vec![
            finding("reservation.missing", "zeta/run", "current Task coordinate has no lifetime Reservation"),
            finding("reservation.malformed", "Reservation#3", "Reservation has malformed name or Domain"),
            finding("reservation.malformed", "Reservation#4", "Reservation has malformed name or Domain"),
        ]
    );
}

#[test]
fn edges_are_checked() {
    let graph = Graph {
        revision: 1,
        nodes: vec![node(1, "a", "x", Life::Active), node(2, "b", "y", Life::Active), node(3, "a", "z", Life::Retired)],
        edges: vec![edge(7, 1, 2, Weight::Unknown), edge(8, 1, 3, Weight::Required), edge(9, 1, 4, Weight::Context)],
    };
    let mut r = report("space".to_string(), 1);
    check_edges(&graph, &mut r);
    assert_eq!(
        r.faults,
        vec![
            finding("dependency.retired", "Dependency#8", "live dependency endpoint is absent or retired"),
            finding("dependency.retired", "Dependency#9", "live dependency endpoint is absent or retired"),
        ]
    );
    assert_eq!(
        r.observations,
        vec![
            finding("dependency.unknown", "Dependency#7", "dependency weight is unknown"),
            finding("dependency.cross_domain", "a/x -> b/y", "dependency crosses Domain boundaries"),
        ]
    );
    assert_eq!(first_node(&graph.nodes, 3), Some(2));
    assert_eq!(first_node(&graph.nodes, 4), None);
}

#[test]
fn cycles_and_closures() {
    assert_eq!(render_list(&vec![]), "[]");
    assert_eq!(render_list(&vec![1, 2, 1]), "[1, 2, 1]");
    let mut r = report("space".to_string(), 1);
    cycle_faults(&vec![vec![1, 2, 1], vec![4, 4]], &mut r);
    assert_eq!(r.faults[0], finding("dependency.cycle", "graph", "direct dependency cycle: [1, 2, 1]"));
    assert_eq!(r.faults[1].message, "direct dependency cycle: [4, 4]");
    let graph = Graph {
        revision: 1,
        nodes: vec![node(1, "a", "x", Life::Active), node(2, "a", "y", Life::Active), node(3, "a", "z", Life::Active)],
        edges: vec![edge(7, 1, 2, Weight::Required), edge(8, 2, 3, Weight::Context)],
    };
    let mut r = report("space".to_string(), 1);
    closure_faults(&graph, &vec![vec![2, 3], vec![3], vec![]], &mut r);
    assert!(r.faults.is_empty());
    closure_faults(&graph, &vec![vec![2], vec![3], vec![1]], &mut r);
    let subjects: Vec<&str> = r.faults.iter().map(|f| f.subject.as_str()).collect();
    assert_eq!(subjects, vec!["a/x", "a/z"]);
    let cyclic = Graph { edges: vec![edge(7, 1, 2, Weight::Required), edge(8, 2, 1, Weight::Required)], ..graph };
    let mut r = report("space".to_string(), 1);
    network(&cyclic, &vec![vec![2], vec![1], vec![]], &mut r);
    let codes: Vec<&str> = r.faults.iter().map(|f| f.code.as_str()).collect();
    assert_eq!(codes, vec!["dependency.cycle"]);
    assert!(r.faults[0].message.starts_with("direct dependency cycle: ["));
    let mut r = report("space".to_string(), 1);
    network(&cyclic, &vec![vec![], vec![1], vec![]], &mut r);
    let codes: Vec<&str> = r.faults.iter().map(|f| f.code.as_str()).collect();
    assert_eq!(codes, vec!["dependency.cycle", "dependency.closure"]);
}

#[test]
fn findings_sort_stably() {
    let v = vec![finding("b", "s", "m"), finding("a", "t", "m"), finding("a", "s", "n"), finding("a", "s", "m")];
    let s = sort_findings(v);
    let keys: Vec<(&str, &str, &str)> = s.iter().map(|f| (f.code.as_str(), f.subject.as_str(), f.message.as_str())).collect();
    assert_eq!(keys, vec![("a", "s", "m"), ("a", "s", "n"), ("a", "t", "m"), ("b", "s", "m")]);
    let mut r = report("space".to_string(), 4);
    r.fault("z", "1".to_string(), "m".to_string());
    r.fault("a", "2".to_string(), "m".to_string());
    r.observe("q", "3".to_string(), "m".to_string());
    r.observe("b", "4".to_string(), "m".to_string());
    let r = settle_report(r);
    assert_eq!((r.faults[0].code.as_str(), r.observations[0].code.as_str()), ("a", "b"));
}
