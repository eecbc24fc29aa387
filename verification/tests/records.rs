use concord::change::{Part, Role};
use concord::forge::{decode, forge, plan_refer, plan_unrefer, validate, ForgeDeclaration, ReferenceKind, ReferenceRow};
use concord::layout::{assemble, listed, order_edges, reach_nodes, realms};
use concord::load::{entries, facts, Extracted};
use concord::state::{Edge, Life, Node, Origin, Weight};
use concord::world::{DomainRow, SpaceRow, TaskRow, World};

fn row(key: i64, parent: i64, number: Option<i64>) -> ReferenceRow {
    ReferenceRow {
        key,
        parent: Some(parent),
        provider: Some("github".to_string()),
        owner: Some("acme".to_string()),
        repository: Some("api".to_string()),
        number,
    }
}

fn code<T: std::fmt::Debug>(r: Result<T, concord::error::Error>) -> (String, String) {
    let e = r.unwrap_err();
    (e.code.unwrap_or_default(), e.message)
}

fn node(key: i64, domain: &str, name: &str, life: Life) -> Node {
    Node { key, domain: domain.to_string(), name: name.to_string(), life, revision: 0 }
}

fn edge(key: i64, source: i64, target: i64) -> Edge {
    Edge { key, source, target, weight: Weight::Required, origin: Origin::Declared }
}

#[test]
fn forge_coordinates() {
    assert!(validate("github", "acme", "api", 1).is_ok());
    assert_eq!(code(validate("gitlab", "acme", "api", 1)).1, "unsupported forge provider gitlab");
    assert_eq!(code(validate("github", "ac me", "api", 1)).0, "concord.reference.coordinate");
    assert_eq!(code(validate("github", "acme", "a\tpi", 1)).0, "concord.reference.coordinate");
    assert_eq!(code(validate("github", "acme", "api", 0)).1, "forge reference number must be positive");
    assert_eq!((ReferenceKind::Issue.name(), ReferenceKind::Change.unit()), ("issue", "Change"));
}

#[test]
fn forge_rows() {
    let r = decode(&row(1, 5, Some(12)), ReferenceKind::Issue).unwrap();
    assert_eq!((r.kind, r.provider.as_str(), r.owner.as_str(), r.repository.as_str(), r.number), (ReferenceKind::Issue, "github", "acme", "api", 12));
    assert_eq!(
        code(decode(&row(3, 5, None), ReferenceKind::Issue)),
        ("concord.reference.row".to_string(), "forge Reference 3 has malformed field number".to_string())
    );
    let rows = vec![row(1, 5, Some(12)), row(2, 6, Some(13)), row(3, 6, Some(14))];
    assert_eq!(forge(&rows, ReferenceKind::Issue, 5).unwrap().unwrap().number, 12);
    assert!(forge(&rows, ReferenceKind::Issue, 7).unwrap().is_none());
    assert_eq!(
        code(forge(&rows, ReferenceKind::Change, 6)),
        ("concord.reference.duplicate".to_string(), "Change parent 6 has multiple references".to_string())
    );
}

#[test]
fn forge_plans() {
    let declaration = ForgeDeclaration {
        task: "a/b".to_string(),
        member: None,
        provider: "github".to_string(),
        owner: "acme".to_string(),
        repository: "api".to_string(),
        number: 3,
        revision: 4,
    };
    let rows = vec![row(1, 5, Some(12)), row(2, 6, Some(13))];
    let p = plan_refer(&declaration, 4, &rows, 6).unwrap();
    assert_eq!((p.held, p.revision), (Some(2), 5));
    assert_eq!(plan_refer(&declaration, 4, &rows, 9).unwrap().held, None);
    let bad = ForgeDeclaration { number: -1, ..declaration };
    assert_eq!(code(plan_refer(&bad, 4, &rows, 6)).0, "concord.reference.number");
    assert_eq!(plan_unrefer(ReferenceKind::Issue, 4, &rows, 5).unwrap(), (1, 5));
    assert_eq!(
        code(plan_unrefer(ReferenceKind::Issue, 4, &rows, 9)),
        ("concord.reference.absent".to_string(), "Issue reference is not declared".to_string())
    );
}

#[test]
fn graph_layout() {
    let nodes = vec![node(2, "b", "x", Life::Active), node(1, "a", "y", Life::Active), node(3, "a", "z", Life::Retired)];
    let edges = vec![edge(9, 2, 1), edge(8, 1, 2), edge(7, 1, 3)];
    let g = assemble(4, nodes.clone(), edges.clone(), false);
    assert_eq!(g.revision, 4);
    assert_eq!(g.nodes.iter().map(|n| n.key).collect::<Vec<_>>(), vec![1, 2]);
    assert_eq!(g.edges.iter().map(|e| e.key).collect::<Vec<_>>(), vec![8, 9]);
    let g = assemble(4, nodes, edges, true);
    assert_eq!(g.nodes.iter().map(|n| n.key).collect::<Vec<_>>(), vec![1, 3, 2]);
    assert_eq!(g.edges.iter().map(|e| e.key).collect::<Vec<_>>(), vec![7, 8, 9]);
    let ordered = order_edges(&[edge(3, 2, 1), edge(2, 1, 2), edge(1, 1, 2)]);
    assert_eq!(ordered.iter().map(|e| e.key).collect::<Vec<_>>(), vec![1, 2, 3]);
}

#[test]
fn world_layout() {
    let task = |key: i64, domain: i64, name: &str, state: &str| TaskRow {
        key,
        domain: Some(domain),
        name: Some(name.to_string()),
        state: Some(state.to_string()),
        revision: Some(0),
    };
    let w = World::read(
        &[SpaceRow { key: 1, revision: Some(0) }],
        &[
            DomainRow { key: 10, space: Some(1), name: Some("zeta".to_string()), revision: Some(0) },
            DomainRow { key: 20, space: Some(1), name: Some("alpha".to_string()), revision: Some(0) },
        ],
        &[task(1, 10, "run", "active"), task(2, 20, "old", "retired"), task(3, 20, "new", "active")],
    )
    .unwrap();
    assert_eq!(realms(&w).iter().map(|r| r.name.as_str()).collect::<Vec<_>>(), vec!["alpha", "zeta"]);
    assert_eq!(listed(&w, true).len(), 3);
    assert_eq!(listed(&w, false).iter().map(|n| n.identity()).collect::<Vec<_>>(), vec!["alpha/new", "zeta/run"]);
    let reached = reach_nodes(&w, &[1, 9, 3]);
    assert_eq!(reached.iter().map(|n| n.key).collect::<Vec<_>>(), vec![3, 1]);
}

#[test]
fn legacy_main_loads() {
    let none = Extracted { sections: vec![], preamble: None };
    let f = facts("  old notes \n", true, &none);
    assert_eq!(f.len(), 1);
    assert_eq!((f[0].role, f[0].rank, f[0].title.as_deref(), f[0].body.as_str(), f[0].origin.as_deref()), (Role::Addition, Some(1), Some("MAIN.md"), "old notes", Some("legacy-main")));
    assert!(facts(" \n", true, &none).is_empty());
    let extracted = Extracted {
        sections: vec![("goal".to_string(), "ship".to_string()), ("constraints".to_string(), "".to_string()), ("questions".to_string(), "why".to_string())],
        preamble: Some("pre".to_string()),
    };
    let f = facts("ignored", false, &extracted);
    let shapes: Vec<(Role, Option<i64>, &str)> = f.iter().map(|x| (x.role, x.rank, x.body.as_str())).collect();
    assert_eq!(shapes, vec![(Role::Goal, None, "ship"), (Role::Question, Some(1), "why"), (Role::Addition, Some(1), "pre")]);
    assert_eq!(f[2].title.as_deref(), Some("MAIN.md preamble"));
    assert!(f.iter().all(|x| x.key.is_none()));
}

#[test]
fn legacy_phase_loads() {
    let none = Extracted { sections: vec![], preamble: None };
    let e = entries("\tphase text", true, &none);
    assert_eq!((e[0].part, e[0].body.as_str(), e[0].origin.as_deref()), (Part::Addition, "phase text", Some("legacy-phase")));
    let extracted = Extracted {
        sections: vec![("outcome".to_string(), "done".to_string()), ("carry-forward".to_string(), "more".to_string())],
        preamble: None,
    };
    let e = entries("", false, &extracted);
    let shapes: Vec<(Part, Option<i64>, &str)> = e.iter().map(|x| (x.part, x.rank, x.body.as_str())).collect();
    assert_eq!(shapes, vec![(Part::Outcome, None, "done"), (Part::Carry, Some(1), "more")]);
}
