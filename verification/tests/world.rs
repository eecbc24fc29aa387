use concord::state::Life;
use concord::world::{DomainRow, Realm, SpaceRow, TaskRow, World};

fn space() -> Vec<SpaceRow> {
    vec![SpaceRow { key: 1, revision: Some(5) }]
}

fn domain(key: i64, name: &str, revision: i64) -> DomainRow {
    DomainRow { key, space: Some(1), name: Some(name.to_string()), revision: Some(revision) }
}

fn task(key: i64, domain: i64, name: &str, state: &str) -> TaskRow {
    TaskRow { key, domain: Some(domain), name: Some(name.to_string()), state: Some(state.to_string()), revision: Some(0) }
}

fn world() -> World {
    World::read(
        &space(),
        &[domain(20, "zeta", 0), domain(10, "alpha", 2)],
        &[task(3, 20, "ship", "active"), task(1, 10, "build", "active"), task(2, 10, "ship", "retired")],
    )
    .unwrap()
}

#[test]
fn read_orders_domains_by_key_and_tasks_by_identity() {
    let w = world();
    assert_eq!((w.space, w.revision), (1, 5));
    assert_eq!(w.domains.iter().map(|r| r.key).collect::<Vec<_>>(), vec![10, 20]);
    let ids: Vec<String> = w.nodes.iter().map(|n| n.identity()).collect();
    assert_eq!(ids, vec!["alpha/build", "alpha/ship", "zeta/ship"]);
    assert_eq!(w.nodes[1].life, Life::Retired);
}

#[test]
fn read_keeps_the_later_of_two_domain_rows() {
    let w = World::read(&space(), &[domain(10, "old", 0), domain(10, "new", 1)], &[]).unwrap();
    assert_eq!(w.domains, vec![Realm { key: 10, name: "new".to_string(), revision: 1 }]);
}

#[test]
fn read_refuses_bad_rows() {
    let e = World::read(&[], &[], &[]).unwrap_err();
    assert_eq!(e.code.as_deref(), Some("concord.estate.space"));
    assert_eq!(e.message, "Concord estate needs one Space, found 0");
    let e = World::read(&[SpaceRow { key: 1, revision: None }], &[], &[]).unwrap_err();
    assert_eq!(e.message, "Resource 1 has malformed field revision");
    let mut foreign = domain(10, "alpha", 0);
    foreign.space = Some(2);
    let e = World::read(&space(), &[foreign], &[]).unwrap_err();
    assert_eq!((e.code.as_deref(), e.message.as_str()), (Some("concord.domain.space"), "Domain 10 has a foreign Space"));
    let e = World::read(&space(), &[domain(10, "alpha", -1)], &[]).unwrap_err();
    assert_eq!((e.code.as_deref(), e.message.as_str()), (Some("concord.domain.revision"), "Domain revision cannot be negative"));
    let e = World::read(&space(), &[domain(10, "alpha", 0)], &[task(1, 11, "x", "active")]).unwrap_err();
    assert_eq!((e.code.as_deref(), e.message.as_str()), (Some("concord.task.domain"), "Task 1 has an unknown Domain"));
    let e = World::read(&space(), &[domain(10, "alpha", 0)], &[task(1, 10, "x", "paused")]).unwrap_err();
    assert_eq!((e.code.as_deref(), e.message.as_str()), (Some("concord.task.life"), "invalid task life paused"));
    let mut nameless = task(1, 10, "x", "active");
    nameless.name = None;
    let e = World::read(&space(), &[domain(10, "alpha", 0)], &[nameless]).unwrap_err();
    assert_eq!((e.code.as_deref(), e.message.as_str()), (Some("concord.estate.row"), "Resource 1 has malformed field name"));
}

#[test]
fn node_finds_by_identity_or_unique_name() {
    let w = world();
    assert_eq!(w.node("zeta/ship").unwrap().key, 3);
    assert_eq!(w.node("build").unwrap().key, 1);
    let e = w.node("ship").unwrap_err();
    assert_eq!((e.code.as_deref(), e.message.as_str()), (Some("concord.task.ambiguous"), "task name is ambiguous; use domain/ship"));
    let e = w.node("alpha/none").unwrap_err();
    assert_eq!((e.code.as_deref(), e.message.as_str()), (Some("concord.task.absent"), "task not found: alpha/none"));
    let e = w.node("none").unwrap_err();
    assert_eq!(e.message, "task not found: none");
}

#[test]
fn domain_finds_by_name() {
    let w = world();
    assert_eq!(w.domain("zeta"), Some(20));
    assert_eq!(w.domain("beta"), None);
}

#[test]
fn less_orders_texts_by_code_point() {
    assert!(concord::world::less("abc", "abd"));
    assert!(concord::world::less("ab", "abc"));
    assert!(!concord::world::less("abc", "abc"));
    assert!(concord::world::less("Zeta", "alpha"));
}
