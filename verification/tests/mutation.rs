use concord::coordinate::{
    available, moved_task, plan_annotate, plan_rehome, plan_rename, Annotate, AnnotatePlan, Rehome, Rename, Repository,
};
use concord::mutate::{
    cycle_refusal, direct, finishable, fresh, plan_cut, plan_finish, plan_link, plan_manage, plan_start, plan_tune, retire,
    started, Endpoint, FinishPlan, Place, Remains,
};
use concord::territory::Entry;
use concord::state::{Cut, Finish, Life, Link, Origin, Tune, Weight};
use concord::world::{DomainRow, SpaceRow, TaskRow, World};

fn world() -> World {
    let domain = |key: i64, name: &str, revision: i64| DomainRow {
        key,
        space: Some(1),
        name: Some(name.to_string()),
        revision: Some(revision),
    };
    let task = |key: i64, domain: i64, name: &str, state: &str, revision: i64| TaskRow {
        key,
        domain: Some(domain),
        name: Some(name.to_string()),
        state: Some(state.to_string()),
        revision: Some(revision),
    };
    World::read(
        &[SpaceRow { key: 1, revision: Some(7) }],
        &[domain(10, "alpha", 2), domain(20, "zeta", 0)],
        &[task(1, 10, "build", "active", 3), task(2, 10, "ship", "active", 0), task(3, 20, "old", "retired", 1)],
    )
    .unwrap()
}

fn code(r: Result<impl std::fmt::Debug, concord::error::Error>) -> (String, String) {
    let e = r.unwrap_err();
    (e.code.unwrap_or_default(), e.message)
}

fn link(source: &str, target: &str, revision: i64) -> Link {
    Link { source: source.to_string(), target: target.to_string(), weight: Weight::Required, origin: Origin::Declared, revision }
}

#[test]
fn link_plans() {
    let w = world();
    let p = plan_link(&w, &link("alpha/build", "alpha/ship", 7), false, &[]).unwrap();
    assert_eq!((p.source, p.target, p.revision), (1, Endpoint::Held(2), 8));
    assert_eq!(
        code(plan_link(&w, &link("alpha/build", "alpha/ship", 6), false, &[])),
        ("concord.graph.stale".to_string(), "graph revision changed: expected 6, found 7".to_string())
    );
    assert_eq!(
        code(plan_link(&w, &link("alpha/build", "alpha/build", 7), false, &[])),
        ("concord.dependency.self".to_string(), "a Task cannot depend on itself".to_string())
    );
    assert_eq!(
        code(plan_link(&w, &link("alpha/build", "alpha/ship", 7), false, &[2])),
        ("concord.dependency.exists".to_string(), "dependency already exists: alpha/build -> alpha/ship".to_string())
    );
    assert_eq!(
        code(plan_link(&w, &link("alpha/build", "zeta/old", 7), false, &[])),
        ("concord.task.retired".to_string(), "retired Task is immutable: zeta/old".to_string())
    );
    assert_eq!(code(plan_link(&w, &link("alpha/build", "alpha/new", 7), false, &[])).0, "concord.task.absent");
    let p = plan_link(&w, &link("alpha/build", "alpha/new", 7), true, &[]).unwrap();
    assert_eq!(p.target, Endpoint::Fresh);
    let e = cycle_refusal(&link("a/x", "a/y", 1));
    assert_eq!(e.message, "dependency creates a cycle: a/x -> a/y");
}

#[test]
fn tune_and_cut_plans() {
    let w = world();
    let tune = Tune { source: "alpha/build".to_string(), target: "alpha/ship".to_string(), weight: Weight::Context, revision: 7 };
    assert_eq!(plan_tune(&w, &tune).unwrap(), (1, 2));
    let cut = Cut { source: "alpha/build".to_string(), target: "alpha/ship".to_string(), reason: " ".to_string(), revision: 7 };
    assert_eq!(code(plan_cut(&w, &cut)).0, "concord.dependency.reason");
    let cut = Cut { reason: "done".to_string(), ..cut };
    assert_eq!(plan_cut(&w, &cut).unwrap(), (1, 2));
    let cut = Cut { target: "zeta/old".to_string(), ..cut };
    assert_eq!(code(plan_cut(&w, &cut)).0, "concord.task.retired");
    assert_eq!(direct(&[(5, 2), (6, 3), (7, 2)], 1, 2).unwrap(), 5);
    assert_eq!(
        code(direct(&[(5, 2)], 1, 4)),
        ("concord.dependency.absent".to_string(), "dependency does not exist: 1 -> 4".to_string())
    );
}

#[test]
fn finish_plans() {
    let w = world();
    let finish = |task: &str, revision: i64, graph: i64, reason: &str| Finish {
        task: task.to_string(),
        revision,
        graph,
        reason: reason.to_string(),
    };
    assert_eq!(plan_finish(&w, &finish("alpha/build", 3, 7, "done"), false).unwrap(), FinishPlan { task: 1, revision: 4, graph: 8 });
    assert_eq!(code(plan_finish(&w, &finish("alpha/build", 3, 7, ""), false)).0, "concord.task.reason");
    assert_eq!(
        code(plan_finish(&w, &finish("alpha/build", 2, 7, "done"), false)),
        ("concord.task.stale".to_string(), "finish revisions changed: Task 2/3, graph 7/7".to_string())
    );
    assert_eq!(code(plan_finish(&w, &finish("zeta/old", 1, 7, "done"), false)).1, "Task is already retired: zeta/old");
    assert_eq!(code(plan_finish(&w, &finish("alpha/build", 3, 7, "done"), true)).0, "concord.task.members");
    let t = retire(&w.nodes[0], 4);
    assert_eq!((t.key, t.life, t.revision, t.name.as_str()), (1, Life::Retired, 4, "build"));
}

#[test]
fn start_plans() {
    let w = world();
    assert!(plan_manage(&w, "beta").is_ok());
    assert_eq!(code(plan_manage(&w, "alpha")).1, "Domain name is already reserved: alpha");
    assert_eq!(plan_start(&w, "zeta", "new", false, false, "/s/zeta/new").unwrap(), 20);
    assert_eq!(code(plan_start(&w, "beta", "new", false, false, "/s")).1, "unknown managed domain beta");
    assert_eq!(code(plan_start(&w, "zeta", "new", true, false, "/s")).1, "Task name is already reserved: zeta/new");
    assert_eq!(
        code(plan_start(&w, "zeta", "new", false, true, "/s/zeta/new")).1,
        "Task seat is occupied by foreign territory: /s/zeta/new"
    );
    let t = started(9, "zeta", "new");
    assert_eq!((t.key, t.life, t.revision, t.identity()), (9, Life::Active, 0, "zeta/new".to_string()));
    assert_eq!(fresh(&w, "alpha/next", false, false, "/s").unwrap(), (10, "next".to_string()));
    assert_eq!(code(fresh(&w, "next", false, false, "/s")).0, "concord.task.identity");
    assert_eq!(code(fresh(&w, "alpha/next", true, false, "/s")).1, "Task name is already reserved: alpha/next");
}

#[test]
fn move_plans() {
    let w = world();
    let rename = Rename { task: "alpha/build".to_string(), name: "make".to_string(), revision: 3 };
    let p = plan_rename(&w, &rename, false, false, "/s/alpha/.tasks/make").unwrap();
    assert_eq!((p.task, p.domain, p.revision), (1, 10, 4));
    assert_eq!(
        code(plan_rename(&w, &rename, true, true, "/s/alpha/.tasks/make")),
        ("concord.task.reserved".to_string(), "Task name is already reserved: alpha/make".to_string())
    );
    assert_eq!(
        code(plan_rename(&w, &rename, false, true, "/s/alpha/.tasks/make")),
        ("concord.task.territory".to_string(), "target Task seat is occupied: /s/alpha/.tasks/make".to_string())
    );
    let rename = Rename { revision: 2, ..rename };
    assert_eq!(
        code(plan_rename(&w, &rename, false, false, "/s")),
        ("concord.task.stale".to_string(), "Task revision changed: expected 2, found 3".to_string())
    );
    let rehome = Rehome { task: "alpha/ship".to_string(), domain: "zeta".to_string(), revision: 0 };
    let p = plan_rehome(&w, &rehome, false, false, "/s/zeta/.tasks/ship").unwrap();
    assert_eq!((p.task, p.domain, p.revision), (2, 20, 1));
    assert_eq!(code(plan_rehome(&w, &rehome, true, false, "/s/zeta/.tasks/ship")).1, "Task name is already reserved: zeta/ship");
    assert_eq!(
        code(plan_rehome(&w, &rehome, false, true, "/s/zeta/.tasks/ship")),
        ("concord.task.territory".to_string(), "target Task seat is occupied: /s/zeta/.tasks/ship".to_string())
    );
    let rehome = Rehome { domain: "alpha".to_string(), ..rehome };
    assert_eq!(code(plan_rehome(&w, &rehome, true, true, "/s")).0, "concord.task.domain");
    let rehome = Rehome { domain: "beta".to_string(), ..rehome };
    assert_eq!(code(plan_rehome(&w, &rehome, false, false, "/s")).1, "unknown managed domain beta");
    assert!(available(false, "a", "b").is_ok());
    assert_eq!(code(available(true, "a", "b")).1, "Task name is already reserved: a/b");
    let m = moved_task(&w.nodes[0], "zeta", "make", 4);
    assert_eq!((m.key, m.identity(), m.revision, m.life), (1, "zeta/make".to_string(), 4, Life::Active));
}

#[test]
fn annotate_plans() {
    let w = world();
    let repos = vec![
        Repository { key: 4, domain: "alpha".to_string(), name: "api".to_string(), note: None },
        Repository { key: 5, domain: "alpha".to_string(), name: "web".to_string(), note: None },
    ];
    let request = Annotate { domain: "alpha".to_string(), name: "web".to_string(), note: Some("n".to_string()), revision: 2 };
    assert_eq!(plan_annotate(&w, &request, &repos).unwrap(), AnnotatePlan { domain: 10, current: Some(5), revision: 3 });
    let request = Annotate { name: "cli".to_string(), note: None, ..request };
    assert_eq!(plan_annotate(&w, &request, &repos).unwrap(), AnnotatePlan { domain: 10, current: None, revision: 3 });
    let request = Annotate { note: Some("  ".to_string()), ..request };
    assert_eq!(code(plan_annotate(&w, &request, &repos)).0, "concord.repository.note");
    let request = Annotate { note: None, revision: 1, ..request };
    assert_eq!(
        code(plan_annotate(&w, &request, &repos)),
        ("concord.domain.stale".to_string(), "Domain revision changed: expected 1, found 2".to_string())
    );
}

fn seat_entry(name: &str) -> Entry {
    Entry { name: name.to_string(), path: format!("/s/d/.tasks/t/{name}") }
}

#[test]
fn finish_needs_an_empty_seat() {
    let remains = Remains {
        seat: Some(vec![seat_entry(".task")]),
        memory_path: "/s/d/.tasks/t/.task".to_string(),
        memory: Place::Directory,
        memory_entries: vec![Entry { name: "artifacts".to_string(), path: "/s/d/.tasks/t/.task/artifacts".to_string() }],
        artifacts_path: "/s/d/.tasks/t/.task/artifacts".to_string(),
        artifacts: Place::Directory,
        artifacts_empty: true,
    };
    assert!(finishable(&remains).is_ok());
    assert!(finishable(&Remains { seat: None, artifacts_empty: false, ..remains.clone() }).is_ok());
    assert_eq!(
        code(finishable(&Remains { seat: Some(vec![seat_entry(".task"), seat_entry("api")]), ..remains.clone() })),
        ("concord.task.territory".to_string(), "Task seat contains foreign territory: /s/d/.tasks/t/api".to_string())
    );
    assert_eq!(code(finishable(&Remains { memory: Place::Other, ..remains.clone() })).1, "Task seat contains foreign territory: /s/d/.tasks/t/.task");
    assert!(finishable(&Remains { memory: Place::Absent, artifacts_empty: false, ..remains.clone() }).is_ok());
    let stray = Entry { name: "MAIN.md".to_string(), path: "/s/d/.tasks/t/.task/MAIN.md".to_string() };
    assert_eq!(code(finishable(&Remains { memory_entries: vec![stray], ..remains.clone() })).1, "Task seat contains foreign territory: /s/d/.tasks/t/.task/MAIN.md");
    assert_eq!(code(finishable(&Remains { artifacts: Place::Other, ..remains.clone() })).1, "Task seat contains foreign territory: /s/d/.tasks/t/.task/artifacts");
    assert_eq!(
        code(finishable(&Remains { artifacts_empty: false, ..remains })),
        ("concord.task.artifacts".to_string(), "Task finish requires zero retained Artifacts".to_string())
    );
}
