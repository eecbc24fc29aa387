use concord::activate::{plan, preflight, residue, unchanged, MemoryCheck, RealmSeat, RegistryCheck, Step, WorkSeat, MARKER};
use concord::additions::{check, AdditionRow};
use concord::census::{
    foreign, memory_territory, one, relative, walk_kind, Census, Evidence, Holding, RELEASE,
};
use concord::change::{Entry, Fact, Part, Phase, Role};
use concord::coordinate::RepositoryRow;
use concord::load::current;
use concord::migrated::{
    counts, current_facts, dependencies, domain_check, member_check, phases, present, sort_facts, Found, MemberWant,
    RealmWant, RepositoryWant, Worktree,
};
use concord::state::{Edge, Graph, Life, Node, Origin, Weight};
use concord::tally::{count, seal, MemberTally, RealmTally, WorkTally};
use concord::territory::Boundary;
use concord::world::DomainRow;
use sha2::Digest;

fn message(r: Result<impl std::fmt::Debug, concord::error::Error>) -> (String, String) {
    let e = r.unwrap_err();
    (e.code.unwrap_or_default(), e.message)
}

fn census() -> Census {
    Census {
        release: RELEASE.to_string(),
        fingerprint: "f".to_string(),
        domain: 1,
        repository: 2,
        task: 3,
        member: 4,
        claim: 5,
        boundary: 1,
        dependency: 2,
        current: 6,
        phase: 2,
        artifact: 1,
        evidence: vec![Evidence { path: "a".to_string(), kind: "file".to_string(), bytes: 1, mode: Some(0o600), digest: None }],
    }
}

fn realms() -> Vec<RealmTally> {
    let work = |members: Vec<MemberTally>, dependencies: usize| WorkTally {
        members,
        dependencies,
        extra: 1,
        facts: 2,
        phases: 1,
        artifacts: 0,
    };
    vec![
        RealmTally {
            repositories: 2,
            works: vec![
                work(vec![MemberTally { claims: 2, boundary: true }, MemberTally { claims: 1, boundary: false }], 1),
                work(vec![MemberTally { claims: 3, boundary: false }], 0),
            ],
        },
        RealmTally { repositories: 1, works: vec![] },
    ]
}

#[test]
fn census_counts_everything() {
    let c = count(&realms(), vec![]).unwrap();
    assert_eq!(
        (c.domain, c.repository, c.task, c.member, c.claim, c.boundary, c.dependency, c.current, c.phase, c.artifact),
        (2, 3, 2, 3, 6, 1, 1, 6, 2, 0)
    );
    assert_eq!((c.release.as_str(), c.fingerprint.as_str()), (RELEASE, ""));
    let empty = count(&[], vec![]).unwrap();
    assert_eq!((empty.domain, empty.task, empty.member), (0, 0, 0));
}

#[test]
fn census_is_sealed_over_sorted_evidence() {
    let b = Evidence { path: "b".to_string(), kind: "file".to_string(), bytes: 0, mode: None, digest: None };
    let a = Evidence { path: "a".to_string(), kind: "file".to_string(), bytes: 0, mode: None, digest: None };
    let c = seal(&realms(), &[b.clone(), a.clone()]).unwrap();
    assert_eq!(c.evidence, vec![a.clone(), b.clone()]);
    assert_eq!(c.fingerprint, concord::census::fingerprint(&[a, b]));
    assert_eq!(c.fingerprint.len(), 64);
}

#[test]
fn evidence_of_one_path() {
    let e = one("/s", "/s/d/f", "main", &Holding::File(b"abc".to_vec()), Some(0o100644)).unwrap();
    assert_eq!((e.path.as_str(), e.kind.as_str(), e.bytes, e.mode), ("d/f", "main", 3, Some(0o644)));
    assert_eq!(e.digest.as_deref(), Some("ba7816bf8f01cfea414140de5dae2223b00361a396177a9cb410ff61f20015ad"));
    let l = one("/s", "/s/l", "artifact-link", &Holding::Link(b"../t".to_vec()), None).unwrap();
    let want: String = sha2::Sha256::digest(b"../t").iter().map(|b| format!("{b:02x}")).collect();
    assert_eq!((l.bytes, l.digest), (4, Some(want)));
    let d = one("/s", "/s", "directory", &Holding::Directory, Some(0o40700)).unwrap();
    assert_eq!((d.path.as_str(), d.bytes, d.digest, d.mode), ("", 0, None, Some(0o700)));
    assert_eq!(
        message(one("/s", "/s/p", "x", &Holding::Other, None)),
        ("concord.migration.territory".to_string(), "migration cannot model filesystem entry: /s/p".to_string())
    );
    assert_eq!(message(one("/s", "/t/p", "x", &Holding::Directory, None)).1, "evidence lies outside Space: /t/p");
}

#[test]
fn relative_paths() {
    assert_eq!(relative("/s", "/s/a/b").unwrap(), "a/b");
    assert_eq!(relative("/s", "/s/a\\b").unwrap(), "a/b");
    assert_eq!(relative("/s/", "/s/a").unwrap(), "a");
    assert_eq!(message(relative("/s", "/sx/a")).0, "concord.migration.path");
    assert_eq!(foreign("/p").message, "migration cannot model filesystem entry: /p");
}

#[test]
fn walk_kinds() {
    assert_eq!(walk_kind("/p", "artifact", true, &Holding::Link(vec![])).unwrap(), "artifact-link");
    assert_eq!(message(walk_kind("/p", "artifact", false, &Holding::Link(vec![]))).0, "concord.migration.territory");
    assert_eq!(walk_kind("/p", "artifact", false, &Holding::File(vec![])).unwrap(), "artifact-file");
    assert_eq!(walk_kind("/p", "artifact", false, &Holding::Directory).unwrap(), "artifact-directory");
    assert!(walk_kind("/p", "artifact", true, &Holding::Other).is_err());
    assert!(memory_territory(Some("phases"), "/m/phases").is_ok());
    assert_eq!(message(memory_territory(Some("notes"), "/m/notes")).1, "unknown memory territory: /m/notes");
    assert!(memory_territory(None, "/m/?").is_err());
}

#[test]
fn activation_decisions() {
    assert!(unchanged(&census(), &census()).is_ok());
    let mut moved = census();
    moved.evidence[0].bytes = 2;
    assert_eq!(message(unchanged(&moved, &census())), ("concord.migration.changed".to_string(), "legacy Space changed after staging".to_string()));
    let stage = vec!["sudo".to_string(), "estate.sqlite3".to_string()];
    let realm = |present: bool, busy: bool| RegistryCheck {
        path: "/s/d/.tasks/tasks.toml".to_string(),
        present,
        works: vec![MemoryCheck { path: "/s/d/.tasks/t/.task".to_string(), resources: busy, artifacts: busy }],
    };
    assert!(preflight(false, &stage, &vec![realm(true, false)]).is_ok());
    assert_eq!(message(preflight(true, &stage, &vec![])).0, "concord.migration.target");
    assert_eq!(message(preflight(false, &vec![], &vec![])).0, "concord.migration.stage");
    assert_eq!(message(preflight(false, &stage, &vec![realm(false, true)])).1, "legacy registry disappeared: /s/d/.tasks/tasks.toml");
    assert_eq!(message(preflight(false, &stage, &vec![realm(true, true)])).1, "Artifact target is occupied: /s/d/.tasks/t/.task");
    assert_eq!(residue(3, &vec![("/m/MAIN.md".to_string(), false)]).unwrap(), 3);
    assert_eq!(
        message(residue(3, &vec![("/m/MAIN.md".to_string(), false), ("/m/phases".to_string(), true)])),
        ("concord.migration.payload".to_string(), "legacy payload remains active: /m/phases".to_string())
    );
}

fn addition(parent: i64, rank: i64, name: &str, body: &str) -> AdditionRow {
    AdditionRow { parent: Some(parent), rank: Some(rank), name: Some(name.to_string()), body: Some(body.to_string()) }
}

#[test]
fn additions_match_fields_in_order() {
    let rows = vec![addition(1, 2, "b", "2"), addition(9, 1, "x", "y"), addition(1, 1, "a", "\"one\"")];
    let expected = vec![("a".to_string(), "\"one\"".to_string()), ("b".to_string(), "2".to_string())];
    assert!(check(&rows, "domain", 1, &expected).is_ok());
    assert_eq!(
        message(check(&rows, "domain", 9, &expected)),
        ("concord.migration.mismatch".to_string(), "Addition facts differ for domain Resource 9".to_string())
    );
    assert!(check(&[], "task", 4, &vec![]).is_ok());
    assert!(check(&rows, "domain", 1, &expected[..1].to_vec()).is_err());
}

#[test]
fn migrated_counts() {
    let c = census();
    let found = Found { repository: 2, task: 3, reservation: 3, member: 4, claim: 5, boundary: 1, dependency: 2, phase: 2 };
    assert!(counts(&c, &found).is_ok());
    assert_eq!(message(counts(&c, &Found { reservation: 2, ..found })).1, "Reservation count differs: expected 3, found 2");
    assert_eq!(message(counts(&c, &Found { claim: 0, phase: 0, ..found })).1, "Claim count differs: expected 5, found 0");
}

fn entry(key: Option<i64>, body: &str) -> Entry {
    Entry { key, part: Part::Outcome, rank: None, title: None, body: body.to_string(), origin: None }
}

#[test]
fn migrated_phases() {
    let wanted = vec![vec![entry(None, "one")], vec![entry(None, "two")]];
    let found = vec![
        Phase { key: 5, number: 1, entries: vec![entry(Some(8), "one")] },
        Phase { key: 6, number: 2, entries: vec![entry(Some(9), "two")] },
    ];
    assert!(phases("d/t", &wanted, &found).is_ok());
    assert_eq!(message(phases("d/t", &wanted[..1].to_vec(), &found)).1, "Task Phase count differs: expected 1, found 2");
    let mut renumbered = found.clone();
    renumbered[1].number = 3;
    assert_eq!(message(phases("d/t", &wanted, &renumbered)).1, "Phase serial differs for d/t");
    let mut edited = found.clone();
    edited[0].entries[0].body = "uno".to_string();
    assert_eq!(message(phases("d/t", &wanted, &edited)).1, "Phase facts differ for d/t");
}

fn node(key: i64, domain: &str, name: &str) -> Node {
    Node { key, domain: domain.to_string(), name: name.to_string(), life: Life::Active, revision: 0 }
}

#[test]
fn migrated_dependencies() {
    let graph = Graph {
        revision: 1,
        nodes: vec![node(1, "d", "a"), node(2, "d", "b"), node(3, "d", "c")],
        edges: vec![
            Edge { key: 7, source: 1, target: 2, weight: Weight::Unknown, origin: Origin::Legacy },
            Edge { key: 8, source: 1, target: 3, weight: Weight::Required, origin: Origin::Legacy },
        ],
    };
    assert!(present(&graph, "d/a").is_ok());
    assert_eq!(message(present(&graph, "d/z")).1, "missing Task d/z");
    assert!(dependencies("d", "d/a", &vec!["b".to_string()], &graph, &vec![2, 3]).is_ok());
    assert_eq!(message(dependencies("d", "d/a", &vec!["b".to_string()], &graph, &vec![3])).1, "closure misses d/a -> d/b");
    assert_eq!(
        message(dependencies("d", "d/a", &vec!["c".to_string()], &graph, &vec![2, 3])).1,
        "legacy dependency attributes differ: d/a -> d/c"
    );
    assert_eq!(message(dependencies("d", "d/b", &vec!["a".to_string()], &graph, &vec![])).1, "missing dependency d/b -> d/a");
}

fn boundary(head: &str) -> Boundary {
    Boundary {
        schema: "s".to_string(),
        plumb: "p".to_string(),
        base: "b".to_string(),
        head: head.to_string(),
        claim: "c".to_string(),
    }
}

#[test]
fn migrated_members() {
    let tree = Worktree {
        key: 4,
        task: "d/t".to_string(),
        name: "api".to_string(),
        source: "~/src/api".to_string(),
        branch: "task/t".to_string(),
        claims: vec!["src".to_string()],
        proof: Some(boundary("h")),
    };
    let want = MemberWant {
        name: "api".to_string(),
        source: "~/src/api".to_string(),
        branch: "task/t".to_string(),
        write: vec!["src".to_string()],
        boundary: Some(boundary("h")),
        extra: vec![],
    };
    assert!(member_check(&[tree.clone()], &[], "d/t", &vec![want.clone()]).is_ok());
    assert_eq!(message(member_check(&[], &[], "d/t", &vec![want.clone()])).1, "missing Member d/t/api");
    let other = MemberWant { write: vec![".".to_string()], ..want.clone() };
    assert_eq!(message(member_check(&[tree.clone()], &[], "d/t", &vec![other])).1, "Member differs: d/t/api");
    let moved = MemberWant { boundary: Some(boundary("g")), ..want.clone() };
    assert_eq!(message(member_check(&[tree.clone()], &[], "d/t", &vec![moved])).1, "Boundary differs: d/t/api");
    let extra = MemberWant { extra: vec![("k".to_string(), "v".to_string())], ..want };
    assert_eq!(message(member_check(&[tree], &[], "d/t", &vec![extra])).1, "Addition facts differ for member Resource 4");
}

#[test]
fn migrated_domains() {
    let domains = vec![DomainRow { key: 10, space: Some(1), name: Some("d".to_string()), revision: Some(0) }];
    let repos = vec![RepositoryRow { key: 20, domain: Some(10), name: Some("api".to_string()), note: Some("n".to_string()) }];
    let realm = RealmWant {
        name: "d".to_string(),
        extra: vec![],
        repos: vec![RepositoryWant { name: "api".to_string(), note: Some("n".to_string()), extra: vec![] }],
    };
    assert!(domain_check(&domains, &repos, &[], &[], &vec![realm.clone()]).is_ok());
    let missing = RealmWant { name: "e".to_string(), ..realm.clone() };
    assert_eq!(message(domain_check(&domains, &repos, &[], &[], &vec![missing])).1, "missing Domain e");
    let renoted = RealmWant { repos: vec![RepositoryWant { name: "api".to_string(), note: None, extra: vec![] }], ..realm.clone() };
    assert_eq!(message(domain_check(&domains, &repos, &[], &[], &vec![renoted])).1, "Repository note differs: d/api");
    let absent = RealmWant { repos: vec![RepositoryWant { name: "web".to_string(), note: None, extra: vec![] }], ..realm.clone() };
    assert_eq!(message(domain_check(&domains, &repos, &[], &[], &vec![absent])).1, "missing Repository web");
    let rows = vec![AdditionRow { parent: Some(10), rank: Some(1), name: Some("k".to_string()), body: Some("v".to_string()) }];
    let extra = RealmWant { extra: vec![("k".to_string(), "v".to_string())], ..realm };
    assert!(domain_check(&domains, &repos, &rows, &[], &vec![extra.clone()]).is_ok());
    assert_eq!(message(domain_check(&domains, &repos, &[], &[], &vec![extra])).1, "Addition facts differ for domain Resource 10");
}

fn fact(key: Option<i64>, role: Role, rank: Option<i64>, body: &str) -> Fact {
    Fact { key, role, rank, title: None, body: body.to_string(), origin: None }
}

#[test]
fn migrated_current_facts() {
    let wanted = vec![fact(None, Role::Next, None, "n"), fact(None, Role::Goal, None, "g"), fact(None, Role::Constraint, Some(2), "c2"), fact(None, Role::Constraint, Some(1), "c1")];
    let found = vec![fact(Some(1), Role::Constraint, Some(1), "c1"), fact(Some(2), Role::Goal, None, "g"), fact(Some(3), Role::Constraint, Some(2), "c2"), fact(Some(4), Role::Next, None, "n")];
    assert!(current_facts("d/t", &wanted, &found).is_ok());
    let ordered = sort_facts(&wanted);
    let sorted: Vec<&str> = ordered.iter().map(|f| f.body.as_str()).collect();
    assert_eq!(sorted, vec!["g", "c1", "c2", "n"]);
    assert_eq!(message(current_facts("d/t", &wanted, &found[..3].to_vec())).1, "current facts differ for d/t");
    let keyed = vec![fact(Some(9), Role::Goal, None, "g")];
    assert!(current_facts("d/t", &keyed, &vec![fact(None, Role::Goal, None, "g")]).is_err());
}

#[test]
fn registry_fields_become_additions() {
    let facts = vec![
        fact(None, Role::Goal, None, "g"),
        Fact { origin: Some("legacy-main".to_string()), ..fact(None, Role::Addition, Some(4), "x") },
        fact(None, Role::Addition, Some(2), "y"),
    ];
    let extra = vec![("owner".to_string(), "\"me\"".to_string()), ("size".to_string(), "3".to_string())];
    let all = current(&facts, &extra);
    assert_eq!(all.len(), 5);
    assert_eq!(all[..3].to_vec(), facts);
    assert_eq!((all[3].role, all[3].rank, all[3].title.as_deref(), all[3].body.as_str()), (Role::Addition, Some(5), Some("owner"), "\"me\""));
    assert_eq!((all[4].rank, all[4].origin.as_deref()), (Some(6), Some("legacy-registry")));
    let plain = current(&vec![], &extra);
    assert_eq!((plain[0].rank, plain[1].rank), (Some(1), Some(2)));
    let _ = Part::Outcome;
}

#[test]
fn activation_plan_in_order() {
    let shift = |from: &str, to: &str| Step::Shift { from: from.to_string(), to: to.to_string() };
    let prune = |path: &str| Step::Prune { path: path.to_string() };
    let realms = vec![RealmSeat {
        name: "d".to_string(),
        works: vec![
            WorkSeat { name: "t".to_string(), memory: true, main: true, phases: false, resources: true },
            WorkSeat { name: "u".to_string(), memory: false, main: false, phases: false, resources: false },
        ],
    }];
    let steps = plan("/s", "/s/.concord/migration/v0.10.0/rollback", "/stage", &realms);
    let r = "/s/.concord/migration/v0.10.0/rollback";
    assert_eq!(
        steps,
        vec![
            shift("/s/d/.tasks/tasks.toml", &format!("{r}/domains/d/tasks.toml")),
            Step::Marker { path: "/s/d/.tasks/tasks.toml".to_string() },
            shift("/s/d/.tasks/t/.task/MAIN.md", &format!("{r}/tasks/d/t/MAIN.md")),
            shift("/s/d/.tasks/t/.task/resources", "/s/d/.tasks/t/.task/artifacts"),
            prune("/s/d/.tasks/t/.task/artifacts"),
            prune("/s/d/.tasks/t/.task"),
            prune("/s/d/.tasks/t"),
            prune("/s/d/.tasks/u"),
            shift("/stage/estate.sqlite3", "/s/.concord/estate.sqlite3"),
            shift("/stage/sudo", "/s/.concord/sudo"),
        ]
    );
    assert_eq!(plan("/s", "/r", "/st", &vec![]).len(), 2);
    assert!(MARKER.starts_with("version = 4"));
}
