use concord::agreement::report;
use concord::audit::{conflict, Audit, Held};
use concord::hygiene::{memory_entry, memory_root, undeclared_tasks, undeclared_worktrees, Seated, Stand, Zone};
use concord::state::{Life, Node};
use concord::territory::{artifacts, boundary_proof, current, custody, member, seat, Boundary, Entry};

fn entry(name: &str, path: &str) -> Entry {
    Entry { name: name.to_string(), path: path.to_string() }
}

fn task() -> Node {
    Node { key: 1, domain: "d".to_string(), name: "t".to_string(), life: Life::Active, revision: 0 }
}

fn kinds(r: &concord::agreement::Agreement) -> Vec<(String, String)> {
    r.faults.iter().map(|f| (f.code.clone(), f.subject.clone())).collect()
}

#[test]
fn custody_modes() {
    let mut r = report("space".to_string(), 0);
    custody(&mut r, "/s", Some(0o700), Some(0o644), None);
    assert_eq!(r.faults.len(), 1);
    assert_eq!((r.faults[0].code.as_str(), r.faults[0].subject.as_str()), ("permission", "/s/.concord/estate.sqlite3"));
    assert_eq!(r.faults[0].message, "mode 0644 must be 0600");
    custody(&mut r, "/s/", Some(0o755), None, Some(0o640));
    assert_eq!(r.faults[1].subject, "/s/.concord");
    assert_eq!(r.faults[2].message, "mode 0640 must be 0600");
}

#[test]
fn task_seats() {
    let members = vec!["api".to_string()];
    let mut r = report("space".to_string(), 0);
    seat(&mut r, &task(), "/s/d/.tasks/t", false, false, &vec![], &vec![]);
    assert!(r.faults.is_empty());
    seat(&mut r, &task(), "/s/d/.tasks/t", false, false, &members, &vec![]);
    seat(&mut r, &task(), "/s/d/.tasks/t", true, false, &members, &vec![]);
    let entries = vec![entry("api", "/s/d/.tasks/t/api"), entry(".task", "/s/d/.tasks/t/.task"), entry("web", "/s/d/.tasks/t/web")];
    seat(&mut r, &task(), "/s/d/.tasks/t", true, true, &members, &entries);
    assert_eq!(
        kinds(&r),
        vec![
            ("member.missing".to_string(), "d/t".to_string()),
            ("territory.task".to_string(), "/s/d/.tasks/t".to_string()),
            ("territory.unknown".to_string(), "/s/d/.tasks/t/web".to_string()),
        ]
    );
}

#[test]
fn task_memory_territory() {
    let mut r = report("space".to_string(), 0);
    artifacts(&mut r, &None, &Some(vec![(entry("x", "/a/x"), false)]));
    assert!(r.faults.is_empty());
    let memory = Some(vec![entry("artifacts", "/m/artifacts"), entry("MAIN.md", "/m/MAIN.md")]);
    let found = Some(vec![(entry("a", "/m/artifacts/a"), true), (entry("b", "/m/artifacts/b"), false)]);
    artifacts(&mut r, &memory, &found);
    assert_eq!(
        kinds(&r),
        vec![
            ("territory.memory".to_string(), "/m/MAIN.md".to_string()),
            ("artifact.territory".to_string(), "/m/artifacts/b".to_string()),
        ]
    );
    assert_eq!(r.faults[0].message, "MAIN/PHASE or unknown memory territory remains active");
}

#[test]
fn members_of_a_task() {
    let mut r = report("space".to_string(), 0);
    member(&mut r, Life::Active, "d/t", "api", true, true, Some(true));
    assert!(r.faults.is_empty() && r.observations.is_empty());
    member(&mut r, Life::Retired, "d/t", "api", false, false, Some(false));
    let codes: Vec<&str> = r.faults.iter().map(|f| f.code.as_str()).collect();
    assert_eq!(codes, vec!["member.retired", "member.agreement", "claim.shape"]);
    assert!(r.faults.iter().all(|f| f.subject == "d/t/api"));
    assert_eq!((r.observations[0].code.as_str(), r.observations[0].message.as_str()), ("boundary.stale", "Member Boundary proof is stale"));
    member(&mut r, Life::Active, "d/t", "web", true, true, None);
    assert_eq!(r.observations.len(), 1);
}

fn sample(head: &str) -> Boundary {
    Boundary { schema: "s1".to_string(), plumb: "p1".to_string(), base: "b".to_string(), head: head.to_string(), claim: "c".to_string() }
}

#[test]
fn boundary_proofs() {
    assert!(current(&sample("h"), "s1", "p1", Some("h"), "c"));
    assert!(!current(&sample("h"), "s2", "p1", Some("h"), "c"));
    assert!(!current(&sample("h"), "s1", "p1", None, "c"));
    assert!(!current(&sample("h"), "s1", "p1", Some("h"), "d"));
    assert!(boundary_proof("d/t", "api", &None, &None).is_ok());
    assert!(boundary_proof("d/t", "api", &Some(sample("h")), &Some(sample("h"))).is_ok());
    let e = boundary_proof("d/t", "api", &Some(sample("h")), &None).unwrap_err();
    assert_eq!((e.code.as_deref(), e.message.as_str()), (Some("concord.migration.mismatch"), "Boundary differs: d/t/api"));
}

#[test]
fn claim_conflicts() {
    let held = |owner: &str, identity: &str| Held { owner: owner.to_string(), path: format!("/s/{owner}"), identity: identity.to_string() };
    let mut a = Audit::new("space".to_string());
    conflict(&mut a, &held("d/t/api", "repo"), &held("d/u/api", "repo"), false);
    conflict(&mut a, &held("d/t/api", "repo"), &held("d/u/web", "other"), true);
    assert!(a.faults.is_empty());
    conflict(&mut a, &held("d/t/api", "repo"), &held("d/u/api", "repo"), true);
    assert_eq!((a.faults[0].kind.as_str(), a.faults[0].path.as_str()), ("claim", "/s/d/u/api"));
    assert_eq!(a.faults[0].message, "d/u/api overlaps d/t/api");
}

#[test]
fn undeclared_roots_and_worktrees() {
    let mut a = Audit::new("d".to_string());
    let declared = vec!["t".to_string()];
    undeclared_tasks(&mut a, &declared, &vec![(entry("t", "/d/t"), true), (entry("x", "/d/x"), true), (entry("f", "/d/f"), false)]);
    assert_eq!(a.faults.len(), 1);
    assert_eq!((a.faults[0].kind.as_str(), a.faults[0].path.as_str(), a.faults[0].message.as_str()), ("registry", "/d/x", "task root has no registry entry"));
    let seated = |name: &str, directory: bool, git: bool| Seated { entry: entry(name, &format!("/t/{name}")), directory, git };
    let mut b = Audit::new("d/t".to_string());
    undeclared_worktrees(&mut b, &declared, &vec![seated("t", true, true), seated(".task", true, true), seated("w", true, true), seated("v", true, false), seated("f", false, true)]);
    assert_eq!(b.faults.len(), 1);
    assert_eq!((b.faults[0].path.as_str(), b.faults[0].message.as_str()), ("/t/w", "Git worktree under task root is undeclared"));
}

#[test]
fn memory_modes_and_links() {
    let mut a = Audit::new("d/t".to_string());
    memory_root(&mut a, "/m", Some(0o700), "/m/MAIN.md", true);
    assert!(a.faults.is_empty());
    memory_root(&mut a, "/m", Some(0o755), "/m/MAIN.md", false);
    assert_eq!(a.faults[0].message, "mode 0755 must be 0700");
    assert_eq!((a.faults[1].kind.as_str(), a.faults[1].message.as_str()), ("presence", "task memory exists without MAIN.md"));
    let mut b = Audit::new("d/t".to_string());
    assert_eq!(memory_entry(&mut b, "/m/resources", "resources", true, Zone::Memory, Stand::Directory, Some(0o700)), Some(Zone::Resources));
    assert_eq!(memory_entry(&mut b, "/m/phases", "phases", true, Zone::Memory, Stand::Directory, Some(0o700)), Some(Zone::Memory));
    assert_eq!(memory_entry(&mut b, "/m/x/resources", "resources", false, Zone::Memory, Stand::Directory, None), Some(Zone::Memory));
    assert!(b.faults.is_empty());
    assert_eq!(memory_entry(&mut b, "/m/l", "l", true, Zone::Memory, Stand::Link, None), None);
    assert_eq!(memory_entry(&mut b, "/m/r/l", "l", false, Zone::Resources, Stand::Link, None), None);
    assert_eq!(memory_entry(&mut b, "/m/MAIN.md", "MAIN.md", true, Zone::Memory, Stand::File, Some(0o644)), None);
    assert_eq!(memory_entry(&mut b, "/m/r/k", "k", false, Zone::Resources, Stand::File, Some(0o640)), None);
    assert_eq!(memory_entry(&mut b, "/m/r/ok", "ok", false, Zone::Resources, Stand::File, Some(0o600)), None);
    let messages: Vec<(&str, &str)> = b.faults.iter().map(|f| (f.kind.as_str(), f.message.as_str())).collect();
    assert_eq!(
        messages,
        vec![
            ("memory", "symbolic links are not managed memory"),
            ("resource", "symbolic links are not private resources"),
            ("permission", "mode 0644 must be 0600"),
            ("permission", "mode 0640 exposes a private resource"),
        ]
    );
}
