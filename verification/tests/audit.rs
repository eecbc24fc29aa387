use concord::audit::{ensure_exact, merge, permission, Audit, Fault};
use concord::error::Error;
use concord::member::{inspect_member, land_audit, member_audit, LandProbe, LandingProof, Probe};
use concord::preflight::{member_preflight, preflight, MemberSeed, Preflight};

fn fault(kind: &str) -> Fault {
    Fault { kind: kind.to_string(), path: "/p".to_string(), message: "m".to_string() }
}

#[test]
fn hygiene_faults_do_not_gate() {
    assert!(!fault("permission").gates());
    assert!(!fault("memory").gates());
    assert!(!fault("resource").gates());
    assert!(fault("presence").gates());
    let mut a = Audit::new("t".to_string());
    assert!(a.ok() && a.agrees());
    a.fault("permission", "/p", "mode".to_string());
    assert!(!a.ok() && a.agrees());
    a.fault("branch", "/p", "b".to_string());
    assert!(!a.agrees());
}

#[test]
fn merge_appends_faults_and_observations() {
    let mut a = Audit::new("space".to_string());
    a.fault("x", "/a", "1".to_string());
    let mut b = Audit::new("domain".to_string());
    b.fault("y", "/b", "2".to_string());
    b.observe("z", "/c", "3".to_string());
    merge(&mut a, b);
    assert_eq!(a.target, "space");
    assert_eq!(a.faults.iter().map(|f| f.kind.as_str()).collect::<Vec<_>>(), vec!["x", "y"]);
    assert_eq!(a.observations.len(), 1);
}

#[test]
fn permission_writes_modes_in_octal() {
    let mut a = Audit::new("t".to_string());
    permission(&mut a, "/p", Some(0o755), 0o700);
    permission(&mut a, "/q", Some(0o600), 0o600);
    permission(&mut a, "/r", None, 0o600);
    permission(&mut a, "/s", Some(0o4), 0o10700);
    assert_eq!(a.faults.len(), 2);
    assert_eq!(a.faults[0].message, "mode 0755 must be 0700");
    assert_eq!(a.faults[1].message, "mode 0004 must be 10700");
}

#[test]
fn ensure_exact_counts_faults() {
    let mut a = Audit::new("t".to_string());
    assert!(ensure_exact(&a, "a/b").is_ok());
    a.fault("x", "/p", "m".to_string());
    a.fault("y", "/p", "m".to_string());
    let e = ensure_exact(&a, "a/b").unwrap_err();
    assert_eq!((e.code, e.message.as_str()), (None, "task protocol mismatch: 2 fault(s); run concord audit a/b"));
}

fn probe() -> Probe {
    Probe {
        path: "/t/m".to_string(),
        present: true,
        source: Ok("/src".to_string()),
        source_present: true,
        source_identity: Ok("git:1".to_string()),
        member_identity: Ok("git:1".to_string()),
        registered: Ok(true),
        branch: Ok("task/x".to_string()),
        clean: Ok(true),
        head_valid: Ok(true),
        landing: Ok(Some(LandingProof::Reachable { member_head: "a".to_string(), integration_head: "b".to_string() })),
    }
}

#[test]
fn a_seated_member_audits_clean() {
    let mut a = Audit::new("t".to_string());
    member_audit(&mut a, &probe(), "task/x").unwrap();
    assert!(a.faults.is_empty());
}

#[test]
fn member_audit_reports_each_disagreement() {
    let mut p = probe();
    p.member_identity = Ok("git:2".to_string());
    p.registered = Ok(false);
    p.branch = Ok("main".to_string());
    let mut a = Audit::new("t".to_string());
    member_audit(&mut a, &p, "task/x").unwrap();
    let got: Vec<(&str, &str)> = a.faults.iter().map(|f| (f.kind.as_str(), f.message.as_str())).collect();
    assert_eq!(got, vec![
        ("identity", "member Git identity git:2 differs from source git:1"),
        ("worktree", "member path is absent from source Git worktree metadata"),
        ("branch", "member branch main differs from registry task/x"),
    ]);
}

#[test]
fn member_audit_stops_at_presence_and_source() {
    let mut p = probe();
    p.present = false;
    let mut a = Audit::new("t".to_string());
    member_audit(&mut a, &p, "task/x").unwrap();
    assert_eq!(a.faults[0].message, "declared member path is missing");
    let mut p = probe();
    p.source = Err("no source".to_string());
    let mut a = Audit::new("t".to_string());
    member_audit(&mut a, &p, "task/x").unwrap();
    assert_eq!((a.faults[0].kind.as_str(), a.faults[0].message.as_str()), ("source", "no source"));
    let mut p = probe();
    p.registered = Err(Error::new("git failed".to_string()));
    let mut a = Audit::new("t".to_string());
    assert_eq!(member_audit(&mut a, &p, "task/x").unwrap_err().message, "git failed");
}

#[test]
fn stale_boundary_is_an_advisory_from_version_two() {
    let mut p = probe();
    p.head_valid = Ok(false);
    let mut a = Audit::new("t".to_string());
    inspect_member(&mut a, &p, "task/x", 1).unwrap();
    assert!(a.observations.is_empty());
    inspect_member(&mut a, &p, "task/x", 2).unwrap();
    assert_eq!(a.observations[0].message, "member boundary proof is absent or stale");
    assert!(a.faults.is_empty());
}

#[test]
fn landing_audit_checks_clean_and_reachable() {
    let dirty = LandProbe { path: "/m".to_string(), present: true, clean: Ok(false), source_present: Ok(true), landed: Ok(false) };
    let a = land_audit(Audit::new("t".to_string()), &[dirty]).unwrap();
    assert_eq!(a.faults.iter().map(|f| f.kind.as_str()).collect::<Vec<_>>(), vec!["dirty", "reachability"]);
    let failing = LandProbe { path: "/m".to_string(), present: true, clean: Ok(true), source_present: Err(Error::new("no source".to_string())), landed: Ok(true) };
    assert_eq!(land_audit(Audit::new("t".to_string()), &[failing]).unwrap_err().message, "no source");
}

fn seed(p: Probe) -> MemberSeed {
    MemberSeed { name: "m".to_string(), path: "/t/m".to_string(), source: "~/src".to_string(), expected_branch: "task/x".to_string(), write: vec![".".to_string()], boundary: Some(declared()), probe: p }
}

fn declared() -> concord::territory::Boundary {
    concord::territory::Boundary {
        schema: "plumb.boundary/1".to_string(),
        plumb: "0.3.0".to_string(),
        base: "b0".to_string(),
        head: "h1".to_string(),
        claim: "c".to_string(),
    }
}

#[test]
fn preflight_proves_a_landable_member() {
    let mut faults = Vec::new();
    let m = member_preflight(&mut faults, seed(probe()), true).unwrap();
    assert_eq!(m.source, "/src");
    assert_eq!(m.boundary, Some(declared()));
    let proof = m.proof.unwrap();
    assert!(proof.registered && proof.clean);
    assert!(faults.is_empty());
}

#[test]
fn preflight_records_why_a_member_cannot_land() {
    let mut p = probe();
    p.clean = Ok(false);
    let mut faults = Vec::new();
    let m = member_preflight(&mut faults, seed(p), true).unwrap();
    assert!(m.proof.is_none());
    assert_eq!(faults[0].kind, "dirty");
    let mut p = probe();
    p.head_valid = Ok(false);
    p.landing = Ok(None);
    let mut faults = Vec::new();
    member_preflight(&mut faults, seed(p), true).unwrap();
    assert_eq!(faults.iter().map(|f| f.kind.as_str()).collect::<Vec<_>>(), vec!["boundary", "reachability"]);
    let mut p = probe();
    p.branch = Ok("main".to_string());
    let mut faults = Vec::new();
    let m = member_preflight(&mut faults, seed(p), true).unwrap();
    assert!(m.proof.is_none() && faults.is_empty());
    let mut p = probe();
    p.head_valid = Err(Error::new("no head".to_string()));
    let mut kept = vec![fault("x")];
    assert_eq!(member_preflight(&mut kept, seed(p), true).unwrap_err().message, "no head");
    assert_eq!(kept.len(), 1);
}

#[test]
fn preflight_is_ok_only_with_every_member_proved() {
    let mut unlanded = probe();
    unlanded.landing = Ok(None);
    let p = preflight(Audit::new("a/b".to_string()), 2, vec![seed(probe()), seed(unlanded)]).unwrap();
    assert_eq!(p.members.len(), 2);
    assert_eq!(p.unproved(), 1);
    assert!(!p.ok());
    let p = preflight(Audit::new("a/b".to_string()), 2, vec![seed(probe())]).unwrap();
    assert!(p.ok());
    assert_eq!(p.unproved(), 0);
    let empty = Preflight { target: "t".to_string(), members: vec![], faults: vec![fault("x")] };
    assert!(!empty.ok());
    assert_eq!(empty.unproved(), 0);
}

#[test]
fn landing_audit_only_adds_to_the_audit() {
    let clean = LandProbe { path: "/m".to_string(), present: true, clean: Ok(true), source_present: Ok(true), landed: Ok(true) };
    let a = land_audit(Audit::new("t".to_string()), &[clean]).unwrap();
    assert!(a.ok());
    let mut faulted = Audit::new("t".to_string());
    faulted.fault("presence", "/x", "missing".to_string());
    let stray = LandProbe { path: "/m".to_string(), present: true, clean: Ok(true), source_present: Ok(true), landed: Ok(false) };
    let l = land_audit(faulted, &[stray]).unwrap();
    assert_eq!(l.faults.iter().map(|f| (f.kind.as_str(), f.path.as_str())).collect::<Vec<_>>(), vec![("presence", "/x"), ("reachability", "/m")]);
    assert!(!l.ok());
}
