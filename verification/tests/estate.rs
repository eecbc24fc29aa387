use concord::audit::Audit;
use concord::census::{
    exact, expected, fingerprint, fingerprint_message, registry_version, render_hex, sort_evidence, stage_files,
    territory, Census, Evidence, RELEASE,
};
use concord::journal::{rollback_outcome, Journal, Undo};
use concord::memory::{contiguity, number, phase_entry, sort_phases, within_limit};
use concord::seat::{config_path, home, join_path, one_space, possession, upgrade, Root, Seat};
use concord::text::{render_mode, same, trim};
use sha2::Digest;

fn code(e: &concord::error::Error) -> &str {
    e.code.as_deref().unwrap_or("")
}

fn evidence(path: &str, kind: &str, bytes: u64, mode: Option<u32>, digest: Option<&str>) -> Evidence {
    Evidence { path: path.to_string(), kind: kind.to_string(), bytes, mode, digest: digest.map(|d| d.to_string()) }
}

fn census(fingerprint: &str) -> Census {
    Census {
        release: RELEASE.to_string(),
        fingerprint: fingerprint.to_string(),
        domain: 1,
        repository: 0,
        task: 0,
        member: 0,
        claim: 0,
        boundary: 0,
        dependency: 0,
        current: 0,
        phase: 0,
        artifact: 0,
        evidence: Vec::new(),
    }
}

#[test]
fn seat_paths() {
    let seat = Seat::new("/srv/space");
    assert_eq!(seat.root, "/srv/space/.concord");
    assert_eq!(seat.database(), "/srv/space/.concord/estate.sqlite3");
    assert_eq!(seat.sudo(), "/srv/space/.concord/sudo");
    assert_eq!(join_path("/srv/", "x"), "/srv/x");
    assert_eq!(join_path("", "x"), "x");
    assert!(seat.present(true, true).is_ok());
    let e = seat.present(true, false).unwrap_err();
    assert_eq!(code(&e), "concord.estate.absent");
    assert!(e.message.starts_with("Concord estate is absent at /srv/space/.concord; bootstrap"));
}

#[test]
fn estate_refusals() {
    assert!(one_space(1).is_ok());
    let e = one_space(2).unwrap_err();
    assert_eq!((code(&e), e.message.as_str()), ("concord.estate.space", "Concord estate needs exactly one Space, found 2"));
    assert_eq!(possession(true, true).unwrap(), true);
    assert_eq!(possession(false, false).unwrap(), false);
    assert_eq!(code(&possession(false, true).unwrap_err()), "concord.estate.sudo_absent");
    let e = upgrade("schema 3");
    assert_eq!(code(&e), "concord.estate.upgrade_required");
    assert_eq!(e.message, "schema 3; follow the exact migration contract for the target Concord release");
}

#[test]
fn roots_and_config() {
    let e = Root::new("rel", Ok("/x".to_string()), true).unwrap_err();
    assert_eq!((e.code.is_none(), e.message.as_str()), (true, "domain_space_root must be absolute"));
    let e = Root::new("/a", Err("gone".to_string()), true).unwrap_err();
    assert_eq!(e.message, "cannot resolve domain_space_root /a: gone");
    let e = Root::new("/a", Ok("/b".to_string()), false).unwrap_err();
    assert_eq!(e.message, "domain_space_root is not a directory: /b");
    assert_eq!(Root::new("/a", Ok("/b".to_string()), true).unwrap().path(), "/b");
    assert_eq!(config_path(Some("/c.toml"), None).unwrap(), "/c.toml");
    assert_eq!(config_path(None, Some("/home/u")).unwrap(), "/home/u/.concord/concord.toml");
    assert_eq!(config_path(None, None).unwrap_err().message, "HOME is required to locate Concord config");
    assert_eq!(home(Some("/h")).unwrap(), "/h");
    assert_eq!(home(None).unwrap_err().message, "HOME is required to expand repository source");
}

#[test]
fn journal_undoes_in_reverse() {
    assert!(Journal::admit_shift("/a", "/b", true, false).is_ok());
    let e = Journal::admit_shift("/a", "/b", true, true).unwrap_err();
    assert_eq!(code(&e), "concord.migration.path");
    assert_eq!(e.message, "migration move requires present source and absent target: /a -> /b");
    assert!(Journal::admit_shift("/a", "/b", false, false).is_err());
    assert!(Journal::admit_marker("/m", false).is_ok());
    assert!(Journal::admit_marker("/m", true).is_err());
    let mut j = Journal::new();
    j.shifted("/a".to_string(), "/b".to_string());
    j.shifted("/c".to_string(), "/d".to_string());
    j.marked("/m".to_string());
    j.pruned("/r".to_string());
    assert_eq!(
        j.undo(),
        vec![
            Undo::Unmark { path: "/m".to_string() },
            Undo::Restore { path: "/r".to_string() },
            Undo::Return { from: "/d".to_string(), to: "/c".to_string() },
            Undo::Return { from: "/b".to_string(), to: "/a".to_string() },
        ]
    );
    assert!(Journal::new().undo().is_empty());
}

#[test]
fn rollback_lists_every_failure() {
    assert!(rollback_outcome(&vec![]).is_ok());
    let e = rollback_outcome(&vec!["one".to_string(), "two".to_string(), "three".to_string()]).unwrap_err();
    assert_eq!((code(&e), e.message.as_str()), ("concord.migration.rollback", "one; two; three"));
}

#[test]
fn phase_numbers() {
    assert_eq!(number("PHASE-07.md"), Some(7));
    assert_eq!(number("PHASE-00.md"), Some(0));
    assert_eq!(number("PHASE-123.md"), Some(123));
    assert_eq!(number("PHASE-7.md"), None);
    assert_eq!(number("PHASE-007.md"), None);
    assert_eq!(number("PHASE-012.md"), None);
    assert_eq!(number("PHASE-07.txt"), None);
    assert_eq!(number("phase-07.md"), None);
    assert_eq!(number("PHASE-4294967295.md"), Some(u32::MAX));
    assert_eq!(number("PHASE-4294967296.md"), None);
}

#[test]
fn phase_entries_fault_what_they_reject() {
    let mut a = Audit::new("m".to_string());
    assert_eq!(phase_entry(&mut a, "/p/PHASE-01.md", true, Some("PHASE-01.md")), Some(1));
    assert!(a.faults.is_empty());
    assert_eq!(phase_entry(&mut a, "/p/d", false, Some("PHASE-02.md")), None);
    assert_eq!(phase_entry(&mut a, "/p/x", true, None), None);
    assert_eq!(phase_entry(&mut a, "/p/y", true, Some("PHASE-1.md")), None);
    let messages: Vec<&str> = a.faults.iter().map(|f| f.message.as_str()).collect();
    assert_eq!(
        messages,
        vec!["memory phase entry is not a regular file", "memory phase name is not UTF-8", "malformed memory phase name"]
    );
    assert!(a.faults.iter().all(|f| f.kind == "memory"));
}

#[test]
fn phases_must_be_contiguous() {
    let sorted = sort_phases(vec![(2, "c".to_string()), (0, "a".to_string()), (1, "b".to_string())]);
    assert_eq!(sorted.iter().map(|p| p.0).collect::<Vec<_>>(), vec![0, 1, 2]);
    let mut a = Audit::new("m".to_string());
    contiguity(&mut a, "/p", vec![(1, "/p/b".to_string()), (0, "/p/a".to_string())]);
    assert!(a.faults.is_empty() && a.observations.is_empty());
    contiguity(&mut a, "/p", vec![(0, "/p/a".to_string()), (2, "/p/c".to_string())]);
    assert_eq!(a.faults.len(), 1);
    assert_eq!(a.faults[0].path, "/p/c");
    assert_eq!(a.faults[0].message, "memory phases must be contiguous from 0; expected 1, found 2");
    let mut b = Audit::new("m".to_string());
    contiguity(&mut b, "/p", (0..16).map(|i| (i, format!("/p/{i}"))).collect());
    assert!(b.faults.is_empty());
    assert_eq!(b.observations.len(), 1);
    assert_eq!(b.observations[0].message, "16 phases retained; consider a smaller follow-up task or deliberate compaction");
}

#[test]
fn memory_limit() {
    let mut a = Audit::new("m".to_string());
    assert!(within_limit(&mut a, "/p", 10, 10, "memory"));
    assert!(!within_limit(&mut a, "/p", 11, 10, "memory"));
    assert_eq!(a.faults[0].message, "memory is 11 bytes; maximum is 10");
}

#[test]
fn fingerprint_of_nothing_is_the_empty_digest() {
    assert!(fingerprint_message(&[]).is_empty());
    assert_eq!(fingerprint(&[]), "e3b0c44298fc1c149afbf4c8996fb92427ae41e4649b934ca495991b7852b855");
}

#[test]
fn fingerprint_reads_each_field() {
    let e = evidence("a", "file", 1, Some(0o644), Some("d"));
    let mut want: Vec<u8> = b"a\0file\0".to_vec();
    want.extend_from_slice(&1u64.to_le_bytes());
    want.extend_from_slice(&0o644u32.to_le_bytes());
    want.extend_from_slice(b"d");
    want.push(0xff);
    assert_eq!(fingerprint_message(&[e.clone()]), want);
    let hex: String = sha2::Sha256::digest(&want).iter().map(|b| format!("{b:02x}")).collect();
    assert_eq!(fingerprint(&[e.clone()]), hex);
    let other = evidence("a", "file", 1, None, Some("d"));
    assert_ne!(fingerprint(&[other]), fingerprint(&[e]));
    assert_eq!(render_hex(&[0, 15, 16, 255]), "000f10ff");
}

#[test]
fn evidence_sorts_by_path_then_kind() {
    let v = vec![evidence("b", "file", 0, None, None), evidence("a", "link", 0, None, None), evidence("a", "dir", 0, None, None)];
    let s = sort_evidence(&v);
    let keys: Vec<(&str, &str)> = s.iter().map(|e| (e.path.as_str(), e.kind.as_str())).collect();
    assert_eq!(keys, vec![("a", "dir"), ("a", "link"), ("b", "file")]);
}

#[test]
fn migration_refusals() {
    assert!(exact("Task", 2, 2).is_ok());
    let e = exact("Task", 2, 3).unwrap_err();
    assert_eq!((code(&e), e.message.as_str()), ("concord.migration.mismatch", "Task count differs: expected 2, found 3"));
    assert!(expected("abc", &census("abc")).is_ok());
    assert_eq!(code(&expected("abd", &census("abc")).unwrap_err()), "concord.migration.expect");
    assert!(stage_files(&vec!["sudo".to_string(), "estate.sqlite3".to_string()]).is_ok());
    assert!(stage_files(&vec!["estate.sqlite3".to_string(), "sudo".to_string()]).is_ok());
    assert_eq!(code(&stage_files(&vec!["sudo".to_string()]).unwrap_err()), "concord.migration.stage");
    assert!(stage_files(&vec!["sudo".to_string(), "estate.sqlite3".to_string(), "x".to_string()]).is_err());
    assert!(registry_version("d", 3).is_ok());
    let e = registry_version("d", 2).unwrap_err();
    assert_eq!(e.message, "Domain d needs registry version 3 before estate migration");
    let members = vec!["api".to_string()];
    assert!(territory(&members, Some("api"), "/t/api").is_ok());
    assert!(territory(&members, Some(".task"), "/t/.task").is_ok());
    let e = territory(&members, Some("web"), "/t/web").unwrap_err();
    assert_eq!((code(&e), e.message.as_str()), ("concord.migration.territory", "unknown Task territory: /t/web"));
    assert!(territory(&members, None, "/t/?").is_err());
}

#[test]
fn text_helpers() {
    assert_eq!(trim("  a b \t"), "a b");
    assert_eq!(trim(""), "");
    assert!(same("x", "x") && !same("x", "y"));
    assert_eq!(render_mode(0o755), "0755");
    assert_eq!(render_mode(0o4755), "4755");
}

#[test]
fn numbers_are_written_in_decimal() {
    let e = concord::census::exact("Task", 0, 12345678901);
    assert_eq!(e.unwrap_err().message, "Task count differs: expected 0, found 12345678901");
    let e = concord::mutate::direct(&[], i64::MIN, -7).unwrap_err();
    assert_eq!(e.message, "dependency does not exist: -9223372036854775808 -> -7");
}
