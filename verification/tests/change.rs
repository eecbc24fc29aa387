use concord::change::{Edit, Entry, Fact, Part, Patch, Role, Settle};
use concord::phase::{active, audit, envelope, malformed, settled, shape, stale, validate as validate_settle};
use concord::prepare::{Prepared, build, finality, temporary, validate};
use concord::state::Life;

fn fact(key: Option<i64>, role: Role, rank: Option<i64>, body: &str) -> Fact {
    Fact { key, role, rank, title: None, body: body.to_string(), origin: None }
}

fn current() -> Vec<Fact> {
    vec![
        fact(Some(1), Role::Goal, None, "ship it"),
        fact(Some(2), Role::Constraint, Some(1), "no downtime"),
        fact(Some(3), Role::Constraint, Some(2), "keep api"),
        fact(Some(4), Role::Next, None, "write tests"),
    ]
}

fn code(e: &concord::error::Error) -> &str {
    e.code.as_deref().unwrap_or("")
}

#[test]
fn validate_checks_shape_in_order() {
    assert!(validate(&fact(None, Role::Goal, None, "x"), false).is_ok());
    let e = validate(&fact(Some(1), Role::Goal, None, "x"), false).unwrap_err();
    assert_eq!((code(&e), e.message.as_str()), ("concord.change.key", "create omits a key and set requires one"));
    let e = validate(&fact(None, Role::Goal, None, " \t\n"), false).unwrap_err();
    assert_eq!((code(&e), e.message.as_str()), ("concord.change.body", "fact body cannot be blank"));
    let e = validate(&fact(None, Role::Goal, Some(1), "x"), false).unwrap_err();
    assert_eq!(e.message, "singular facts omit rank and ordered facts require rank");
    let e = validate(&fact(None, Role::Decision, Some(0), "x"), false).unwrap_err();
    assert_eq!((code(&e), e.message.as_str()), ("concord.change.rank", "fact rank must be positive"));
    let mut addition = fact(None, Role::Addition, Some(1), "x");
    let e = validate(&addition, false).unwrap_err();
    assert_eq!((code(&e), e.message.as_str()), ("concord.change.origin", "Addition requires a nonblank origin"));
    addition.origin = Some("legacy".to_string());
    assert!(validate(&addition, false).is_ok());
    let mut titled = fact(None, Role::Focus, None, "x");
    titled.title = Some("t".to_string());
    let e = validate(&titled, false).unwrap_err();
    assert_eq!((code(&e), e.message.as_str()), ("concord.change.shape", "title and origin belong only to Addition"));
}

#[test]
fn build_sorts_edits_by_kind() {
    let edits = vec![
        Edit::Create { fact: fact(None, Role::Focus, None, "focus") },
        Edit::Revise { fact: fact(Some(2), Role::Constraint, Some(3), "no downtime ever") },
        Edit::End { role: Role::Next, key: 4 },
    ];
    let p = build(&current(), &edits).unwrap();
    assert_eq!(p.create, vec![fact(None, Role::Focus, None, "focus")]);
    assert_eq!(p.set, vec![fact(Some(2), Role::Constraint, Some(3), "no downtime ever")]);
    assert_eq!(p.end, vec![(Role::Next, 4)]);
}

#[test]
fn build_refuses_second_edit_of_a_fact() {
    let edits = vec![
        Edit::Revise { fact: fact(Some(2), Role::Constraint, Some(3), "a") },
        Edit::End { role: Role::Constraint, key: 2 },
    ];
    let e = build(&current(), &edits).unwrap_err();
    assert_eq!((code(&e), e.message.as_str()), ("concord.change.duplicate", "fact 2 is edited more than once"));
}

#[test]
fn build_refuses_absent_fact() {
    let e = build(&current(), &[Edit::End { role: Role::Goal, key: 9 }]).unwrap_err();
    assert_eq!((code(&e), e.message.as_str()), ("concord.change.absent", "fact 9 not found"));
    let e = build(&current(), &[Edit::Revise { fact: fact(Some(1), Role::Focus, None, "x") }]).unwrap_err();
    assert_eq!(e.message, "fact 1 not found");
}

#[test]
fn build_refuses_second_singular_fact() {
    let e = build(&current(), &[Edit::Create { fact: fact(None, Role::Goal, None, "other") }]).unwrap_err();
    assert_eq!((code(&e), e.message.as_str()), ("concord.change.cardinality", "Goal admits at most one fact"));
}

#[test]
fn build_refuses_repeated_rank() {
    let e = build(&current(), &[Edit::Create { fact: fact(None, Role::Constraint, Some(2), "dup") }]).unwrap_err();
    assert_eq!((code(&e), e.message.as_str()), ("concord.change.rank", "Constraint ranks must be unique"));
}

#[test]
fn build_accepts_swapping_ranks_through_sets() {
    let edits = vec![
        Edit::Revise { fact: fact(Some(2), Role::Constraint, Some(2), "no downtime") },
        Edit::Revise { fact: fact(Some(3), Role::Constraint, Some(1), "keep api") },
    ];
    assert!(build(&current(), &edits).is_ok());
}

#[test]
fn finality_passes_clean_facts() {
    assert!(finality(&current()).is_ok());
    let mut facts = current();
    facts.push(fact(Some(5), Role::Next, None, "again"));
    let e = finality(&facts).unwrap_err();
    assert_eq!(e.message, "Next admits at most one fact");
}

#[test]
fn temporary_ranks_start_above_every_rank() {
    let prepared = Prepared {
        create: vec![fact(None, Role::Decision, Some(5), "d")],
        set: vec![
            fact(Some(2), Role::Constraint, Some(1), "a"),
            fact(Some(1), Role::Goal, None, "g"),
            fact(Some(3), Role::Constraint, Some(2), "b"),
        ],
        end: vec![],
    };
    let ranks = temporary(&current(), &prepared).unwrap();
    assert_eq!(ranks, vec![((Role::Constraint, 2), 6), ((Role::Constraint, 3), 7)]);
}

#[test]
fn temporary_ranks_refuse_overflow() {
    let prepared = Prepared { create: vec![fact(None, Role::Decision, Some(i64::MAX), "d")], set: vec![fact(Some(2), Role::Constraint, Some(1), "a")], end: vec![] };
    let e = temporary(&current(), &prepared).unwrap_err();
    assert_eq!((code(&e), e.message.as_str()), ("concord.change.rank", "temporary rank exceeds integer range"));
    let empty = Prepared { create: vec![], set: vec![], end: vec![] };
    assert_eq!(temporary(&[], &empty).unwrap(), vec![]);
}

fn entry(part: Part, rank: Option<i64>, body: &str) -> Entry {
    Entry { key: None, part, rank, title: None, body: body.to_string(), origin: None }
}

#[test]
fn new_phase_needs_exactly_one_outcome() {
    assert!(audit(&[entry(Part::Outcome, None, "done"), entry(Part::Evidence, Some(1), "log")], true).is_ok());
    let e = audit(&[entry(Part::Evidence, Some(1), "log")], true).unwrap_err();
    assert_eq!((code(&e), e.message.as_str()), ("concord.phase.outcome", "new Phase requires exactly one Outcome"));
    let e = audit(&[entry(Part::Outcome, None, "a"), entry(Part::Outcome, None, "b")], true).unwrap_err();
    assert_eq!(e.message, "new Phase requires exactly one Outcome");
    assert!(audit(&[], false).is_ok());
    let mut kept = entry(Part::Outcome, None, "a");
    kept.key = Some(1);
    let mut other = kept.clone();
    other.key = Some(2);
    let e = audit(&[kept, other], false).unwrap_err();
    assert_eq!(e.message, "Phase admits at most one Outcome");
}

#[test]
fn phase_entries_keep_unique_ranks() {
    let e = audit(&[entry(Part::Outcome, None, "done"), entry(Part::Carry, Some(1), "a"), entry(Part::Carry, Some(1), "b")], true).unwrap_err();
    assert_eq!((code(&e), e.message.as_str()), ("concord.phase.rank", "Carry ranks must be unique"));
    assert!(audit(&[entry(Part::Outcome, None, "done"), entry(Part::Carry, Some(1), "a"), entry(Part::Evidence, Some(1), "b")], true).is_ok());
}

#[test]
fn phase_entry_shape_errors() {
    let e = shape(&entry(Part::Outcome, None, ""), true).unwrap_err();
    assert_eq!((code(&e), e.message.as_str()), ("concord.phase.body", "Phase entry body cannot be blank"));
    let e = shape(&entry(Part::Outcome, None, "x"), false).unwrap_err();
    assert_eq!(code(&e), "concord.phase.key");
    let e = shape(&entry(Part::Decision, None, "x"), true).unwrap_err();
    assert_eq!(e.message, "Outcome omits rank and ordered Phase entries require rank");
    let e = shape(&entry(Part::Addition, Some(1), "x"), true).unwrap_err();
    assert_eq!((code(&e), e.message.as_str()), ("concord.phase.origin", "Phase Addition requires a nonblank origin"));
}

#[test]
fn settle_and_patch_envelopes() {
    let settle = Settle { version: 2, task: "a/b".to_string(), revision: 0, phase: vec![], edits: vec![] };
    let e = validate_settle(&settle).unwrap_err();
    assert_eq!((code(&e), e.message.as_str()), ("concord.settle.version", "unsupported settle version 2"));
    let patch = Patch { version: 1, task: "a/b".to_string(), revision: 0, edits: vec![] };
    let e = envelope(&patch).unwrap_err();
    assert_eq!((code(&e), e.message.as_str()), ("concord.change.empty", "change-set needs at least one explicit edit"));
    let patch = Patch { version: 3, task: "a/b".to_string(), revision: 0, edits: vec![] };
    assert_eq!(envelope(&patch).unwrap_err().message, "unsupported change-set version 3");
}

#[test]
fn guards_on_life_and_revision() {
    assert!(active(Life::Active, "a/b").is_ok());
    let e = active(Life::Retired, "a/b").unwrap_err();
    assert_eq!((code(&e), e.message.as_str()), ("concord.task.retired", "retired Task is immutable: a/b"));
    let e = stale(4, 3).unwrap_err();
    assert_eq!((code(&e), e.message.as_str()), ("concord.task.stale", "Task revision changed: expected 3, found 4"));
    let e = settled(-1, 2).unwrap_err();
    assert_eq!((code(&e), e.message.as_str()), ("concord.graph.stale", "graph revision changed: expected 2, found -1"));
    assert!(stale(5, 5).is_ok());
    assert_eq!(malformed(12).message, "Phase 12 has malformed number");
}

#[test]
fn role_units_and_singular_roles() {
    assert_eq!(Role::Goal.unit(), "task:goal");
    assert!(Role::Goal.singular() && Role::Focus.singular() && Role::Next.singular());
    assert!(!Role::Decision.singular());
    assert_eq!(Part::Carry.unit(), "phase:carry");
    assert!(Part::Outcome.singular() && !Part::Evidence.singular());
}
