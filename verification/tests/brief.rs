use concord::brief::{brief, brief_page, brief_plan, cursor, entry, preview, roles, window, TASK_BRIEF_LIMIT};
use concord::change::{Fact, Role};
use concord::state::{Life, Node};
use concord::world::{DomainRow, SpaceRow, TaskRow, World};

fn fact(key: i64, role: Role, rank: Option<i64>, body: &str) -> Fact {
    Fact { key: Some(key), role, rank, title: None, body: body.to_string(), origin: None }
}

#[test]
fn preview_cuts_on_a_character_boundary() {
    let p = preview("hello", 10);
    assert_eq!((p.text.as_str(), p.bytes, p.truncated), ("hello", 5, false));
    let p = preview("hello", 3);
    assert_eq!((p.text.as_str(), p.bytes, p.truncated), ("hel", 5, true));
    let p = preview("héllo", 2);
    assert_eq!((p.text.as_str(), p.bytes, p.truncated), ("h", 6, true));
    let p = preview("é", 1);
    assert_eq!((p.text.as_str(), p.truncated), ("", true));
}

#[test]
fn brief_spends_the_role_budget_in_order() {
    let long = "x".repeat(500);
    let facts = vec![fact(1, Role::Question, Some(1), &long), fact(2, Role::Question, Some(2), "0123456789abcdefghij"), fact(3, Role::Question, Some(3), "more"), fact(4, Role::Goal, None, "g")];
    let b = brief(&facts, Role::Question).unwrap();
    assert_eq!((b.total, b.returned, b.bytes, b.truncated), (3, 2, 524, true));
    assert_eq!(b.facts[0].body.text.len(), 500);
    assert_eq!(b.facts[1].body.text, "0123456789ab");
    assert!(b.facts[1].body.truncated);
    assert_eq!(b.facts[1].key, 2);
    assert!(brief(&facts, Role::Focus).is_none());
}

#[test]
fn roles_lists_held_roles_by_name() {
    let facts = vec![fact(1, Role::Question, Some(1), "q"), fact(2, Role::Goal, None, "g"), fact(3, Role::Decision, Some(1), "d")];
    let r = roles(&facts);
    assert_eq!(r.iter().map(|(n, _)| *n).collect::<Vec<_>>(), vec!["goal", "question"]);
    assert_eq!(r[0].1.facts[0].body.text, "g");
}

fn node(key: i64, name: &str) -> Node {
    Node { key, domain: "alpha".to_string(), name: name.to_string(), life: Life::Active, revision: 0 }
}

#[test]
fn cursor_starts_after_the_named_task() {
    let tasks = vec![node(1, "a"), node(2, "b"), node(3, "c")];
    assert_eq!(cursor(&tasks, None, "alpha").unwrap(), 0);
    assert_eq!(cursor(&tasks, Some("b"), "alpha").unwrap(), 2);
    let e = cursor(&tasks, Some("z"), "alpha").unwrap_err();
    assert_eq!((e.code.as_deref(), e.message.as_str()), (Some("concord.task.brief_cursor"), "Task brief cursor does not exist in Domain alpha: z"));
}

#[test]
fn window_cuts_pages_at_the_limit() {
    let tasks: Vec<Node> = (0..70).map(|i| node(i, &format!("t{i:02}"))).collect();
    let (page, next) = window(&tasks, 0);
    assert_eq!(page.len(), TASK_BRIEF_LIMIT);
    assert_eq!(next.as_deref(), Some("t63"));
    let (page, next) = window(&tasks, 64);
    assert_eq!(page.len(), 6);
    assert_eq!(next, None);
}

fn world(names: &[(i64, &str, &str)]) -> World {
    let tasks: Vec<TaskRow> = names
        .iter()
        .map(|(k, n, s)| TaskRow { key: *k, domain: Some(10), name: Some(n.to_string()), state: Some(s.to_string()), revision: Some(0) })
        .collect();
    World::read(&[SpaceRow { key: 1, revision: Some(0) }], &[DomainRow { key: 10, space: Some(1), name: Some("alpha".to_string()), revision: Some(0) }], &tasks).unwrap()
}

#[test]
fn a_page_covers_active_tasks_and_holds_still() {
    let w = world(&[(1, "a", "active"), (2, "b", "retired"), (3, "c", "active")]);
    let plan = brief_plan(&w, "alpha", None).unwrap();
    assert_eq!(plan.tasks.iter().map(|t| t.key).collect::<Vec<_>>(), vec![1, 3]);
    let entries = plan.selected.iter().map(|t| entry(t.clone(), &[fact(9, Role::Goal, None, "g")])).collect::<Vec<_>>();
    assert_eq!(entries[0].identity, "alpha/a");
    let page = brief_page("alpha", None, plan, entries, &w).unwrap();
    assert_eq!((page.schema, page.total, page.returned), ("concord.task-brief:v1", 2, 2));
    assert_eq!(page.limits.roles, vec!["goal", "focus", "question", "next"]);
    let e = brief_plan(&w, "beta", None).unwrap_err();
    assert_eq!((e.code.as_deref(), e.message.as_str()), (Some("concord.domain.absent"), "unknown managed domain beta"));
}

#[test]
fn a_page_refuses_a_domain_that_changed() {
    let before = world(&[(1, "a", "active")]);
    let after = world(&[(1, "a", "active"), (2, "b", "active")]);
    let plan = brief_plan(&before, "alpha", None).unwrap();
    let e = brief_page("alpha", None, plan, vec![], &after).unwrap_err();
    assert_eq!((e.code.as_deref(), e.message.as_str()), (Some("concord.task.brief_stale"), "Task brief changed while reading Domain alpha"));
}
