//! Task briefs: a bounded page of a Domain's active Tasks, each with a
//! bounded preview of the facts that orient work on it.
use crate::change::{Fact, Role};
use crate::error::Error;
use crate::prepare::{Fault, count, raises};
use crate::state::{Life, Node};
use crate::text::join;
use crate::world::{World, named};
use vstd::prelude::*;
use vstd::utf8::{encode_utf8, is_char_boundary};

verus! {

/// The most Tasks one page returns.
pub const TASK_BRIEF_LIMIT: usize = 64;

/// The most body bytes one role's preview returns.
pub const TASK_BRIEF_ROLE_BYTES: usize = 512;

/// A page of a Domain's Task brief.
#[derive(Clone, Debug)]
pub struct TaskBriefPage {
    pub schema: &'static str,
    pub domain: String,
    pub total: usize,
    pub returned: usize,
    pub after: Option<String>,
    pub next: Option<String>,
    pub limits: TaskBriefLimits,
    pub tasks: Vec<TaskBriefEntry>,
}

/// The limits a page was cut to.
#[derive(Clone, Debug)]
pub struct TaskBriefLimits {
    pub tasks: usize,
    pub role_bytes: usize,
    pub roles: Vec<&'static str>,
}

/// One Task of a page with the brief of each role it holds facts of, in
/// the order of the roles' names.
#[derive(Clone, Debug)]
pub struct TaskBriefEntry {
    pub identity: String,
    pub task: Node,
    pub roles: Vec<(&'static str, RoleBrief)>,
}

/// The facts of one role, cut to the role's byte budget.
#[derive(Clone, Debug)]
pub struct RoleBrief {
    pub total: usize,
    pub returned: usize,
    pub bytes: usize,
    pub truncated: bool,
    pub facts: Vec<FactBrief>,
}

/// One fact of a role brief.
#[derive(Clone, Debug)]
pub struct FactBrief {
    pub key: i64,
    pub rank: Option<i64>,
    pub body: TextPreview,
}

/// A text cut to a byte budget on a character boundary.
#[derive(Clone, Debug)]
pub struct TextPreview {
    pub text: String,
    pub bytes: usize,
    pub truncated: bool,
}

/// The number of UTF-8 bytes of a text.
pub open spec fn width(text: Seq<char>) -> int {
    encode_utf8(text).len() as int
}

/// The largest character boundary of `bytes` at or below `max`.
pub open spec fn cut_point(bytes: Seq<u8>, max: int) -> int
    decreases max,
{
    if max <= 0 {
        0
    } else if is_char_boundary(bytes, max) {
        max
    } else {
        cut_point(bytes, max - 1)
    }
}

/// The bytes that a preview of `text` within `max` bytes keeps.
pub open spec fn shown(text: Seq<char>, max: int) -> int {
    if width(text) <= max {
        width(text)
    } else {
        cut_point(encode_utf8(text), max)
    }
}

/// `p` previews `text` within `max` bytes: the whole text when it fits,
/// else its longest prefix of whole characters that fits.
pub open spec fn previews(p: TextPreview, text: Seq<char>, max: int) -> bool {
    &&& p.bytes == width(text)
    &&& p.truncated == (width(text) > max)
    &&& width(text) <= max ==> p.text@ == text
    &&& width(text) > max ==> encode_utf8(p.text@) == encode_utf8(text).subrange(0, cut_point(encode_utf8(text), max))
}

/// Cuts a text to at most `max` bytes, on a character boundary.
pub fn preview(text: &str, max: usize) -> (r: TextPreview)
    requires
        width(text@) <= usize::MAX,
    ensures
        previews(r, text@, max as int),
{
    proof {
        vstd::utf8::encode_utf8_valid_utf8(text@);
    }
    let bytes = text.len();
    assert(bytes == width(text@));
    if bytes <= max {
        let whole = String::from_str(text);
        assert(whole@ == text@);
        return TextPreview { text: whole, bytes, truncated: false };
    }
    let mut end = max;
    while end > 0 && !text.is_char_boundary(end)
        invariant
            end <= max,
            vstd::utf8::valid_utf8(encode_utf8(text@)),
            cut_point(encode_utf8(text@), max as int) == cut_point(encode_utf8(text@), end as int),
        decreases end,
    {
        end = end - 1;
    }
    let (head, _) = text.split_at(end);
    let kept = String::from_str(head);
    proof {
        assert(kept@ == head@);
        assert(encode_utf8(kept@) == encode_utf8(text@).subrange(0, end as int));
    }
    TextPreview { text: kept, bytes, truncated: true }
}

pub proof fn lemma_cut_bound(bytes: Seq<u8>, max: int)
    requires
        max >= 0,
    ensures
        0 <= cut_point(bytes, max) <= max,
    decreases max,
{
    if max > 0 && !is_char_boundary(bytes, max) {
        lemma_cut_bound(bytes, max - 1);
    }
}

pub proof fn lemma_shown_bound(text: Seq<char>, max: int)
    requires
        max >= 0,
    ensures
        0 <= shown(text, max) <= max,
        shown(text, max) <= width(text),
{
    if width(text) > max {
        lemma_cut_bound(encode_utf8(text), max);
    }
}

/// A fact of the given role.
pub open spec fn role_hit(role: Role) -> spec_fn(Fact) -> bool {
    |f: Fact| f.role == role
}

/// The facts of a role, in the given order.
pub open spec fn chosen(facts: Seq<Fact>, role: Role) -> Seq<Fact> {
    facts.filter(role_hit(role))
}

/// The body bytes of the facts, summed.
pub open spec fn body_total(s: Seq<Fact>) -> int
    decreases s.len(),
{
    if s.len() == 0 {
        0
    } else {
        body_total(s.drop_last()) + width(s.last().body@)
    }
}

/// The bytes that the previews of the first `n` facts use, each cut to what
/// the role's budget has left.
pub open spec fn spent(s: Seq<Fact>, n: int) -> int
    decreases n,
{
    if n <= 0 {
        0
    } else {
        spent(s, n - 1) + shown(s[n - 1].body@, TASK_BRIEF_ROLE_BYTES - spent(s, n - 1))
    }
}

pub proof fn lemma_spent_bound(s: Seq<Fact>, n: int)
    requires
        0 <= n <= s.len(),
    ensures
        0 <= spent(s, n) <= TASK_BRIEF_ROLE_BYTES,
    decreases n,
{
    if n > 0 {
        lemma_spent_bound(s, n - 1);
        lemma_shown_bound(s[n - 1].body@, TASK_BRIEF_ROLE_BYTES - spent(s, n - 1));
    }
}

proof fn lemma_total_grows(s: Seq<Fact>, k: int)
    requires
        0 <= k <= s.len(),
    ensures
        0 <= body_total(s.take(k)) <= body_total(s),
    decreases s.len() - k,
{
    if k == s.len() {
        assert(s.take(k) =~= s);
        lemma_total_nonneg(s);
    } else {
        lemma_total_grows(s.drop_last(), k);
        assert(s.drop_last().take(k) =~= s.take(k));
    }
}

proof fn lemma_total_nonneg(s: Seq<Fact>)
    ensures
        body_total(s) >= 0,
    decreases s.len(),
{
    if s.len() > 0 {
        lemma_total_nonneg(s.drop_last());
    }
}

/// `b` is the brief of `role` over `facts`: how many facts and body bytes
/// the role holds, and the facts in order, each body cut to what the
/// role's byte budget has left, stopping once the budget is spent.
pub open spec fn briefs(b: RoleBrief, facts: Seq<Fact>, role: Role) -> bool {
    let s = chosen(facts, role);
    &&& b.total == s.len()
    &&& b.bytes == body_total(s)
    &&& b.truncated == (body_total(s) > TASK_BRIEF_ROLE_BYTES)
    &&& b.returned == b.facts@.len()
    &&& b.facts@.len() <= s.len()
    &&& (b.facts@.len() == s.len() || spent(s, b.facts@.len() as int) >= TASK_BRIEF_ROLE_BYTES)
    &&& forall|k: int| 0 <= k < b.facts@.len() ==> {
        &&& spent(s, k) < TASK_BRIEF_ROLE_BYTES
        &&& (#[trigger] b.facts@[k]).key == s[k].key->0
        &&& b.facts@[k].rank == s[k].rank
        &&& previews(b.facts@[k].body, s[k].body@, TASK_BRIEF_ROLE_BYTES - spent(s, k))
    }
}

/// The facts of a role, copied in order.
fn select(facts: &[Fact], role: Role) -> (r: Vec<Fact>)
    ensures
        r@ == chosen(facts@, role),
{
    let ghost hit = role_hit(role);
    let mut out: Vec<Fact> = Vec::new();
    let mut i: usize = 0;
    while i < facts.len()
        invariant
            i <= facts@.len(),
            hit == role_hit(role),
            out@ == facts@.take(i as int).filter(hit),
        decreases facts@.len() - i,
    {
        proof {
            assert(facts@.take(i + 1) =~= facts@.take(i as int).push(facts@[i as int]));
            facts@.take(i as int).lemma_filter_push(facts@[i as int], hit);
        }
        if facts[i].role == role {
            out.push(facts[i].duplicate());
        }
        i = i + 1;
    }
    proof {
        assert(facts@.take(facts@.len() as int) =~= facts@);
    }
    out
}

/// The brief of one role, or nothing when the role holds no fact.
pub fn brief(facts: &[Fact], role: Role) -> (r: Option<RoleBrief>)
    requires
        body_total(chosen(facts@, role)) <= usize::MAX,
        forall|k: int| 0 <= k < chosen(facts@, role).len() ==> (#[trigger] chosen(facts@, role)[k]).key is Some,
    ensures
        match r {
            None => chosen(facts@, role).len() == 0,
            Some(b) => chosen(facts@, role).len() > 0 && briefs(b, facts@, role),
        },
{
    let sel = select(facts, role);
    if sel.len() == 0 {
        return None;
    }
    let ghost s = sel@;
    let mut bytes: usize = 0;
    let mut k: usize = 0;
    while k < sel.len()
        invariant
            k <= sel@.len(),
            s == sel@,
            body_total(s) <= usize::MAX,
            bytes == body_total(s.take(k as int)),
        decreases sel@.len() - k,
    {
        proof {
            let t = s.take(k + 1);
            assert(t.drop_last() =~= s.take(k as int));
            assert(t.last() == s[k as int]);
            lemma_total_grows(s, k + 1);
            lemma_total_grows(s, k as int);
        }
        let n = sel[k].body.as_str().len();
        bytes = bytes + n;
        k = k + 1;
    }
    proof {
        assert(s.take(s.len() as int) =~= s);
    }
    let mut remaining: usize = TASK_BRIEF_ROLE_BYTES;
    let mut projected: Vec<FactBrief> = Vec::new();
    let mut k: usize = 0;
    while k < sel.len() && remaining > 0
        invariant
            k <= sel@.len(),
            s == sel@,
            s == chosen(facts@, role),
            body_total(s) <= usize::MAX,
            forall|j: int| 0 <= j < s.len() ==> (#[trigger] s[j]).key is Some,
            projected@.len() == k,
            remaining == TASK_BRIEF_ROLE_BYTES - spent(s, k as int),
            forall|j: int| 0 <= j < k ==> {
                &&& spent(s, j) < TASK_BRIEF_ROLE_BYTES
                &&& (#[trigger] projected@[j]).key == s[j].key->0
                &&& projected@[j].rank == s[j].rank
                &&& previews(projected@[j].body, s[j].body@, TASK_BRIEF_ROLE_BYTES - spent(s, j))
            },
        decreases sel@.len() - k,
    {
        proof {
            lemma_spent_bound(s, k as int);
            lemma_total_grows(s, k + 1);
            let t = s.take(k + 1);
            assert(t.drop_last() =~= s.take(k as int));
            assert(t.last() == s[k as int]);
            lemma_total_grows(s, k as int);
            lemma_shown_bound(s[k as int].body@, remaining as int);
        }
        let fact = &sel[k];
        let body = preview(fact.body.as_str(), remaining);
        let used = body.text.as_str().len();
        proof {
            if width(fact.body@) > remaining {
                lemma_cut_bound(encode_utf8(fact.body@), remaining as int);
                assert(encode_utf8(body.text@).len() == cut_point(encode_utf8(fact.body@), remaining as int));
            }
            assert(used == shown(fact.body@, remaining as int));
        }
        remaining = remaining - used;
        let key = match fact.key {
            Some(key) => key,
            None => 0,
        };
        projected.push(FactBrief { key, rank: fact.rank, body });
        k = k + 1;
    }
    proof {
        lemma_spent_bound(s, k as int);
    }
    let total = sel.len();
    let returned = projected.len();
    Some(RoleBrief { total, returned, bytes, truncated: bytes > TASK_BRIEF_ROLE_BYTES, facts: projected })
}

/// The roles a brief covers, in the order of their names.
pub open spec fn brief_order() -> Seq<(Role, Seq<char>)> {
    seq![(Role::Focus, "focus"@), (Role::Goal, "goal"@), (Role::Next, "next"@), (Role::Question, "question"@)]
}

/// The covered roles that hold at least one fact.
pub open spec fn held_roles(facts: Seq<Fact>) -> Seq<(Role, Seq<char>)> {
    brief_order().filter(|p: (Role, Seq<char>)| chosen(facts, p.0).len() > 0)
}

/// Facts fit for a brief: each stored (it has a key), and each role's body
/// bytes countable in a `usize`.
pub open spec fn briefable(facts: Seq<Fact>) -> bool {
    &&& forall|k: int| 0 <= k < facts.len() ==> (#[trigger] facts[k]).key is Some
    &&& forall|role: Role| body_total(#[trigger] chosen(facts, role)) <= usize::MAX
}

proof fn lemma_chosen_keys(facts: Seq<Fact>, role: Role)
    requires
        forall|k: int| 0 <= k < facts.len() ==> (#[trigger] facts[k]).key is Some,
    ensures
        forall|k: int| 0 <= k < chosen(facts, role).len() ==> (#[trigger] chosen(facts, role)[k]).key is Some,
{
    assert forall|k: int| 0 <= k < chosen(facts, role).len() implies (#[trigger] chosen(facts, role)[k]).key is Some by {
        let x = chosen(facts, role)[k];
        assert(facts.filter(role_hit(role)).contains(x));
        facts.lemma_filter_contains_rev(role_hit(role), x);
        let i = choose|i: int| 0 <= i < facts.len() && facts[i] == x;
        assert(facts[i].key is Some);
    }
}

/// The brief of each covered role that holds facts, in the order of the
/// roles' names.
pub fn roles(facts: &[Fact]) -> (r: Vec<(&'static str, RoleBrief)>)
    requires
        briefable(facts@),
    ensures
        r@.len() == held_roles(facts@).len(),
        forall|k: int| 0 <= k < r@.len() ==> (#[trigger] r@[k]).0@ == held_roles(facts@)[k].1 && briefs(r@[k].1, facts@, held_roles(facts@)[k].0),
{
    let ghost keep = |p: (Role, Seq<char>)| chosen(facts@, p.0).len() > 0;
    let ghost order = brief_order();
    let mut out: Vec<(&'static str, RoleBrief)> = Vec::new();
    let mut i: usize = 0;
    proof {
        reveal_strlit("focus");
        reveal_strlit("goal");
        reveal_strlit("next");
        reveal_strlit("question");
    }
    while i < 4
        invariant
            i <= 4,
            order == brief_order(),
            keep == (|p: (Role, Seq<char>)| chosen(facts@, p.0).len() > 0),
            briefable(facts@),
            out@.len() == order.take(i as int).filter(keep).len(),
            forall|k: int| 0 <= k < out@.len() ==> (#[trigger] out@[k]).0@ == order.take(i as int).filter(keep)[k].1 && briefs(out@[k].1, facts@, order.take(i as int).filter(keep)[k].0),
        decreases 4 - i,
    {
        let (role, name): (Role, &'static str) = if i == 0 {
            (Role::Focus, "focus")
        } else if i == 1 {
            (Role::Goal, "goal")
        } else if i == 2 {
            (Role::Next, "next")
        } else {
            (Role::Question, "question")
        };
        proof {
            reveal_strlit("focus");
            reveal_strlit("goal");
            reveal_strlit("next");
            reveal_strlit("question");
            assert(order[i as int] == (role, name@));
            assert(order.take(i + 1) =~= order.take(i as int).push(order[i as int]));
            order.take(i as int).lemma_filter_push(order[i as int], keep);
            lemma_chosen_keys(facts@, role);
        }
        match brief(facts, role) {
            Some(b) => {
                out.push((name, b));
            },
            None => {},
        }
        i = i + 1;
    }
    proof {
        assert(order.take(4) =~= order);
    }
    out
}

/// An active Task of the given Domain.
pub open spec fn live_in(domain: Seq<char>) -> spec_fn(Node) -> bool {
    |n: Node| n.domain@ == domain && n.life == Life::Active
}

/// The active Tasks of a Domain, in the world's order.
pub fn active(world: &World, domain: &str) -> (r: Vec<Node>)
    ensures
        r@ == world.nodes@.filter(live_in(domain@)),
{
    let nodes = &world.nodes;
    let ghost hit = live_in(domain@);
    let mut out: Vec<Node> = Vec::new();
    let mut i: usize = 0;
    while i < nodes.len()
        invariant
            i <= nodes@.len(),
            nodes@ == world.nodes@,
            hit == live_in(domain@),
            out@ == nodes@.take(i as int).filter(hit),
        decreases nodes@.len() - i,
    {
        proof {
            assert(nodes@.take(i + 1) =~= nodes@.take(i as int).push(nodes@[i as int]));
            nodes@.take(i as int).lemma_filter_push(nodes@[i as int], hit);
        }
        if crate::text::same(nodes[i].domain.as_str(), domain) && nodes[i].life == Life::Active {
            out.push(nodes[i].duplicate());
        }
        i = i + 1;
    }
    proof {
        assert(nodes@.take(nodes@.len() as int) =~= nodes@);
    }
    out
}

/// The first index at or after `i` of a Task with the given name.
pub open spec fn first_named(tasks: Seq<Node>, name: Seq<char>, i: int) -> Option<int>
    decreases tasks.len() - i,
{
    if i < 0 || i >= tasks.len() {
        None
    } else if tasks[i].name@ == name {
        Some(i)
    } else {
        first_named(tasks, name, i + 1)
    }
}

pub open spec fn cursor_fault(domain: Seq<char>, after: Seq<char>) -> Fault {
    ("concord.task.brief_cursor"@, "Task brief cursor does not exist in Domain "@ + domain + ": "@ + after)
}

/// Where a page starts: after the first Task named by the cursor, or at the
/// beginning without one.
pub fn cursor(tasks: &[Node], after: Option<&str>, domain: &str) -> (r: Result<usize, Error>)
    ensures
        match after {
            None => r == Ok::<usize, Error>(0),
            Some(a) => match first_named(tasks@, a@, 0) {
                Some(p) => p < tasks@.len() && (r matches Ok(v) && v == p + 1),
                None => r matches Err(e) && raises(e, cursor_fault(domain@, a@)),
            },
        },
        r matches Ok(p) ==> p <= tasks@.len(),
{
    let a = match after {
        None => {
            return Ok(0);
        },
        Some(a) => a,
    };
    let mut i: usize = 0;
    while i < tasks.len()
        invariant
            i <= tasks@.len(),
            after == Some(a),
            first_named(tasks@, a@, 0) == first_named(tasks@, a@, i as int),
        decreases tasks@.len() - i,
    {
        if crate::text::same(tasks[i].name.as_str(), a) {
            return Ok(i + 1);
        }
        i = i + 1;
    }
    let m = join("Task brief cursor does not exist in Domain ", domain);
    let m = join(m.as_str(), ": ");
    Err(Error::typed("concord.task.brief_cursor", join(m.as_str(), a)))
}

/// The Tasks of a page from `start`, at most the page limit, and the name
/// of the page's last Task when more follow.
pub fn window(tasks: &[Node], start: usize) -> (r: (Vec<Node>, Option<String>))
    requires
        start <= tasks@.len(),
    ensures
        r.0@ == tasks@.subrange(start as int, if tasks@.len() - start > TASK_BRIEF_LIMIT { start + TASK_BRIEF_LIMIT } else { tasks@.len() as int }),
        (r.1 is Some) == (tasks@.len() - start > TASK_BRIEF_LIMIT),
        r.1 matches Some(n) ==> n == tasks@[start + TASK_BRIEF_LIMIT - 1].name,
{
    let end: usize = if tasks.len() - start > TASK_BRIEF_LIMIT { start + TASK_BRIEF_LIMIT } else { tasks.len() };
    let mut out: Vec<Node> = Vec::new();
    let mut i: usize = start;
    while i < end
        invariant
            start <= i <= end <= tasks@.len(),
            out@ == tasks@.subrange(start as int, i as int),
        decreases end - i,
    {
        out.push(tasks[i].duplicate());
        proof {
            assert(tasks@.subrange(start as int, i + 1) =~= tasks@.subrange(start as int, i as int).push(tasks@[i as int]));
        }
        i = i + 1;
    }
    let next = if tasks.len() - start > TASK_BRIEF_LIMIT {
        Some(tasks[start + TASK_BRIEF_LIMIT - 1].name.clone())
    } else {
        None
    };
    (out, next)
}

/// A Task of the given key.
pub open spec fn key_hit(key: i64) -> spec_fn(Node) -> bool {
    |n: Node| n.key == key
}

/// Nothing changed while a page was read: the same Tasks by key, Domain and
/// name in the same order, and each briefed Task's first namesake by key
/// still at the revision it was briefed at.
pub open spec fn steady(before: Seq<Node>, after: Seq<Node>, entries: Seq<TaskBriefEntry>) -> bool {
    &&& before.len() == after.len()
    &&& forall|i: int| 0 <= i < before.len() ==> (#[trigger] before[i]).key == after[i].key && before[i].domain@ == after[i].domain@ && before[i].name@ == after[i].name@
    &&& forall|j: int| 0 <= j < entries.len() ==> {
        let hits = after.filter(key_hit((#[trigger] entries[j]).task.key));
        hits.len() > 0 && hits[0].revision == entries[j].task.revision
    }
}

/// The revision of the first Task of the given key, if any.
fn revision_of(tasks: &[Node], key: i64) -> (r: Option<i64>)
    ensures
        match r {
            Some(v) => tasks@.filter(key_hit(key)).len() > 0 && tasks@.filter(key_hit(key))[0].revision == v,
            None => tasks@.filter(key_hit(key)).len() == 0,
        },
{
    let ghost hit = key_hit(key);
    let mut i: usize = 0;
    while i < tasks.len()
        invariant
            i <= tasks@.len(),
            hit == key_hit(key),
            tasks@.take(i as int).filter(hit).len() == 0,
        decreases tasks@.len() - i,
    {
        proof {
            assert(tasks@.take(i + 1) =~= tasks@.take(i as int).push(tasks@[i as int]));
            tasks@.take(i as int).lemma_filter_push(tasks@[i as int], hit);
        }
        if tasks[i].key == key {
            proof {
                crate::world::lemma_filter_first(tasks@, hit, i as int);
            }
            return Some(tasks[i].revision);
        }
        i = i + 1;
    }
    proof {
        assert(tasks@.take(tasks@.len() as int) =~= tasks@);
    }
    None
}

/// Whether a page's Tasks held still while it was read.
pub fn stable(before: &[Node], after: &[Node], entries: &[TaskBriefEntry]) -> (r: bool)
    ensures
        r == steady(before@, after@, entries@),
{
    if before.len() != after.len() {
        return false;
    }
    let mut i: usize = 0;
    while i < before.len()
        invariant
            i <= before@.len(),
            before@.len() == after@.len(),
            forall|j: int| 0 <= j < i ==> (#[trigger] before@[j]).key == after@[j].key && before@[j].domain@ == after@[j].domain@ && before@[j].name@ == after@[j].name@,
        decreases before@.len() - i,
    {
        if before[i].key != after[i].key || !crate::text::same(before[i].domain.as_str(), after[i].domain.as_str()) || !crate::text::same(before[i].name.as_str(), after[i].name.as_str()) {
            return false;
        }
        i = i + 1;
    }
    let mut j: usize = 0;
    while j < entries.len()
        invariant
            j <= entries@.len(),
            forall|k: int| 0 <= k < j ==> {
                let hits = after@.filter(key_hit((#[trigger] entries@[k]).task.key));
                hits.len() > 0 && hits[0].revision == entries@[k].task.revision
            },
        decreases entries@.len() - j,
    {
        match revision_of(after, entries[j].task.key) {
            Some(v) => {
                if v != entries[j].task.revision {
                    return false;
                }
            },
            None => {
                return false;
            },
        }
        j = j + 1;
    }
    true
}

/// What a brief decides before it reads any fact: the Domain's active
/// Tasks, where the page starts, the Tasks it covers and the cursor of the
/// next page.
#[derive(Clone, Debug)]
pub struct BriefPlan {
    pub tasks: Vec<Node>,
    pub start: usize,
    pub selected: Vec<Node>,
    pub next: Option<String>,
}

/// Where a page starts, or nothing when the cursor names no Task.
pub open spec fn start_of(tasks: Seq<Node>, after: Option<Seq<char>>) -> Option<int> {
    match after {
        None => Some(0),
        Some(a) => match first_named(tasks, a, 0) {
            Some(p) => Some(p + 1),
            None => None,
        },
    }
}

pub open spec fn unknown_domain(domain: Seq<char>) -> Fault {
    ("concord.domain.absent"@, "unknown managed domain "@ + domain)
}

/// The view of an optional text.
pub open spec fn seen(after: Option<&str>) -> Option<Seq<char>> {
    match after {
        None => None,
        Some(a) => Some(a@),
    }
}

/// Plans a page of a Domain's Task brief over the world as read.
pub fn brief_plan(world: &World, domain: &str, after: Option<&str>) -> (r: Result<BriefPlan, Error>)
    ensures
        named(world.domains@, domain@) is None ==> (r matches Err(e) && raises(e, unknown_domain(domain@))),
        named(world.domains@, domain@) is Some && start_of(world.nodes@.filter(live_in(domain@)), seen(after)) is None ==> (r matches Err(e) && raises(e, cursor_fault(domain@, seen(after)->0))),
        named(world.domains@, domain@) is Some ==> (start_of(world.nodes@.filter(live_in(domain@)), seen(after)) matches Some(start) ==> (r matches Ok(p) && {
            let tasks = world.nodes@.filter(live_in(domain@));
            &&& p.tasks@ == tasks
            &&& p.start == start
            &&& p.selected@ == tasks.subrange(start, if tasks.len() - start > TASK_BRIEF_LIMIT { start + TASK_BRIEF_LIMIT } else { tasks.len() as int })
            &&& (p.next is Some) == (tasks.len() - start > TASK_BRIEF_LIMIT)
            &&& p.next matches Some(n) ==> n == tasks[start + TASK_BRIEF_LIMIT - 1].name
        })),
{
    if world.domain(domain).is_none() {
        return Err(Error::typed("concord.domain.absent", join("unknown managed domain ", domain)));
    }
    let tasks = active(world, domain);
    let start = match cursor(tasks.as_slice(), after, domain) {
        Err(e) => {
            return Err(e);
        },
        Ok(s) => s,
    };
    let (selected, next) = window(tasks.as_slice(), start);
    proof {
        let t = world.nodes@.filter(live_in(domain@));
        assert(tasks@ == t);
        match after {
            None => {},
            Some(a) => {
                assert(seen(after) == Some(a@));
                assert(first_named(t, a@, 0) is Some);
            },
        }
        assert(start_of(t, seen(after)) == Some(start as int));
    }
    Ok(BriefPlan { tasks, start, selected, next })
}

/// The brief of one Task from its facts.
pub fn entry(task: Node, facts: &[Fact]) -> (r: TaskBriefEntry)
    requires
        briefable(facts@),
    ensures
        r.identity@ == task.ident(),
        r.task == task,
        r.roles@.len() == held_roles(facts@).len(),
        forall|k: int| 0 <= k < r.roles@.len() ==> (#[trigger] r.roles@[k]).0@ == held_roles(facts@)[k].1 && briefs(r.roles@[k].1, facts@, held_roles(facts@)[k].0),
{
    let identity = task.identity();
    let roles = roles(facts);
    TaskBriefEntry { identity, task, roles }
}

/// The limits every page is cut to.
pub fn limits() -> (r: TaskBriefLimits)
    ensures
        r.tasks == TASK_BRIEF_LIMIT,
        r.role_bytes == TASK_BRIEF_ROLE_BYTES,
        r.roles@.len() == 4,
        r.roles@[0]@ == "goal"@,
        r.roles@[1]@ == "focus"@,
        r.roles@[2]@ == "question"@,
        r.roles@[3]@ == "next"@,
{
    let mut roles: Vec<&'static str> = Vec::new();
    roles.push("goal");
    roles.push("focus");
    roles.push("question");
    roles.push("next");
    TaskBriefLimits { tasks: TASK_BRIEF_LIMIT, role_bytes: TASK_BRIEF_ROLE_BYTES, roles }
}

pub open spec fn unsteady(domain: Seq<char>) -> Fault {
    ("concord.task.brief_stale"@, "Task brief changed while reading Domain "@ + domain)
}

/// Completes a page once its Tasks' facts are read, refusing it when the
/// Domain's active Tasks changed meanwhile.
pub fn brief_page(domain: &str, after: Option<&str>, plan: BriefPlan, entries: Vec<TaskBriefEntry>, current: &World) -> (r: Result<TaskBriefPage, Error>)
    ensures
        steady(plan.tasks@, current.nodes@.filter(live_in(domain@)), entries@) ==> (r matches Ok(page) && {
            &&& page.schema@ == "concord.task-brief:v1"@
            &&& page.domain@ == domain@
            &&& page.total == plan.tasks@.len()
            &&& page.returned == entries@.len()
            &&& page.after.is_some() == after.is_some()
            &&& page.after matches Some(a) ==> a@ == seen(after)->0
            &&& page.next == plan.next
            &&& page.limits.tasks == TASK_BRIEF_LIMIT
            &&& page.limits.role_bytes == TASK_BRIEF_ROLE_BYTES
            &&& page.tasks@ == entries@
        }),
        !steady(plan.tasks@, current.nodes@.filter(live_in(domain@)), entries@) ==> (r matches Err(e) && raises(e, unsteady(domain@))),
{
    let now = active(current, domain);
    if !stable(plan.tasks.as_slice(), now.as_slice(), entries.as_slice()) {
        return Err(Error::typed("concord.task.brief_stale", join("Task brief changed while reading Domain ", domain)));
    }
    let after = match after {
        None => None,
        Some(a) => Some(String::from_str(a)),
    };
    let total = plan.tasks.len();
    let returned = entries.len();
    proof {
        reveal_strlit("concord.task-brief:v1");
    }
    Ok(TaskBriefPage {
        schema: "concord.task-brief:v1",
        domain: String::from_str(domain),
        total,
        returned,
        after,
        next: plan.next,
        limits: limits(),
        tasks: entries,
    })
}

} // verus!
