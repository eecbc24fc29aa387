//! The laws the library keeps across its functions, each proved over the
//! specifications that the functions' contracts use.
use crate::audit::{Fault, gating, hygiene};
use crate::change::{Entry, Fact, Part, Role};
use crate::import::reserve_of;
use crate::phase::{entry_fault, outcomes, phase_fault, walk_fault};
use crate::preflight::{Preflight, cleared, lacks_proof, unproved_count};
use crate::prepare::{clash, count, finality_fault, role_fault};
use crate::resource::{MINIMUM_RESERVE, Status, usage, worse};
use crate::state::{Life, Origin, Weight};
use crate::text::blank;
use crate::brief::{TASK_BRIEF_ROLE_BYTES, briefs, chosen, cut_point, previews, shown, spent, width};
use crate::prepare::{Prepared, bump, climb, floor_rank};
use crate::memory::{pad2, phase_name, value};
use crate::mutate::{FinishPlan, finish_outcome, link_outcome};
use crate::state::{Finish, Link};
use crate::world::World;
use crate::journal::{Journal, Undo, undoing};
use crate::activate::census_same;
use crate::additions::{Held, held_less, in_order, slot, wanted};
use crate::census::Census;
use crate::member::{Finding, LandProbe, land_run, land_step};
use crate::audit::Audit;
use crate::agreement::{all_edge_faults, endpoint_of, Said};
use crate::coordinate::moving_task;
use crate::state::{Edge, Node};
use crate::world::lookup;
use crate::text::decimal;
use vstd::utf8::encode_utf8;
use vstd::prelude::*;

verus! {

/// Every weight's name reads back as that weight.
pub proof fn law_weight_names(w: Weight)
    ensures
        Weight::from_text(w.text()) == Some(w),
{
    reveal_strlit("unknown");
    reveal_strlit("context");
    reveal_strlit("sequence");
    reveal_strlit("required");
    assert("context"@[0] != "unknown"@[0]);
    assert("sequence"@[0] != "unknown"@[0] && "sequence"@[0] != "context"@[0]);
    assert("required"@[0] != "unknown"@[0] && "required"@[0] != "context"@[0] && "required"@[0] != "sequence"@[0]);
}

/// Every origin's name reads back as that origin.
pub proof fn law_origin_names(o: Origin)
    ensures
        Origin::from_text(o.text()) == Some(o),
{
    reveal_strlit("declared");
    reveal_strlit("legacy-todo");
    assert("legacy-todo"@[0] != "declared"@[0]);
}

/// Every life's name reads back as that life.
pub proof fn law_life_names(l: Life)
    ensures
        Life::from_text(l.text()) == Some(l),
{
    reveal_strlit("active");
    reveal_strlit("retired");
    assert("retired"@[0] != "active"@[0]);
}

/// Weights are totally ordered: unknown < context < sequence < required,
/// and two weights of the same level are the same weight.
pub proof fn law_weight_order(a: Weight, b: Weight)
    ensures
        Weight::Unknown.level() < Weight::Context.level(),
        Weight::Context.level() < Weight::Sequence.level(),
        Weight::Sequence.level() < Weight::Required.level(),
        a.level() == b.level() ==> a == b,
{
}

/// The worse of two statuses does not depend on their order, and taking it
/// again changes nothing.
pub proof fn law_worst_commutes(a: Status, b: Status, c: Status)
    ensures
        worse(a, b) == worse(b, a),
        worse(worse(a, b), c) == worse(a, worse(b, c)),
        worse(a, a) == a,
        worse(Status::Okay, a) == a,
        worse(a, b).severity() >= a.severity(),
        worse(a, b).severity() >= b.severity(),
{
}

/// A usage share never exceeds 100%, and more free space never raises it.
pub proof fn law_usage_bounded(total: u64, available: u64, more: u64)
    requires
        available <= more,
    ensures
        0 <= usage(total, available) <= 100,
        usage(total, more) <= usage(total, available),
{
    if total > 0 {
        let used: int = if available >= total { 0 } else { total - available };
        let scaled: int = if used * 100 > u64::MAX { u64::MAX as int } else { used * 100 };
        assert(used <= total);
        assert(scaled <= total * 100) by (nonlinear_arith)
            requires
                used <= total,
                scaled <= used * 100,
                0 <= used,
        {
        }
        assert(scaled / (total as int) <= 100) by (nonlinear_arith)
            requires
                scaled <= total * 100,
                total > 0,
                scaled >= 0,
        {
        }
        let used2: int = if more >= total { 0 } else { total - more };
        let scaled2: int = if used2 * 100 > u64::MAX { u64::MAX as int } else { used2 * 100 };
        assert(used2 <= used);
        assert(scaled2 <= scaled);
        assert(scaled2 / (total as int) <= scaled / (total as int)) by (nonlinear_arith)
            requires
                scaled2 <= scaled,
                total > 0,
                scaled2 >= 0,
        {
        }
    }
}

/// The reserve an import must leave is at least one GiB and at least a
/// quarter of the filesystem.
pub proof fn law_reserve(total: u64)
    ensures
        reserve_of(total) >= MINIMUM_RESERVE,
        reserve_of(total) >= total / 4,
{
}

/// A landing preflight clears exactly when nothing faulted and every member
/// has a proof; so a cleared preflight leaves no member unproved.
pub proof fn law_preflight_cleared(p: Preflight)
    ensures
        cleared(p) <==> (p.faults@.len() == 0 && unproved_count(p.members@) == 0),
{
    let ms = p.members@;
    if forall|i: int| 0 <= i < ms.len() ==> (#[trigger] ms[i]).proof is Some {
        if ms.filter(lacks_proof()).len() > 0 {
            let x = ms.filter(lacks_proof())[0];
            ms.lemma_filter_pred(lacks_proof(), 0);
            assert(ms.filter(lacks_proof()).contains(x));
            ms.lemma_filter_contains_rev(lacks_proof(), x);
        }
    }
    if ms.filter(lacks_proof()).len() == 0 {
        assert forall|i: int| 0 <= i < ms.len() implies (#[trigger] ms[i]).proof is Some by {
            if ms[i].proof is None {
                ms.lemma_filter_contains(lacks_proof(), i);
            }
        }
    }
}

/// An audit without faults agrees.
pub proof fn law_ok_agrees(faults: Seq<Fault>)
    ensures
        faults.len() == 0 ==> !gating(faults),
{
}

/// Facts that pass the role rules hold at most one fact of each singular
/// role and no two facts of an ordered role with the same rank.
pub proof fn law_final_facts(facts: Seq<Fact>, role: Role)
    requires
        finality_fault(facts, 0) is None,
    ensures
        role.is_singular() ==> count(facts, role) <= 1,
        !role.is_singular() ==> !clash(facts, role),
{
    let k: int = match role {
        Role::Goal => 0,
        Role::Constraint => 1,
        Role::Decision => 2,
        Role::Focus => 3,
        Role::Question => 4,
        Role::Next => 5,
        Role::Addition => 6,
    };
    lemma_finality_covers(facts, 0, k);
    assert(Role::nth(k) == role);
}

proof fn lemma_finality_covers(facts: Seq<Fact>, i: int, k: int)
    requires
        0 <= i <= k < 7,
        finality_fault(facts, i) is None,
    ensures
        role_fault(facts, Role::nth(k)) is None,
    decreases k - i,
{
    if i < k {
        lemma_finality_covers(facts, i + 1, k);
    }
}

/// Entries that pass the rules of a new Phase hold exactly one Outcome,
/// every entry carries a nonblank body, and none carries a key.
pub proof fn law_new_phase(entries: Seq<Entry>, i: int)
    requires
        phase_fault(entries, true) is None,
        0 <= i < entries.len(),
    ensures
        outcomes(entries) == 1,
        !blank(entries[i].body@),
        entries[i].key is None,
{
    lemma_walk_covers(entries, 0, i);
}

proof fn lemma_walk_covers(entries: Seq<Entry>, j: int, i: int)
    requires
        0 <= j <= i < entries.len(),
        walk_fault(entries, true, j) is None,
    ensures
        entry_fault(entries[i], true) is None,
    decreases i - j,
{
    if j < i {
        lemma_walk_covers(entries, j + 1, i);
    }
}

/// A preview never holds more bytes than its budget.
pub proof fn law_preview_budget(p: crate::brief::TextPreview, text: Seq<char>, max: int)
    requires
        previews(p, text, max),
        max >= 0,
    ensures
        width(p.text@) <= max,
        width(p.text@) <= width(text),
{
    if width(text) > max {
        crate::brief::lemma_cut_bound(encode_utf8(text), max);
    }
}

/// A role's brief spends at most the role's byte budget, each fact's
/// preview within what the budget had left.
pub proof fn law_brief_budget(b: crate::brief::RoleBrief, facts: Seq<Fact>, role: Role, k: int)
    requires
        briefs(b, facts, role),
        0 <= k < b.facts@.len(),
    ensures
        spent(chosen(facts, role), b.facts@.len() as int) <= TASK_BRIEF_ROLE_BYTES,
        width(b.facts@[k].body.text@) <= TASK_BRIEF_ROLE_BYTES - spent(chosen(facts, role), k),
{
    let s = chosen(facts, role);
    crate::brief::lemma_spent_bound(s, b.facts@.len() as int);
    crate::brief::lemma_spent_bound(s, k);
    law_preview_budget(b.facts@[k].body, s[k].body@, TASK_BRIEF_ROLE_BYTES - spent(s, k));
}

proof fn lemma_climb_above(top: Option<i64>, facts: Seq<Fact>)
    ensures
        top matches Some(t) ==> (climb(top, facts) matches Some(c) && c >= t),
        forall|i: int| 0 <= i < facts.len() && (#[trigger] facts[i]).rank is Some ==> (climb(top, facts) matches Some(c) && c >= facts[i].rank->0),
    decreases facts.len(),
{
    if facts.len() > 0 {
        let next = bump(top, facts[0].rank);
        lemma_climb_above(next, facts.drop_first());
        assert forall|i: int| 0 <= i < facts.len() && (#[trigger] facts[i]).rank is Some implies (climb(top, facts) matches Some(c) && c >= facts[i].rank->0) by {
            if i > 0 {
                assert(facts.drop_first()[i - 1] == facts[i]);
            }
        }
    }
}

/// The temporary ranks of a change-set start above every rank held,
/// created or set, so they never collide with one.
pub proof fn law_temporary_above(current: Seq<Fact>, prepared: Prepared, f: Fact)
    requires
        f.rank is Some,
        current.contains(f) || prepared.create@.contains(f) || prepared.set@.contains(f),
    ensures
        f.rank->0 <= floor_rank(current, prepared),
{
    let a = climb(None, current);
    let b = climb(a, prepared.create@);
    lemma_climb_above(None, current);
    lemma_climb_above(a, prepared.create@);
    lemma_climb_above(b, prepared.set@);
    if current.contains(f) {
        let i = choose|i: int| 0 <= i < current.len() && current[i] == f;
        assert(current[i].rank is Some);
    } else if prepared.create@.contains(f) {
        let i = choose|i: int| 0 <= i < prepared.create@.len() && prepared.create@[i] == f;
        assert(prepared.create@[i].rank is Some);
    } else {
        let i = choose|i: int| 0 <= i < prepared.set@.len() && prepared.set@[i] == f;
        assert(prepared.set@[i].rank is Some);
    }
}

/// Phase file names are canonical: no two numbers share a name.
pub proof fn law_phase_names(a: nat, b: nat)
    requires
        phase_name(a) == phase_name(b),
    ensures
        a == b,
{
    reveal_strlit("PHASE-");
    reveal_strlit(".md");
    crate::memory::lemma_pad2(a);
    crate::memory::lemma_pad2(b);
    let na = phase_name(a);
    assert(pad2(a) =~= na.subrange(6, na.len() - 3));
    assert(pad2(b) =~= na.subrange(6, na.len() - 3));
}

/// A declared dependency never joins a Task to itself, nor repeats one the
/// source already has.
pub proof fn law_no_self_edge(world: World, link: Link, create: bool, existing: Seq<i64>)
    ensures
        link_outcome(world, link, create, existing) matches Ok((s, Some(t))) ==> s != t && !existing.contains(t),
{
}

/// A Task with a live Member is never retired, nor a Task whose revisions
/// moved on.
pub proof fn law_finish_guards(world: World, finish: Finish)
    ensures
        finish_outcome(world, finish, true) is Err,
        finish_outcome(world, finish, false) matches Ok(t) ==> t.revision == finish.revision && world.revision == finish.graph && t.life == Life::Active,
{
}

/// Undoing an activation removes its markers first, then restores what it
/// pruned, then moves everything back, each in the reverse of the order done:
/// the last move made is the first one undone.
pub proof fn law_undo_reverses(j: Journal)
    ensures
        undoing(j).len() == j.markers@.len() + j.removed@.len() + j.shifts@.len(),
        j.shifts@.len() > 0 ==> undoing(j)[(j.markers@.len() + j.removed@.len()) as int] == (Undo::Return { from: j.shifts@.last().1, to: j.shifts@.last().0 }),
        j.markers@.len() > 0 ==> undoing(j)[0] == (Undo::Unmark { path: j.markers@.last() }),
{
}

/// A census agrees with itself: activating right after staging, on an
/// unchanged Space, passes the change check.
pub proof fn law_census_reflexive(c: Census)
    ensures
        census_same(c, c),
{
}

proof fn lemma_slot_last(s: Seq<Held>, x: Held)
    requires
        forall|j: int| 0 <= j < s.len() ==> (#[trigger] s[j]).0 < x.0,
    ensures
        slot(s, x) == s.push(x),
    decreases s.len(),
{
    if s.len() > 0 {
        assert(!held_less(x, s[0]));
        lemma_slot_last(s.drop_first(), x);
        assert(s.push(x) =~= seq![s[0]] + s.drop_first().push(x));
    } else {
        assert(s.push(x) =~= seq![x]);
    }
}

proof fn lemma_prefix_ordered(expected: Seq<(String, String)>, n: int)
    requires
        expected.len() < i64::MAX,
        0 <= n <= expected.len(),
    ensures
        in_order(wanted(expected).take(n)) == wanted(expected).take(n),
    decreases n,
{
    let w = wanted(expected);
    if n == 0 {
        assert(w.take(0) =~= Seq::<Held>::empty());
    } else {
        lemma_prefix_ordered(expected, n - 1);
        let t = w.take(n);
        assert(t.drop_last() =~= w.take(n - 1));
        assert forall|j: int| 0 <= j < w.take(n - 1).len() implies (#[trigger] w.take(n - 1)[j]).0 < w[n - 1].0 by {
            assert(w.take(n - 1)[j] == w[j]);
        }
        lemma_slot_last(w.take(n - 1), w[n - 1]);
        assert(w.take(n - 1).push(w[n - 1]) =~= t);
    }
}

/// The Additions a migration writes for a resource's fields, one per field
/// at ranks 1, 2, ... in name order, already stand in the order the check
/// reads them: written so, they pass it.
pub proof fn law_additions_ordered(expected: Seq<(String, String)>)
    requires
        expected.len() < i64::MAX,
    ensures
        in_order(wanted(expected)) == wanted(expected),
{
    lemma_prefix_ordered(expected, expected.len() as int);
    assert(wanted(expected).take(expected.len() as int) =~= wanted(expected));
}

/// The landing checks only find dirty members and members that have not
/// landed, each at the path of one of the members checked.
pub proof fn law_landing_kinds(lands: Seq<LandProbe>)
    ensures
        land_run(lands) matches Ok(more) ==> forall|k: int| 0 <= k < more.len() ==> {
            &&& ((#[trigger] more[k]).0 == "dirty"@ || more[k].0 == "reachability"@)
            &&& exists|j: int| 0 <= j < lands.len() && more[k].1 == lands[j].path@
        },
    decreases lands.len(),
{
    if lands.len() > 0 {
        let rest = lands.drop_last();
        law_landing_kinds(rest);
        if let Ok(more) = land_run(lands) {
            let found = land_run(rest)->Ok_0;
            let step = land_step(lands.last())->Ok_0;
            assert(more == found + step);
            assert forall|k: int| 0 <= k < more.len() implies {
                &&& ((#[trigger] more[k]).0 == "dirty"@ || more[k].0 == "reachability"@)
                &&& exists|j: int| 0 <= j < lands.len() && more[k].1 == lands[j].path@
            } by {
                if k < found.len() {
                    assert(more[k] == found[k]);
                    let j = choose|j: int| 0 <= j < rest.len() && found[k].1 == rest[j].path@;
                    assert(rest[j] == lands[j]);
                } else {
                    assert(more[k] == step[k - found.len()]);
                    assert(more[k].1 == lands[lands.len() - 1].path@);
                }
            }
        }
    }
}

/// What the landing audit adds to a Task's audit: only dirty and
/// unlanded members, at their paths; so when the landing audit is clean,
/// so is the audit it started from.
pub proof fn law_landing_extends_audit(audit: Audit, landed: Audit, lands: Seq<LandProbe>)
    requires
        land_run(lands) is Ok,
        landed.target == audit.target,
        crate::member::shown(landed.faults@) == crate::member::shown(audit.faults@) + land_run(lands)->Ok_0,
    ensures
        landed.faults@.len() >= audit.faults@.len(),
        landed.faults@.len() == 0 ==> audit.faults@.len() == 0,
        forall|k: int| audit.faults@.len() <= k < landed.faults@.len() ==> {
            &&& ((#[trigger] landed.faults@[k]).kind@ == "dirty"@ || landed.faults@[k].kind@ == "reachability"@)
            &&& exists|j: int| 0 <= j < lands.len() && landed.faults@[k].path@ == lands[j].path@
        },
{
    law_landing_kinds(lands);
    let more = land_run(lands)->Ok_0;
    let a = crate::member::shown(audit.faults@);
    let l = crate::member::shown(landed.faults@);
    assert(l.len() == landed.faults@.len());
    assert(a.len() == audit.faults@.len());
    assert forall|k: int| audit.faults@.len() <= k < landed.faults@.len() implies {
        &&& ((#[trigger] landed.faults@[k]).kind@ == "dirty"@ || landed.faults@[k].kind@ == "reachability"@)
        &&& exists|j: int| 0 <= j < lands.len() && landed.faults@[k].path@ == lands[j].path@
    } by {
        assert(l[k] == more[k - a.len()]);
        assert(l[k] == crate::member::shows(landed.faults@[k]));
        let m: Finding = more[k - a.len()];
        assert(m.0 == "dirty"@ || m.0 == "reachability"@);
    }
}

proof fn lemma_walk_unrepeated(entries: Seq<Entry>, fresh: bool, j: int, i: int)
    requires
        0 <= j <= i < entries.len(),
        walk_fault(entries, fresh, j) is None,
    ensures
        !crate::phase::repeats(entries, i),
    decreases i - j,
{
    if j < i {
        lemma_walk_unrepeated(entries, fresh, j + 1, i);
    }
}

/// A Phase that passes validation, new or stored, holds no two entries of
/// one part at one rank.
pub proof fn law_phase_ranks_unique(entries: Seq<Entry>, fresh: bool)
    requires
        phase_fault(entries, fresh) is None,
    ensures
        forall|i: int, j: int| 0 <= i < j < entries.len() && #[trigger] entries[i].part == #[trigger] entries[j].part && entries[i].rank is Some ==> entries[i].rank != entries[j].rank,
{
    assert forall|i: int, j: int| 0 <= i < j < entries.len() && #[trigger] entries[i].part == #[trigger] entries[j].part && entries[i].rank is Some implies entries[i].rank != entries[j].rank by {
        lemma_walk_unrepeated(entries, fresh, 0, j);
        if entries[i].rank == entries[j].rank {
            assert(entries[i].part == entries[j].part && entries[i].rank == entries[j].rank);
        }
    }
}

/// The first node of a key is an active Task.
pub open spec fn live_key(nodes: Seq<Node>, key: i64) -> bool {
    exists|i: int| 0 <= i < nodes.len() && #[trigger] nodes[i].key == key && nodes[i].life == Life::Active && forall|j: int| 0 <= j < i ==> nodes[j].key != key
}

proof fn lemma_endpoint(nodes: Seq<Node>, key: i64)
    ensures
        (endpoint_of(nodes, key) matches Some(n) && n.life == Life::Active) <==> live_key(nodes, key),
    decreases nodes.len(),
{
    let hit = crate::brief::key_hit(key);
    if nodes.len() == 0 {
        assert(nodes.filter(hit) =~= Seq::<Node>::empty());
    } else {
        let t = nodes.drop_last();
        let x = nodes.last();
        lemma_endpoint(t, key);
        assert(nodes =~= t.push(x));
        t.lemma_filter_push(x, hit);
        if t.filter(hit).len() > 0 {
            assert(endpoint_of(nodes, key) == endpoint_of(t, key));
            if live_key(t, key) {
                let i = choose|i: int| 0 <= i < t.len() && #[trigger] t[i].key == key && t[i].life == Life::Active && forall|j: int| 0 <= j < i ==> t[j].key != key;
                assert(nodes[i] == t[i]);
                assert forall|j: int| 0 <= j < i implies nodes[j].key != key by {
                    assert(nodes[j] == t[j]);
                }
            }
            if live_key(nodes, key) {
                let i = choose|i: int| 0 <= i < nodes.len() && #[trigger] nodes[i].key == key && nodes[i].life == Life::Active && forall|j: int| 0 <= j < i ==> nodes[j].key != key;
                if i == nodes.len() - 1 {
                    let y = t.filter(hit)[0];
                    assert(t.filter(hit).contains(y));
                    t.lemma_filter_contains_rev(hit, y);
                    let k = choose|k: int| 0 <= k < t.len() && t[k] == y;
                    assert(nodes[k] == t[k]);
                    assert(false);
                } else {
                    assert(t[i] == nodes[i]);
                    assert forall|j: int| 0 <= j < i implies t[j].key != key by {
                        assert(nodes[j] == t[j]);
                    }
                    assert(live_key(t, key));
                }
            }
        } else {
            assert forall|k: int| 0 <= k < t.len() implies t[k].key != key by {
                if t[k].key == key {
                    assert(t.contains(t[k]));
                    assert(hit(t[k]));
                    assert(t.filter(hit).contains(t[k]));
                }
            }
            if x.key == key {
                assert(nodes.filter(hit) =~= seq![x]);
                assert(endpoint_of(nodes, key) == Some(x));
                if x.life == Life::Active {
                    let i = nodes.len() - 1;
                    assert forall|j: int| 0 <= j < i implies nodes[j].key != key by {
                        assert(nodes[j] == t[j]);
                    }
                    assert(nodes[i].key == key);
                }
                if live_key(nodes, key) {
                    let i = choose|i: int| 0 <= i < nodes.len() && #[trigger] nodes[i].key == key && nodes[i].life == Life::Active && forall|j: int| 0 <= j < i ==> nodes[j].key != key;
                    if i < nodes.len() - 1 {
                        assert(nodes[i] == t[i]);
                    }
                }
            } else {
                assert(nodes.filter(hit) =~= Seq::<Node>::empty());
                if live_key(nodes, key) {
                    let i = choose|i: int| 0 <= i < nodes.len() && #[trigger] nodes[i].key == key && nodes[i].life == Life::Active && forall|j: int| 0 <= j < i ==> nodes[j].key != key;
                    if i < nodes.len() - 1 {
                        assert(nodes[i] == t[i]);
                    }
                }
            }
        }
    }
}

/// The fault a live dependency with a dead endpoint raises.
pub open spec fn retired_fault(e: Edge) -> Said {
    ("dependency.retired"@, "Dependency#"@ + decimal(e.key as int), "live dependency endpoint is absent or retired"@)
}

/// The dependency audit faults exactly the live edges whose source or
/// target is not an active Task, whichever end it is.
pub proof fn law_retired_endpoints(nodes: Seq<Node>, edges: Seq<Edge>)
    ensures
        forall|k: int| 0 <= k < edges.len() && (!live_key(nodes, #[trigger] edges[k].source) || !live_key(nodes, edges[k].target)) ==> all_edge_faults(nodes, edges).contains(retired_fault(edges[k])),
        forall|f: Said| #[trigger] all_edge_faults(nodes, edges).contains(f) ==> exists|k: int| 0 <= k < edges.len() && f == retired_fault(#[trigger] edges[k]) && (!live_key(nodes, edges[k].source) || !live_key(nodes, edges[k].target)),
    decreases edges.len(),
{
    if edges.len() > 0 {
        let t = edges.drop_last();
        let e = edges.last();
        law_retired_endpoints(nodes, t);
        lemma_endpoint(nodes, e.source);
        lemma_endpoint(nodes, e.target);
        let before = all_edge_faults(nodes, t);
        let here = crate::agreement::edge_faults(nodes, e);
        assert(all_edge_faults(nodes, edges) == before + here);
        assert forall|k: int| 0 <= k < edges.len() && (!live_key(nodes, #[trigger] edges[k].source) || !live_key(nodes, edges[k].target)) implies all_edge_faults(nodes, edges).contains(retired_fault(edges[k])) by {
            if k < t.len() {
                assert(t[k] == edges[k]);
                assert(!live_key(nodes, t[k].source) || !live_key(nodes, t[k].target));
                assert(before.contains(retired_fault(t[k])));
                let w = choose|w: int| 0 <= w < before.len() && before[w] == retired_fault(t[k]);
                assert((before + here)[w] == before[w]);
            } else {
                assert(edges[k] == e);
                assert(here == seq![retired_fault(e)]);
                assert((before + here)[before.len() as int] == retired_fault(e));
            }
        }
        assert forall|f: Said| #[trigger] all_edge_faults(nodes, edges).contains(f) implies exists|k: int| 0 <= k < edges.len() && f == retired_fault(#[trigger] edges[k]) && (!live_key(nodes, edges[k].source) || !live_key(nodes, edges[k].target)) by {
            let w = choose|w: int| 0 <= w < (before + here).len() && (before + here)[w] == f;
            if w < before.len() {
                assert(before.contains(f));
                let k = choose|k: int| 0 <= k < t.len() && f == retired_fault(#[trigger] t[k]) && (!live_key(nodes, t[k].source) || !live_key(nodes, t[k].target));
                assert(edges[k] == t[k]);
            } else {
                assert(here.len() > 0);
                assert(here == seq![retired_fault(e)]);
                assert(f == retired_fault(edges[edges.len() - 1]));
            }
        }
    }
}

/// A dependency is only ever planned between active Tasks of the world:
/// its source, and its target when that is held, are the active Tasks
/// the request names.
pub proof fn law_link_between_live(world: World, link: Link, create: bool, existing: Seq<i64>)
    ensures
        link_outcome(world, link, create, existing) matches Ok((s, t)) ==> {
            &&& world.revision == link.revision
            &&& lookup(world.nodes@, link.source@) matches Ok(n) && n.key == s && n.life == Life::Active && world.nodes@.contains(n)
            &&& t matches Some(k) ==> (lookup(world.nodes@, link.target@) matches Ok(m) && m.key == k && m.life == Life::Active && world.nodes@.contains(m))
        },
{
    crate::mutate::lemma_lookup_member(world.nodes@, link.source@);
    crate::mutate::lemma_lookup_member(world.nodes@, link.target@);
}

/// A rename or rehome only ever moves the active Task the request names,
/// at the revision the request was made against.
pub proof fn law_move_live(world: World, identity: Seq<char>, revision: i64)
    ensures
        moving_task(world, identity, revision) matches Ok(t) ==> {
            &&& t.life == Life::Active
            &&& t.revision == revision
            &&& lookup(world.nodes@, identity) == Ok::<Node, crate::prepare::Fault>(t)
            &&& world.nodes@.contains(t)
        },
{
    crate::mutate::lemma_lookup_member(world.nodes@, identity);
}

/// An activation passes the change check only on a census that says the
/// same as the staged one in every field: release, fingerprint, every
/// count, and every piece of evidence with its digest.
pub proof fn law_unchanged_is_equal(a: Census, b: Census)
    requires
        crate::activate::census_same(a, b),
    ensures
        a.release@ == b.release@,
        a.fingerprint@ == b.fingerprint@,
        (a.domain, a.repository, a.task, a.member, a.claim) == (b.domain, b.repository, b.task, b.member, b.claim),
        (a.boundary, a.dependency, a.current, a.phase, a.artifact) == (b.boundary, b.dependency, b.current, b.phase, b.artifact),
        a.evidence@.len() == b.evidence@.len(),
        forall|i: int| 0 <= i < a.evidence@.len() ==> {
            &&& (#[trigger] a.evidence@[i]).path@ == b.evidence@[i].path@
            &&& a.evidence@[i].kind@ == b.evidence@[i].kind@
            &&& a.evidence@[i].bytes == b.evidence@[i].bytes
            &&& a.evidence@[i].mode == b.evidence@[i].mode
            &&& (a.evidence@[i].digest is Some <==> b.evidence@[i].digest is Some)
            &&& (a.evidence@[i].digest is Some ==> a.evidence@[i].digest->0@ == b.evidence@[i].digest->0@)
        },
{
    assert forall|i: int| 0 <= i < a.evidence@.len() implies {
        &&& (#[trigger] a.evidence@[i]).path@ == b.evidence@[i].path@
        &&& a.evidence@[i].kind@ == b.evidence@[i].kind@
        &&& a.evidence@[i].bytes == b.evidence@[i].bytes
        &&& a.evidence@[i].mode == b.evidence@[i].mode
        &&& (a.evidence@[i].digest is Some <==> b.evidence@[i].digest is Some)
        &&& (a.evidence@[i].digest is Some ==> a.evidence@[i].digest->0@ == b.evidence@[i].digest->0@)
    } by {
        assert(crate::activate::evidence_same(a.evidence@[i], b.evidence@[i]));
    }
}

/// A weight change or a dependency retirement is only ever planned between
/// the active Tasks the request names, at the graph revision it was made
/// against.
pub proof fn law_pair_between_live(world: World, source: Seq<char>, target: Seq<char>, revision: i64)
    ensures
        crate::mutate::pair_outcome(world, source, target, revision) matches Ok((s, t)) ==> {
            &&& world.revision == revision
            &&& lookup(world.nodes@, source) matches Ok(n) && n.key == s && n.life == Life::Active && world.nodes@.contains(n)
            &&& lookup(world.nodes@, target) matches Ok(m) && m.key == t && m.life == Life::Active && world.nodes@.contains(m)
        },
{
    crate::mutate::lemma_lookup_member(world.nodes@, source);
    crate::mutate::lemma_lookup_member(world.nodes@, target);
}

} // verus!
