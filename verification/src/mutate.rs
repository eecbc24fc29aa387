//! The decisions of the estate's dependency and Task writes: which stored
//! state a request may change, checked against the world as read, before
//! anything is written.
use crate::error::Error;
use crate::phase::{moved, outdated, retired};
use crate::prepare::{Fault, raises};
use crate::state::{Cut, Finish, Life, Link, Node, Tune};
use crate::text::{blank, decimal, is_blank, join, render_i64};
use crate::territory::Entry;
use crate::world::{World, lookup};
use vstd::prelude::*;

verus! {

/// Where a new dependency points: a Task that exists, or one the write
/// creates.
#[derive(Clone, Copy, Debug, PartialEq, Eq, Structural)]
pub enum Endpoint {
    Held(i64),
    Fresh,
}

/// What declaring a dependency writes: its source Task, its target, and
/// the graph revision it leaves.
#[derive(Clone, Copy, Debug, PartialEq, Eq, Structural)]
pub struct LinkPlan {
    pub source: i64,
    pub target: Endpoint,
    pub revision: i64,
}

pub open spec fn self_fault() -> Fault {
    ("concord.dependency.self"@, "a Task cannot depend on itself"@)
}

pub open spec fn exists_fault(source: Seq<char>, target: Seq<char>) -> Fault {
    ("concord.dependency.exists"@, "dependency already exists: "@ + source + " -> "@ + target)
}

pub open spec fn cycle_fault(source: Seq<char>, target: Seq<char>) -> Fault {
    ("concord.dependency.cycle"@, "dependency creates a cycle: "@ + source + " -> "@ + target)
}

/// What declaring a dependency decides: the source and target keys (no
/// target key when the target is to be created), or the first refusal.
/// `existing` holds the targets the source already depends on.
pub open spec fn link_outcome(world: World, link: Link, create: bool, existing: Seq<i64>) -> Result<(i64, Option<i64>), Fault> {
    if world.revision != link.revision {
        Err(moved(link.revision, world.revision))
    } else {
        match lookup(world.nodes@, link.source@) {
            Err(f) => Err(f),
            Ok(s) => if s.life != Life::Active {
                Err(retired(link.source@))
            } else {
                match lookup(world.nodes@, link.target@) {
                    Ok(t) => if t.life != Life::Active {
                        Err(retired(link.target@))
                    } else if s.key == t.key {
                        Err(self_fault())
                    } else if existing.contains(t.key) {
                        Err(exists_fault(link.source@, link.target@))
                    } else {
                        Ok((s.key, Some(t.key)))
                    },
                    Err(f) => if create && f.0 == "concord.task.absent"@ {
                        Ok((s.key, None))
                    } else {
                        Err(f)
                    },
                }
            },
        }
    }
}

fn holds(keys: &[i64], key: i64) -> (r: bool)
    ensures
        r == keys@.contains(key),
{
    let mut i: usize = 0;
    while i < keys.len()
        invariant
            i <= keys@.len(),
            forall|j: int| 0 <= j < i ==> keys@[j] != key,
        decreases keys@.len() - i,
    {
        if keys[i] == key {
            assert(keys@[i as int] == key);
            return true;
        }
        i = i + 1;
    }
    false
}

/// Decides a dependency declaration against the world as read: the graph
/// revision it was made against, a live source, a live target (or, when
/// `create`, an absent one to create), no self-dependency and no duplicate.
pub fn plan_link(world: &World, link: &Link, create: bool, existing: &[i64]) -> (r: Result<LinkPlan, Error>)
    requires
        world.revision < i64::MAX,
    ensures
        match link_outcome(*world, *link, create, existing@) {
            Err(f) => r matches Err(e) && raises(e, f),
            Ok((s, t)) => r matches Ok(p) && p.source == s && p.revision == world.revision + 1 && p.target == (match t {
                Some(k) => Endpoint::Held(k),
                None => Endpoint::Fresh,
            }),
        },
{
    match crate::phase::settled(world.revision, link.revision) {
        Err(e) => {
            return Err(e);
        },
        Ok(()) => {},
    }
    let source = match world.node(link.source.as_str()) {
        Err(e) => {
            return Err(e);
        },
        Ok(n) => n,
    };
    match crate::phase::active(source.life, link.source.as_str()) {
        Err(e) => {
            return Err(e);
        },
        Ok(()) => {},
    }
    let target = match world.node(link.target.as_str()) {
        Ok(t) => {
            match crate::phase::active(t.life, link.target.as_str()) {
                Err(e) => {
                    return Err(e);
                },
                Ok(()) => {},
            }
            Some(t)
        },
        Err(e) => {
            let absent = match &e.code {
                Some(c) => crate::text::same(c.as_str(), "concord.task.absent"),
                None => false,
            };
            if create && absent {
                None
            } else {
                return Err(e);
            }
        },
    };
    match target {
        Some(t) => {
            if source.key == t.key {
                return Err(Error::said("concord.dependency.self", "a Task cannot depend on itself"));
            }
            if holds(existing, t.key) {
                let a = join("dependency already exists: ", link.source.as_str());
                let b = join(a.as_str(), " -> ");
                return Err(Error::typed("concord.dependency.exists", join(b.as_str(), link.target.as_str())));
            }
            Ok(LinkPlan { source: source.key, target: Endpoint::Held(t.key), revision: world.revision + 1 })
        },
        None => Ok(LinkPlan { source: source.key, target: Endpoint::Fresh, revision: world.revision + 1 }),
    }
}

/// The refusal of a dependency whose write the store rejected as a cycle.
pub fn cycle_refusal(link: &Link) -> (e: Error)
    ensures
        raises(e, cycle_fault(link.source@, link.target@)),
{
    let a = join("dependency creates a cycle: ", link.source.as_str());
    let b = join(a.as_str(), " -> ");
    Error::typed("concord.dependency.cycle", join(b.as_str(), link.target.as_str()))
}

/// What changing or retiring an existing dependency decides: the source
/// and target keys, or the first refusal.
pub open spec fn pair_outcome(world: World, source: Seq<char>, target: Seq<char>, revision: i64) -> Result<(i64, i64), Fault> {
    if world.revision != revision {
        Err(moved(revision, world.revision))
    } else {
        match lookup(world.nodes@, source) {
            Err(f) => Err(f),
            Ok(s) => match lookup(world.nodes@, target) {
                Err(f) => Err(f),
                Ok(t) => if s.life != Life::Active {
                    Err(retired(source))
                } else if t.life != Life::Active {
                    Err(retired(target))
                } else {
                    Ok((s.key, t.key))
                },
            },
        }
    }
}

fn plan_pair(world: &World, source: &str, target: &str, revision: i64) -> (r: Result<(i64, i64), Error>)
    ensures
        match pair_outcome(*world, source@, target@, revision) {
            Err(f) => r matches Err(e) && raises(e, f),
            Ok(keys) => r == Ok::<(i64, i64), Error>(keys),
        },
{
    match crate::phase::settled(world.revision, revision) {
        Err(e) => {
            return Err(e);
        },
        Ok(()) => {},
    }
    let s = match world.node(source) {
        Err(e) => {
            return Err(e);
        },
        Ok(n) => n,
    };
    let t = match world.node(target) {
        Err(e) => {
            return Err(e);
        },
        Ok(n) => n,
    };
    match crate::phase::active(s.life, source) {
        Err(e) => {
            return Err(e);
        },
        Ok(()) => {},
    }
    match crate::phase::active(t.life, target) {
        Err(e) => {
            return Err(e);
        },
        Ok(()) => {},
    }
    Ok((s.key, t.key))
}

/// Decides a weight change: the graph revision it was made against and two
/// live Tasks.  Returns the source and target keys.
pub fn plan_tune(world: &World, tune: &Tune) -> (r: Result<(i64, i64), Error>)
    ensures
        match pair_outcome(*world, tune.source@, tune.target@, tune.revision) {
            Err(f) => r matches Err(e) && raises(e, f),
            Ok(keys) => r == Ok::<(i64, i64), Error>(keys),
        },
{
    plan_pair(world, tune.source.as_str(), tune.target.as_str(), tune.revision)
}

pub open spec fn reasonless() -> Fault {
    ("concord.dependency.reason"@, "dependency retirement reason cannot be blank"@)
}

/// Decides a dependency retirement: a reason, the graph revision it was
/// made against and two live Tasks.  Returns the source and target keys.
pub fn plan_cut(world: &World, cut: &Cut) -> (r: Result<(i64, i64), Error>)
    ensures
        blank(cut.reason@) ==> (r matches Err(e) && raises(e, reasonless())),
        !blank(cut.reason@) ==> match pair_outcome(*world, cut.source@, cut.target@, cut.revision) {
            Err(f) => r matches Err(e) && raises(e, f),
            Ok(keys) => r == Ok::<(i64, i64), Error>(keys),
        },
{
    if is_blank(cut.reason.as_str()) {
        return Err(Error::said("concord.dependency.reason", "dependency retirement reason cannot be blank"));
    }
    plan_pair(world, cut.source.as_str(), cut.target.as_str(), cut.revision)
}

pub open spec fn no_tie(source: i64, target: i64) -> Fault {
    ("concord.dependency.absent"@, "dependency does not exist: "@ + decimal(source as int) + " -> "@ + decimal(target as int))
}

/// The key of the live dependency from `source` to `target`, among the
/// source's dependencies as (key, target) pairs.
pub fn direct(ties: &[(i64, i64)], source: i64, target: i64) -> (r: Result<i64, Error>)
    ensures
        match r {
            Ok(k) => exists|i: int| 0 <= i < ties@.len() && ties@[i] == (k, target) && forall|j: int| 0 <= j < i ==> (#[trigger] ties@[j]).1 != target,
            Err(e) => raises(e, no_tie(source, target)) && forall|j: int| 0 <= j < ties@.len() ==> (#[trigger] ties@[j]).1 != target,
        },
{
    let mut i: usize = 0;
    while i < ties.len()
        invariant
            i <= ties@.len(),
            forall|j: int| 0 <= j < i ==> (#[trigger] ties@[j]).1 != target,
        decreases ties@.len() - i,
    {
        if ties[i].1 == target {
            assert(ties@[i as int] == (ties@[i as int].0, target));
            return Ok(ties[i].0);
        }
        i = i + 1;
    }
    let a = join("dependency does not exist: ", render_i64(source).as_str());
    let b = join(a.as_str(), " -> ");
    Err(Error::typed("concord.dependency.absent", join(b.as_str(), render_i64(target).as_str())))
}

/// What retiring a Task writes: the Task, its next revision and the graph's.
#[derive(Clone, Copy, Debug, PartialEq, Eq, Structural)]
pub struct FinishPlan {
    pub task: i64,
    pub revision: i64,
    pub graph: i64,
}

pub open spec fn finish_stale(finish: Finish, task: i64, graph: i64) -> Fault {
    ("concord.task.stale"@, "finish revisions changed: Task "@ + decimal(finish.revision as int) + "/"@ + decimal(task as int) + ", graph "@ + decimal(finish.graph as int) + "/"@ + decimal(graph as int))
}

/// What retiring a Task decides, or the first refusal; `manned` says
/// whether any live Member belongs to the Task.
pub open spec fn finish_outcome(world: World, finish: Finish, manned: bool) -> Result<Node, Fault> {
    if blank(finish.reason@) {
        Err(("concord.task.reason"@, "Task retirement reason cannot be blank"@))
    } else {
        match lookup(world.nodes@, finish.task@) {
            Err(f) => Err(f),
            Ok(t) => if t.life != Life::Active {
                Err(("concord.task.retired"@, "Task is already retired: "@ + finish.task@))
            } else if t.revision != finish.revision || world.revision != finish.graph {
                Err(finish_stale(finish, t.revision, world.revision))
            } else if manned {
                Err(("concord.task.members"@, "Task finish requires zero live Members"@))
            } else {
                Ok(t)
            },
        }
    }
}

fn stale_finish(finish: &Finish, task: i64, graph: i64) -> (e: Error)
    ensures
        raises(e, finish_stale(*finish, task, graph)),
{
    let a = join("finish revisions changed: Task ", render_i64(finish.revision).as_str());
    let b = join(a.as_str(), "/");
    let c = join(b.as_str(), render_i64(task).as_str());
    let d = join(c.as_str(), ", graph ");
    let f = join(d.as_str(), render_i64(finish.graph).as_str());
    let g = join(f.as_str(), "/");
    Error::typed("concord.task.stale", join(g.as_str(), render_i64(graph).as_str()))
}

/// Decides a Task's retirement: a reason, a live Task at the revisions the
/// request was made against, and no live Member.
pub fn plan_finish(world: &World, finish: &Finish, manned: bool) -> (r: Result<FinishPlan, Error>)
    requires
        world.revision < i64::MAX,
        forall|i: int| 0 <= i < world.nodes@.len() ==> (#[trigger] world.nodes@[i]).revision < i64::MAX,
    ensures
        match finish_outcome(*world, *finish, manned) {
            Err(f) => r matches Err(e) && raises(e, f),
            Ok(t) => r matches Ok(p) && p.task == t.key && p.revision == t.revision + 1 && p.graph == world.revision + 1,
        },
{
    if is_blank(finish.reason.as_str()) {
        return Err(Error::said("concord.task.reason", "Task retirement reason cannot be blank"));
    }
    let task = match world.node(finish.task.as_str()) {
        Err(e) => {
            return Err(e);
        },
        Ok(n) => n,
    };
    proof {
        lemma_lookup_member(world.nodes@, finish.task@);
    }
    if task.life != Life::Active {
        return Err(Error::typed("concord.task.retired", join("Task is already retired: ", finish.task.as_str())));
    }
    if task.revision != finish.revision || world.revision != finish.graph {
        return Err(stale_finish(finish, task.revision, world.revision));
    }
    if manned {
        return Err(Error::said("concord.task.members", "Task finish requires zero live Members"));
    }
    Ok(FinishPlan { task: task.key, revision: task.revision + 1, graph: world.revision + 1 })
}

/// A Task found by identity is one of the world's Tasks.
pub proof fn lemma_lookup_member(nodes: Seq<Node>, identity: Seq<char>)
    ensures
        lookup(nodes, identity) matches Ok(n) ==> nodes.contains(n),
{
    match crate::world::slash_from(identity, 0) {
        Some(p) => {
            let hit = crate::world::pair_hit(identity.take(p), identity.skip(p + 1));
            if nodes.filter(hit).len() > 0 {
                assert(nodes.filter(hit).contains(nodes.filter(hit)[0]));
                nodes.lemma_filter_contains_rev(hit, nodes.filter(hit)[0]);
            }
        },
        None => {
            let hit = crate::world::name_hit(identity);
            if nodes.filter(hit).len() > 0 {
                assert(nodes.filter(hit).contains(nodes.filter(hit)[0]));
                nodes.lemma_filter_contains_rev(hit, nodes.filter(hit)[0]);
            }
        },
    }
}

/// The Task as a retirement leaves it: retired, at its next revision.
pub fn retire(task: &Node, revision: i64) -> (r: Node)
    ensures
        r == (Node { life: Life::Retired, revision, ..*task }),
{
    let mut t = task.duplicate();
    t.life = Life::Retired;
    t.revision = revision;
    t
}

/// Refuses a Domain name already taken.
pub fn plan_manage(world: &World, name: &str) -> (r: Result<(), Error>)
    ensures
        crate::world::named(world.domains@, name@) is None ==> r is Ok,
        crate::world::named(world.domains@, name@) is Some ==> (r matches Err(e) && raises(e, ("concord.domain.reserved"@, "Domain name is already reserved: "@ + name@))),
{
    if world.domain(name).is_some() {
        return Err(Error::typed("concord.domain.reserved", join("Domain name is already reserved: ", name)));
    }
    Ok(())
}

pub open spec fn occupied_fault(seat: Seq<char>) -> Fault {
    ("concord.task.territory"@, "Task seat is occupied by foreign territory: "@ + seat)
}

/// Decides where a new Task starts: a loaded Domain, a name not reserved
/// there (`reserved` says whether it is), and a free seat (`occupied` says
/// whether something already stands at `seat`).  Returns the Domain's key.
pub fn plan_start(world: &World, domain: &str, name: &str, reserved: bool, occupied: bool, seat: &str) -> (r: Result<i64, Error>)
    ensures
        match crate::world::named(world.domains@, domain@) {
            None => r matches Err(e) && raises(e, ("concord.domain.absent"@, "unknown managed domain "@ + domain@)),
            Some(d) => if reserved {
                r matches Err(e) && raises(e, ("concord.task.reserved"@, "Task name is already reserved: "@ + domain@ + "/"@ + name@))
            } else if occupied {
                r matches Err(e) && raises(e, occupied_fault(seat@))
            } else {
                r == Ok::<i64, Error>(d)
            },
        },
{
    let root = match world.domain(domain) {
        None => {
            return Err(Error::typed("concord.domain.absent", join("unknown managed domain ", domain)));
        },
        Some(d) => d,
    };
    match crate::coordinate::available(reserved, domain, name) {
        Err(e) => {
            return Err(e);
        },
        Ok(()) => {},
    }
    if occupied {
        return Err(Error::typed("concord.task.territory", join("Task seat is occupied by foreign territory: ", seat)));
    }
    Ok(root)
}

/// A Task as it starts: active, at revision 0.
pub fn started(key: i64, domain: &str, name: &str) -> (r: Node)
    ensures
        r.key == key,
        r.domain@ == domain@,
        r.name@ == name@,
        r.life == Life::Active,
        r.revision == 0,
{
    Node { key, domain: String::from_str(domain), name: String::from_str(name), life: Life::Active, revision: 0 }
}

/// Decides the target a dependency declaration creates: an exact
/// `DOMAIN/NAME`, a loaded Domain, a name not reserved there and a free
/// seat.  Returns the Domain's key and the Task's name.
pub fn fresh(world: &World, identity: &str, reserved: bool, occupied: bool, seat: &str) -> (r: Result<(i64, String), Error>)
    ensures
        match crate::world::slash_from(identity@, 0) {
            None => r matches Err(e) && raises(e, ("concord.task.identity"@, "--create-target requires an exact domain/task identity"@)),
            Some(p) => {
                let domain = identity@.take(p);
                let name = identity@.skip(p + 1);
                match crate::world::named(world.domains@, domain) {
                    None => r matches Err(e) && raises(e, ("concord.domain.absent"@, "unknown managed domain "@ + domain)),
                    Some(d) => if reserved {
                        r matches Err(e) && raises(e, ("concord.task.reserved"@, "Task name is already reserved: "@ + identity@))
                    } else if occupied {
                        r matches Err(e) && raises(e, occupied_fault(seat@))
                    } else {
                        r matches Ok((k, n)) && k == d && n@ == name
                    },
                }
            },
        },
{
    let p = match crate::world::find_slash(identity) {
        None => {
            return Err(Error::said("concord.task.identity", "--create-target requires an exact domain/task identity"));
        },
        Some(p) => p,
    };
    let len = identity.unicode_len();
    let domain = identity.substring_char(0, p);
    let name = identity.substring_char(p + 1, len);
    proof {
        assert(domain@ =~= identity@.take(p as int));
        assert(name@ =~= identity@.skip(p + 1));
    }
    let root = match world.domain(domain) {
        None => {
            return Err(Error::typed("concord.domain.absent", join("unknown managed domain ", domain)));
        },
        Some(d) => d,
    };
    if reserved {
        return Err(Error::typed("concord.task.reserved", join("Task name is already reserved: ", identity)));
    }
    if occupied {
        return Err(Error::typed("concord.task.territory", join("Task seat is occupied by foreign territory: ", seat)));
    }
    Ok((root, String::from_str(name)))
}

/// What stands at a path of a Task's seat: nothing, a directory, or
/// something else.
#[derive(Clone, Copy, Debug, PartialEq, Eq, Structural)]
pub enum Place {
    Absent,
    Directory,
    Other,
}

/// What a Task's seat still holds when it is to be retired: the seat's
/// entries where it exists, its memory and the memory's entries, and the
/// artifacts directory in it and whether that is empty.
#[derive(Clone, Debug, PartialEq, Eq)]
pub struct Remains {
    pub seat: Option<Vec<Entry>>,
    pub memory_path: String,
    pub memory: Place,
    pub memory_entries: Vec<Entry>,
    pub artifacts_path: String,
    pub artifacts: Place,
    pub artifacts_empty: bool,
}

/// The path of the first entry not named `name`, if any.
pub open spec fn stranger(entries: Seq<Entry>, name: Seq<char>) -> Option<Seq<char>>
    decreases entries.len(),
{
    if entries.len() == 0 {
        None
    } else if entries[0].name@ != name {
        Some(entries[0].path@)
    } else {
        stranger(entries.drop_first(), name)
    }
}

pub open spec fn foreign_fault(path: Seq<char>) -> Fault {
    ("concord.task.territory"@, "Task seat contains foreign territory: "@ + path)
}

pub open spec fn remains_of(entries: Option<Vec<Entry>>) -> Option<Seq<Entry>> {
    match entries {
        Some(v) => Some(v@),
        None => None,
    }
}

/// What keeps a Task from retiring, if anything: anything in its seat but
/// its memory, a memory that is not a directory or holds anything but its
/// artifacts, an artifacts path that is not a directory, or any retained
/// artifact.
pub open spec fn remains_fault(r: Remains) -> Option<Fault> {
    match remains_of(r.seat) {
        None => None,
        Some(es) => match stranger(es, ".task"@) {
            Some(p) => Some(foreign_fault(p)),
            None => match r.memory {
                Place::Absent => None,
                Place::Other => Some(foreign_fault(r.memory_path@)),
                Place::Directory => match stranger(r.memory_entries@, "artifacts"@) {
                    Some(p) => Some(foreign_fault(p)),
                    None => match r.artifacts {
                        Place::Absent => None,
                        Place::Other => Some(foreign_fault(r.artifacts_path@)),
                        Place::Directory => if r.artifacts_empty {
                            None
                        } else {
                            Some(("concord.task.artifacts"@, "Task finish requires zero retained Artifacts"@))
                        },
                    },
                },
            },
        },
    }
}

fn first_stranger(entries: &Vec<Entry>, name: &str) -> (r: Option<usize>)
    ensures
        match stranger(entries@, name@) {
            None => r is None,
            Some(p) => r matches Some(i) && i < entries@.len() && entries@[i as int].path@ == p,
        },
{
    let mut i: usize = 0;
    proof {
        assert(entries@.skip(0) =~= entries@);
    }
    while i < entries.len()
        invariant
            i <= entries@.len(),
            stranger(entries@, name@) == stranger(entries@.skip(i as int), name@),
        decreases entries@.len() - i,
    {
        proof {
            assert(entries@.skip(i as int).drop_first() =~= entries@.skip(i + 1));
        }
        if !crate::text::same(entries[i].name.as_str(), name) {
            return Some(i);
        }
        i = i + 1;
    }
    proof {
        assert(entries@.skip(i as int) =~= Seq::<Entry>::empty());
    }
    None
}

fn foreign(path: &str) -> (e: Error)
    ensures
        raises(e, foreign_fault(path@)),
{
    Error::typed("concord.task.territory", join("Task seat contains foreign territory: ", path))
}

/// Refuses to retire a Task whose seat still holds anything but an empty
/// artifacts directory in its memory.
pub fn finishable(remains: &Remains) -> (r: Result<(), Error>)
    ensures
        match remains_fault(*remains) {
            None => r is Ok,
            Some(f) => r matches Err(e) && raises(e, f),
        },
{
    let entries = match &remains.seat {
        None => {
            return Ok(());
        },
        Some(v) => v,
    };
    if let Some(i) = first_stranger(entries, ".task") {
        return Err(foreign(entries[i].path.as_str()));
    }
    match remains.memory {
        Place::Absent => {
            return Ok(());
        },
        Place::Other => {
            return Err(foreign(remains.memory_path.as_str()));
        },
        Place::Directory => {},
    }
    if let Some(i) = first_stranger(&remains.memory_entries, "artifacts") {
        return Err(foreign(remains.memory_entries[i].path.as_str()));
    }
    match remains.artifacts {
        Place::Absent => Ok(()),
        Place::Other => Err(foreign(remains.artifacts_path.as_str())),
        Place::Directory => {
            if remains.artifacts_empty {
                Ok(())
            } else {
                Err(Error::said("concord.task.artifacts", "Task finish requires zero retained Artifacts"))
            }
        },
    }
}

} // verus!
