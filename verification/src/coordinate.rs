//! The decisions of moving a Task (a new name, a new Domain) and of
//! annotating a Domain's repositories, checked against the world as read.
use crate::error::Error;
use crate::phase::{outdated, retired};
use crate::prepare::{Fault, raises};
use crate::state::{Life, Node};
use crate::text::{blank, decimal, is_blank, join, render_i64, same};
use crate::world::{Realm, World, lex_less, less, lists, lookup, named};
use vstd::prelude::*;

verus! {

/// A request to rename a Task within its Domain.
#[derive(Clone, Debug, PartialEq, Eq)]
pub struct Rename {
    pub task: String,
    pub name: String,
    pub revision: i64,
}

/// A request to move a Task to another Domain.
#[derive(Clone, Debug, PartialEq, Eq)]
pub struct Rehome {
    pub task: String,
    pub domain: String,
    pub revision: i64,
}

/// What moving a Task writes: the Task, the Domain it ends in, and its next
/// revision.
#[derive(Clone, Copy, Debug, PartialEq, Eq, Structural)]
pub struct MovePlan {
    pub task: i64,
    pub domain: i64,
    pub revision: i64,
}

/// The Task a move request names, checked live and at the request's
/// revision.
pub open spec fn moving_task(world: World, identity: Seq<char>, revision: i64) -> Result<Node, Fault> {
    match lookup(world.nodes@, identity) {
        Err(f) => Err(f),
        Ok(t) => if t.life != Life::Active {
            Err(retired(identity))
        } else if t.revision != revision {
            Err(outdated(revision, t.revision))
        } else {
            Ok(t)
        },
    }
}

fn find_task<'a>(world: &'a World, identity: &str, revision: i64) -> (r: Result<&'a Node, Error>)
    ensures
        match moving_task(*world, identity@, revision) {
            Err(f) => r matches Err(e) && raises(e, f),
            Ok(t) => r matches Ok(n) && *n == t,
        },
{
    let task = match world.node(identity) {
        Err(e) => {
            return Err(e);
        },
        Ok(n) => n,
    };
    match crate::phase::active(task.life, identity) {
        Err(e) => {
            return Err(e);
        },
        Ok(()) => {},
    }
    match crate::phase::stale(task.revision, revision) {
        Err(e) => {
            return Err(e);
        },
        Ok(()) => {},
    }
    Ok(task)
}

/// The refusal of a move onto a Task seat that something already holds.
pub open spec fn seat_taken(seat: Seq<char>) -> Fault {
    ("concord.task.territory"@, "target Task seat is occupied: "@ + seat)
}

pub open spec fn reserved_name(domain: Seq<char>, name: Seq<char>) -> Fault {
    ("concord.task.reserved"@, "Task name is already reserved: "@ + domain + "/"@ + name)
}

fn free_seat(occupied: bool, seat: &str) -> (r: Result<(), Error>)
    ensures
        !occupied ==> r is Ok,
        occupied ==> (r matches Err(e) && raises(e, seat_taken(seat@))),
{
    if occupied {
        return Err(Error::typed("concord.task.territory", join("target Task seat is occupied: ", seat)));
    }
    Ok(())
}

/// Decides a rename: a live Task at the request's revision, in a loaded
/// Domain, to a name not reserved there (`reserved` says whether it is)
/// and a seat that nothing holds (`occupied` says whether something stands
/// at `seat`, the Task's seat under its new name).
pub fn plan_rename(world: &World, rename: &Rename, reserved: bool, occupied: bool, seat: &str) -> (r: Result<MovePlan, Error>)
    requires
        forall|i: int| 0 <= i < world.nodes@.len() ==> named(world.domains@, (#[trigger] world.nodes@[i]).domain@) is Some,
        forall|i: int| 0 <= i < world.nodes@.len() ==> (#[trigger] world.nodes@[i]).revision < i64::MAX,
    ensures
        match moving_task(*world, rename.task@, rename.revision) {
            Err(f) => r matches Err(e) && raises(e, f),
            Ok(t) => if reserved {
                r matches Err(e) && raises(e, reserved_name(t.domain@, rename.name@))
            } else if occupied {
                r matches Err(e) && raises(e, seat_taken(seat@))
            } else {
                r matches Ok(p) && p.task == t.key && p.revision == t.revision + 1 && Some(p.domain) == named(world.domains@, t.domain@)
            },
        },
{
    let task = match find_task(world, rename.task.as_str(), rename.revision) {
        Err(e) => {
            return Err(e);
        },
        Ok(t) => t,
    };
    proof {
        crate::mutate::lemma_lookup_member(world.nodes@, rename.task@);
    }
    let domain = match world.domain(task.domain.as_str()) {
        Some(d) => d,
        None => 0,
    };
    available(reserved, task.domain.as_str(), rename.name.as_str())?;
    free_seat(occupied, seat)?;
    Ok(MovePlan { task: task.key, domain, revision: task.revision + 1 })
}

pub open spec fn homed() -> Fault {
    ("concord.task.domain"@, "Task already belongs to the target Domain"@)
}

/// Decides a move to another Domain: a live Task at the request's
/// revision, a different and loaded Domain, the Task's name not reserved
/// there (`reserved` says whether it is) and a seat there that nothing
/// holds (`occupied` says whether something stands at `seat`).
pub fn plan_rehome(world: &World, rehome: &Rehome, reserved: bool, occupied: bool, seat: &str) -> (r: Result<MovePlan, Error>)
    requires
        forall|i: int| 0 <= i < world.nodes@.len() ==> (#[trigger] world.nodes@[i]).revision < i64::MAX,
    ensures
        match moving_task(*world, rehome.task@, rehome.revision) {
            Err(f) => r matches Err(e) && raises(e, f),
            Ok(t) => if t.domain@ == rehome.domain@ {
                r matches Err(e) && raises(e, homed())
            } else {
                match named(world.domains@, rehome.domain@) {
                    None => r matches Err(e) && raises(e, ("concord.domain.absent"@, "unknown managed domain "@ + rehome.domain@)),
                    Some(d) => if reserved {
                        r matches Err(e) && raises(e, reserved_name(rehome.domain@, t.name@))
                    } else if occupied {
                        r matches Err(e) && raises(e, seat_taken(seat@))
                    } else {
                        r matches Ok(p) && p.task == t.key && p.revision == t.revision + 1 && p.domain == d
                    },
                }
            },
        },
{
    let task = match find_task(world, rehome.task.as_str(), rehome.revision) {
        Err(e) => {
            return Err(e);
        },
        Ok(t) => t,
    };
    proof {
        crate::mutate::lemma_lookup_member(world.nodes@, rehome.task@);
    }
    if same(task.domain.as_str(), rehome.domain.as_str()) {
        return Err(Error::said("concord.task.domain", "Task already belongs to the target Domain"));
    }
    let domain = match world.domain(rehome.domain.as_str()) {
        None => {
            return Err(Error::typed("concord.domain.absent", join("unknown managed domain ", rehome.domain.as_str())));
        },
        Some(d) => d,
    };
    available(reserved, rehome.domain.as_str(), task.name.as_str())?;
    free_seat(occupied, seat)?;
    Ok(MovePlan { task: task.key, domain, revision: task.revision + 1 })
}

/// Refuses a name already reserved in the Domain.
pub fn available(reserved: bool, domain: &str, name: &str) -> (r: Result<(), Error>)
    ensures
        !reserved ==> r is Ok,
        reserved ==> (r matches Err(e) && raises(e, ("concord.task.reserved"@, "Task name is already reserved: "@ + domain@ + "/"@ + name@))),
{
    if reserved {
        let a = join("Task name is already reserved: ", domain);
        let b = join(a.as_str(), "/");
        return Err(Error::typed("concord.task.reserved", join(b.as_str(), name)));
    }
    Ok(())
}

/// The Task as a move leaves it: its new name or Domain and its next
/// revision.
pub fn moved_task(task: &Node, domain: &str, name: &str, revision: i64) -> (r: Node)
    ensures
        r.key == task.key,
        r.domain@ == domain@,
        r.name@ == name@,
        r.life == task.life,
        r.revision == revision,
{
    Node { key: task.key, domain: String::from_str(domain), name: String::from_str(name), life: task.life, revision }
}

/// A repository of a Domain, with its optional note.
#[derive(Clone, Debug, PartialEq, Eq)]
pub struct Repository {
    pub key: i64,
    pub domain: String,
    pub name: String,
    pub note: Option<String>,
}

/// A request to set or clear a repository's note.
#[derive(Clone, Debug, PartialEq, Eq)]
pub struct Annotate {
    pub domain: String,
    pub name: String,
    pub note: Option<String>,
    pub revision: i64,
}

/// A stored Repository row, as the estate reads it.
#[derive(Clone, Debug, PartialEq, Eq)]
pub struct RepositoryRow {
    pub key: i64,
    pub domain: Option<i64>,
    pub name: Option<String>,
    pub note: Option<String>,
}

/// What annotating writes: the Domain, the repository it changes (none to
/// create one), and the Domain's next revision.
#[derive(Clone, Copy, Debug, PartialEq, Eq, Structural)]
pub struct AnnotatePlan {
    pub domain: i64,
    pub current: Option<i64>,
    pub revision: i64,
}

/// The first repository of the given name, if any.
pub open spec fn repository_named(repos: Seq<Repository>, name: Seq<char>) -> Option<Repository> {
    let hits = repos.filter(|r: Repository| r.name@ == name);
    if hits.len() == 0 {
        None
    } else {
        Some(hits[0])
    }
}

/// The Domain of the given key as listed, if any.
pub open spec fn realm_of_key(domains: Seq<Realm>, key: i64) -> Option<Realm> {
    if exists|i: int| 0 <= i < domains.len() && (#[trigger] domains[i]).key == key {
        Some(domains[choose|i: int| 0 <= i < domains.len() && (#[trigger] domains[i]).key == key])
    } else {
        None
    }
}

/// What annotating decides, or the first refusal; `repos` are the Domain's
/// repositories.
pub open spec fn annotate_outcome(world: World, request: Annotate, repos: Seq<Repository>) -> Result<(i64, Option<i64>, int), Fault> {
    if request.note matches Some(n) && blank(n@) {
        Err(("concord.repository.note"@, "Repository note cannot be blank"@))
    } else {
        match named(world.domains@, request.domain@) {
            None => Err(("concord.domain.absent"@, "unknown managed domain "@ + request.domain@)),
            Some(d) => {
                let realm = realm_of_key(world.domains@, d)->0;
                if realm.revision != request.revision {
                    Err(("concord.domain.stale"@, "Domain revision changed: expected "@ + decimal(request.revision as int) + ", found "@ + decimal(realm.revision as int)))
                } else {
                    Ok((d, match repository_named(repos, request.name@) {
                        Some(r) => Some(r.key),
                        None => None,
                    }, realm.revision + 1))
                }
            },
        }
    }
}

/// Decides an annotation: a nonblank note if any, a loaded Domain at the
/// request's revision, and the repository to change if it exists.
pub fn plan_annotate(world: &World, request: &Annotate, repos: &[Repository]) -> (r: Result<AnnotatePlan, Error>)
    requires
        exists|m: Map<i64, Realm>| lists(world.domains@, m),
        forall|i: int| 0 <= i < world.domains@.len() ==> (#[trigger] world.domains@[i]).revision < i64::MAX,
    ensures
        match annotate_outcome(*world, *request, repos@) {
            Err(f) => r matches Err(e) && raises(e, f),
            Ok((d, c, v)) => r matches Ok(p) && p.domain == d && p.current == c && p.revision == v,
        },
{
    if let Some(n) = &request.note {
        if is_blank(n.as_str()) {
            return Err(Error::said("concord.repository.note", "Repository note cannot be blank"));
        }
    }
    let domain = match world.domain(request.domain.as_str()) {
        None => {
            return Err(Error::typed("concord.domain.absent", join("unknown managed domain ", request.domain.as_str())));
        },
        Some(d) => d,
    };
    let held = &world.domains;
    let mut j: usize = 0;
    let ghost m = choose|m: Map<i64, Realm>| lists(world.domains@, m);
    proof {
        let hits = world.domains@.filter(crate::world::realm_hit(request.domain@));
        assert(hits.contains(hits[0]));
        world.domains@.lemma_filter_contains_rev(crate::world::realm_hit(request.domain@), hits[0]);
    }
    while j < held.len() && held[j].key != domain
        invariant
            j <= held@.len(),
            held@ == world.domains@,
            exists|i: int| 0 <= i < held@.len() && (#[trigger] held@[i]).key == domain,
            forall|t: int| 0 <= t < j ==> (#[trigger] held@[t]).key != domain,
        decreases held@.len() - j,
    {
        j = j + 1;
    }
    let realm = &held[j];
    proof {
        let c = choose|i: int| 0 <= i < held@.len() && (#[trigger] held@[i]).key == domain;
        if c != j {
            if c < j {
                assert(held@[c].key < held@[j as int].key);
            } else {
                assert(held@[j as int].key < held@[c].key);
            }
        }
        assert(realm_of_key(world.domains@, domain) == Some(*realm));
    }
    if realm.revision != request.revision {
        let a = join("Domain revision changed: expected ", render_i64(request.revision).as_str());
        let b = join(a.as_str(), ", found ");
        return Err(Error::typed("concord.domain.stale", join(b.as_str(), render_i64(realm.revision).as_str())));
    }
    let ghost hit = |r: Repository| r.name@ == request.name@;
    let mut k: usize = 0;
    let mut current: Option<i64> = None;
    while k < repos.len()
        invariant
            k <= repos@.len(),
            hit == (|r: Repository| r.name@ == request.name@),
            current is None ==> repos@.take(k as int).filter(hit).len() == 0,
            current matches Some(c) ==> repos@.filter(hit).len() > 0 && repos@.filter(hit)[0].key == c,
        decreases repos@.len() - k,
    {
        proof {
            assert(repos@.take(k + 1) =~= repos@.take(k as int).push(repos@[k as int]));
            repos@.take(k as int).lemma_filter_push(repos@[k as int], hit);
        }
        if current.is_none() && same(repos[k].name.as_str(), request.name.as_str()) {
            proof {
                crate::world::lemma_filter_first(repos@, hit, k as int);
            }
            current = Some(repos[k].key);
        }
        k = k + 1;
    }
    proof {
        assert(repos@.take(repos@.len() as int) =~= repos@);
        assert(repository_named(repos@, request.name@) == (if repos@.filter(hit).len() == 0 { None } else { Some(repos@.filter(hit)[0]) }));
    }
    Ok(AnnotatePlan { domain, current, revision: realm.revision + 1 })
}

} // verus!
