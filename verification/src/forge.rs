//! References from Tasks and Members to forge issues and changes.
use crate::error::Error;
use crate::prepare::{Fault, raises};
use crate::text::{decimal, has_space, join, render_i64, same, spaced};
use vstd::prelude::*;

verus! {

/// What a forge reference names.
#[derive(Clone, Copy, Debug, PartialEq, Eq, Structural)]
pub enum ReferenceKind {
    Issue,
    Change,
}

/// A forge issue or change.
#[derive(Clone, Debug, PartialEq, Eq)]
pub struct Reference {
    pub kind: ReferenceKind,
    pub provider: String,
    pub owner: String,
    pub repository: String,
    pub number: i64,
}

/// A request to declare the forge reference of a Task or of one of its
/// Members.
#[derive(Clone, Debug, PartialEq, Eq)]
pub struct ForgeDeclaration {
    pub task: String,
    pub member: Option<String>,
    pub provider: String,
    pub owner: String,
    pub repository: String,
    pub number: i64,
    pub revision: i64,
}

/// A request to withdraw a forge reference.
#[derive(Clone, Debug, PartialEq, Eq)]
pub struct ForgeWithdrawal {
    pub task: String,
    pub member: Option<String>,
    pub revision: i64,
}

impl ReferenceKind {
    pub open spec fn text(self) -> Seq<char> {
        match self {
            ReferenceKind::Issue => "issue"@,
            ReferenceKind::Change => "change"@,
        }
    }

    pub fn name(self) -> (r: &'static str)
        ensures
            r@ == self.text(),
    {
        match self {
            ReferenceKind::Issue => "issue",
            ReferenceKind::Change => "change",
        }
    }
}

/// The first rule a forge coordinate breaks, if any.
pub open spec fn coordinate_fault(provider: Seq<char>, owner: Seq<char>, repository: Seq<char>, number: i64) -> Option<Fault> {
    if provider != "github"@ {
        Some(("concord.reference.provider"@, "unsupported forge provider "@ + provider))
    } else if spaced(owner) || spaced(repository) {
        Some(("concord.reference.coordinate"@, "forge owner and repository cannot contain whitespace"@))
    } else if number < 1 {
        Some(("concord.reference.number"@, "forge reference number must be positive"@))
    } else {
        None
    }
}

/// Checks a forge coordinate: the GitHub provider, an owner and repository
/// without white space, and a positive number.
pub fn validate(provider: &str, owner: &str, repository: &str, number: i64) -> (r: Result<(), Error>)
    ensures
        match coordinate_fault(provider@, owner@, repository@, number) {
            None => r is Ok,
            Some(f) => r matches Err(e) && raises(e, f),
        },
{
    proof {
        reveal_strlit("github");
    }
    if !same(provider, "github") {
        return Err(Error::typed("concord.reference.provider", join("unsupported forge provider ", provider)));
    }
    if has_space(owner) || has_space(repository) {
        return Err(Error::said("concord.reference.coordinate", "forge owner and repository cannot contain whitespace"));
    }
    if number < 1 {
        return Err(Error::said("concord.reference.number", "forge reference number must be positive"));
    }
    Ok(())
}

/// A stored Issue or Change row, as the estate reads it; `parent` is the
/// Task or Member it belongs to.
#[derive(Clone, Debug, PartialEq, Eq)]
pub struct ReferenceRow {
    pub key: i64,
    pub parent: Option<i64>,
    pub provider: Option<String>,
    pub owner: Option<String>,
    pub repository: Option<String>,
    pub number: Option<i64>,
}

pub open spec fn row_fault(key: i64, field: Seq<char>) -> Fault {
    ("concord.reference.row"@, "forge Reference "@ + decimal(key as int) + " has malformed field "@ + field)
}

/// What decoding a reference row gives: the reference, or the first fault.
pub open spec fn decoded(row: ReferenceRow, kind: ReferenceKind) -> Result<(Seq<char>, Seq<char>, Seq<char>, i64), Fault> {
    if row.provider is None {
        Err(row_fault(row.key, "provider"@))
    } else if row.owner is None {
        Err(row_fault(row.key, "owner"@))
    } else if row.repository is None {
        Err(row_fault(row.key, "repository"@))
    } else if row.number is None {
        Err(row_fault(row.key, "number"@))
    } else {
        match coordinate_fault(row.provider->0@, row.owner->0@, row.repository->0@, row.number->0) {
            Some(f) => Err(f),
            None => Ok((row.provider->0@, row.owner->0@, row.repository->0@, row.number->0)),
        }
    }
}

fn malformed(key: i64, field: &str) -> (e: Error)
    ensures
        raises(e, row_fault(key, field@)),
{
    let a = join("forge Reference ", render_i64(key).as_str());
    let b = join(a.as_str(), " has malformed field ");
    Error::typed("concord.reference.row", join(b.as_str(), field))
}

/// Reads a stored reference, refusing a malformed or invalid one.
pub fn decode(row: &ReferenceRow, kind: ReferenceKind) -> (r: Result<Reference, Error>)
    ensures
        match decoded(*row, kind) {
            Err(f) => r matches Err(e) && raises(e, f),
            Ok((p, o, q, n)) => r matches Ok(x) && x.kind == kind && x.provider@ == p && x.owner@ == o && x.repository@ == q && x.number == n,
        },
{
    let provider = match &row.provider {
        None => {
            return Err(malformed(row.key, "provider"));
        },
        Some(t) => t.clone(),
    };
    let owner = match &row.owner {
        None => {
            return Err(malformed(row.key, "owner"));
        },
        Some(t) => t.clone(),
    };
    let repository = match &row.repository {
        None => {
            return Err(malformed(row.key, "repository"));
        },
        Some(t) => t.clone(),
    };
    let number = match row.number {
        None => {
            return Err(malformed(row.key, "number"));
        },
        Some(n) => n,
    };
    match validate(provider.as_str(), owner.as_str(), repository.as_str(), number) {
        Err(e) => {
            return Err(e);
        },
        Ok(()) => {},
    }
    Ok(Reference { kind, provider, owner, repository, number })
}

impl ReferenceKind {
    /// The estate unit that stores references of this kind.
    pub open spec fn unit_text(self) -> Seq<char> {
        match self {
            ReferenceKind::Issue => "Issue"@,
            ReferenceKind::Change => "Change"@,
        }
    }

    pub fn unit(self) -> (r: &'static str)
        ensures
            r@ == self.unit_text(),
    {
        match self {
            ReferenceKind::Issue => "Issue",
            ReferenceKind::Change => "Change",
        }
    }
}

/// The rows of one parent.
pub open spec fn of_parent(parent: i64) -> spec_fn(ReferenceRow) -> bool {
    |r: ReferenceRow| r.parent == Some(parent)
}

/// The reference of a Task (an Issue) or of a Member (a Change): none when
/// no row belongs to the parent, refused when several do, else the one
/// row decoded.
pub fn forge(rows: &[ReferenceRow], kind: ReferenceKind, parent: i64) -> (r: Result<Option<Reference>, Error>)
    ensures
        ({
            let held = rows@.filter(of_parent(parent));
            if held.len() == 0 {
                r == Ok::<Option<Reference>, Error>(None)
            } else if held.len() > 1 {
                r matches Err(e) && raises(e, ("concord.reference.duplicate"@, kind.unit_text() + " parent "@ + decimal(parent as int) + " has multiple references"@))
            } else {
                match decoded(held[0], kind) {
                    Err(f) => r matches Err(e) && raises(e, f),
                    Ok((p, o, q, n)) => r matches Ok(Some(x)) && x.kind == kind && x.provider@ == p && x.owner@ == o && x.repository@ == q && x.number == n,
                }
            }
        }),
{
    let ghost hit = of_parent(parent);
    let mut count: usize = 0;
    let mut first: usize = 0;
    let mut i: usize = 0;
    while i < rows.len()
        invariant
            i <= rows@.len(),
            hit == of_parent(parent),
            count == rows@.take(i as int).filter(hit).len(),
            count <= i,
            count > 0 ==> first < rows@.len() && rows@.take(i as int).filter(hit)[0] == rows@[first as int],
        decreases rows@.len() - i,
    {
        proof {
            assert(rows@.take(i + 1) =~= rows@.take(i as int).push(rows@[i as int]));
            rows@.take(i as int).lemma_filter_push(rows@[i as int], hit);
        }
        if rows[i].parent == Some(parent) {
            if count == 0 {
                first = i;
            }
            count = count + 1;
        }
        i = i + 1;
    }
    proof {
        assert(rows@.take(rows@.len() as int) =~= rows@);
    }
    if count == 0 {
        return Ok(None);
    }
    if count > 1 {
        let a = join(kind.unit(), " parent ");
        let b = join(a.as_str(), render_i64(parent).as_str());
        return Err(Error::typed("concord.reference.duplicate", join(b.as_str(), " has multiple references")));
    }
    match decode(&rows[first], kind) {
        Err(e) => Err(e),
        Ok(x) => Ok(Some(x)),
    }
}

/// What a reference write decides: which row it changes (none to create
/// one) and the Task's next revision.
#[derive(Clone, Copy, Debug, PartialEq, Eq, Structural)]
pub struct ReferPlan {
    pub held: Option<i64>,
    pub revision: i64,
}

/// Decides a reference declaration once the Task is found live at the
/// request's revision: a valid coordinate, and the parent's row to change
/// if one exists.
pub fn plan_refer(declaration: &ForgeDeclaration, task_revision: i64, rows: &[ReferenceRow], parent: i64) -> (r: Result<ReferPlan, Error>)
    requires
        task_revision < i64::MAX,
    ensures
        match coordinate_fault(declaration.provider@, declaration.owner@, declaration.repository@, declaration.number) {
            Some(f) => r matches Err(e) && raises(e, f),
            None => r matches Ok(p) && p.revision == task_revision + 1 && match p.held {
                None => rows@.filter(of_parent(parent)).len() == 0,
                Some(k) => rows@.filter(of_parent(parent)).len() > 0 && rows@.filter(of_parent(parent))[0].key == k,
            },
        },
{
    match validate(declaration.provider.as_str(), declaration.owner.as_str(), declaration.repository.as_str(), declaration.number) {
        Err(e) => {
            return Err(e);
        },
        Ok(()) => {},
    }
    let held = match first_row(rows, parent) {
        Some(i) => Some(rows[i].key),
        None => None,
    };
    Ok(ReferPlan { held, revision: task_revision + 1 })
}

fn first_row(rows: &[ReferenceRow], parent: i64) -> (r: Option<usize>)
    ensures
        match r {
            None => rows@.filter(of_parent(parent)).len() == 0,
            Some(i) => i < rows@.len() && rows@.filter(of_parent(parent)).len() > 0 && rows@.filter(of_parent(parent))[0] == rows@[i as int],
        },
{
    let ghost hit = of_parent(parent);
    let mut i: usize = 0;
    while i < rows.len()
        invariant
            i <= rows@.len(),
            hit == of_parent(parent),
            rows@.take(i as int).filter(hit).len() == 0,
        decreases rows@.len() - i,
    {
        proof {
            assert(rows@.take(i + 1) =~= rows@.take(i as int).push(rows@[i as int]));
            rows@.take(i as int).lemma_filter_push(rows@[i as int], hit);
        }
        if rows[i].parent == Some(parent) {
            proof {
                crate::world::lemma_filter_first(rows@, hit, i as int);
            }
            return Some(i);
        }
        i = i + 1;
    }
    proof {
        assert(rows@.take(rows@.len() as int) =~= rows@);
    }
    None
}

/// Decides a reference withdrawal once the Task is found live at the
/// request's revision: the parent's row to end, or a refusal when none is
/// declared.  Returns the row's key and the Task's next revision.
pub fn plan_unrefer(kind: ReferenceKind, task_revision: i64, rows: &[ReferenceRow], parent: i64) -> (r: Result<(i64, i64), Error>)
    requires
        task_revision < i64::MAX,
    ensures
        rows@.filter(of_parent(parent)).len() == 0 ==> (r matches Err(e) && raises(e, ("concord.reference.absent"@, kind.unit_text() + " reference is not declared"@))),
        rows@.filter(of_parent(parent)).len() > 0 ==> r == Ok::<(i64, i64), Error>((rows@.filter(of_parent(parent))[0].key, (task_revision + 1) as i64)),
{
    match first_row(rows, parent) {
        None => Err(Error::typed("concord.reference.absent", join(kind.unit(), " reference is not declared"))),
        Some(i) => Ok((rows[i].key, task_revision + 1)),
    }
}

} // verus!
