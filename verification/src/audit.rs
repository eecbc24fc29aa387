//! Protocol audits: the faults and advisories found on a Space, its
//! Domains, Tasks and members, which faults gate agreement, and the checks
//! of one member's Git seat.
use crate::error::Error;
use crate::text::{decimal, join, mode_text, render_mode, render_usize};
use vstd::prelude::*;

verus! {

/// A protocol fault at a path.
#[derive(Clone, Debug)]
pub struct Fault {
    pub kind: String,
    pub path: String,
    pub message: String,
}

/// An observation that does not fail the audit.
#[derive(Clone, Debug)]
pub struct Advisory {
    pub kind: String,
    pub path: String,
    pub message: String,
}

/// The faults and advisories found on one target.
#[derive(Clone, Debug)]
pub struct Audit {
    pub target: String,
    pub faults: Vec<Fault>,
    pub observations: Vec<Advisory>,
}

/// Fault kinds that concern hygiene only and never gate agreement.
pub open spec fn hygiene(kind: Seq<char>) -> bool {
    kind == "permission"@ || kind == "memory"@ || kind == "resource"@
}

/// The faults that gate agreement.
pub open spec fn gating(faults: Seq<Fault>) -> bool {
    exists|i: int| 0 <= i < faults.len() && !hygiene((#[trigger] faults[i]).kind@)
}

impl Fault {
    /// Whether this fault gates agreement: every kind but hygiene.
    pub fn gates(&self) -> (r: bool)
        ensures
            r == !hygiene(self.kind@),
    {
        let k = self.kind.as_str();
        !(crate::text::same(k, "permission") || crate::text::same(k, "memory") || crate::text::same(k, "resource"))
    }
}

impl Audit {
    /// An audit of a target with nothing found yet.
    pub fn new(target: String) -> (r: Audit)
        ensures
            r.target == target,
            r.faults@.len() == 0,
            r.observations@.len() == 0,
    {
        Audit { target, faults: Vec::new(), observations: Vec::new() }
    }

    /// Whether the audit found no fault at all.
    pub fn ok(&self) -> (r: bool)
        ensures
            r == (self.faults@.len() == 0),
    {
        self.faults.len() == 0
    }

    /// Whether the audit found no fault that gates agreement.
    pub fn agrees(&self) -> (r: bool)
        ensures
            r == !gating(self.faults@),
    {
        let mut i: usize = 0;
        while i < self.faults.len()
            invariant
                i <= self.faults@.len(),
                forall|j: int| 0 <= j < i ==> hygiene((#[trigger] self.faults@[j]).kind@),
            decreases self.faults@.len() - i,
        {
            if self.faults[i].gates() {
                return false;
            }
            i = i + 1;
        }
        true
    }

    /// Records a fault.
    pub fn fault(&mut self, kind: &str, path: &str, message: String)
        ensures
            final(self).target == old(self).target,
            final(self).observations == old(self).observations,
            final(self).faults@.len() == old(self).faults@.len() + 1,
            final(self).faults@.drop_last() == old(self).faults@,
            final(self).faults@.last().kind@ == kind@,
            final(self).faults@.last().path@ == path@,
            final(self).faults@.last().message == message,
    {
        self.faults.push(Fault { kind: String::from_str(kind), path: String::from_str(path), message });
    }

    /// Records an advisory.
    pub fn observe(&mut self, kind: &str, path: &str, message: String)
        ensures
            final(self).target == old(self).target,
            final(self).faults == old(self).faults,
            final(self).observations@.len() == old(self).observations@.len() + 1,
            final(self).observations@.drop_last() == old(self).observations@,
            final(self).observations@.last().kind@ == kind@,
            final(self).observations@.last().path@ == path@,
            final(self).observations@.last().message == message,
    {
        self.observations.push(Advisory { kind: String::from_str(kind), path: String::from_str(path), message });
    }
}

/// Takes another audit's faults and advisories, after this one's.
pub fn merge(target: &mut Audit, source: Audit)
    ensures
        final(target).target == old(target).target,
        final(target).faults@ == old(target).faults@ + source.faults@,
        final(target).observations@ == old(target).observations@ + source.observations@,
{
    let mut faults = source.faults;
    let mut observations = source.observations;
    target.faults.append(&mut faults);
    target.observations.append(&mut observations);
}

pub open spec fn mode_mismatch(held: u32, wanted: u32) -> Seq<char> {
    "mode "@ + mode_text(held as nat) + " must be "@ + mode_text(wanted as nat)
}

/// Checks the mode of an existing path: a fault when it holds a mode other
/// than the one wanted.  `held` is the path's mode where the platform has
/// one.
pub fn permission(audit: &mut Audit, path: &str, held: Option<u32>, wanted: u32)
    ensures
        final(audit).target == old(audit).target,
        final(audit).observations == old(audit).observations,
        match held {
            Some(h) if h != wanted => {
                &&& final(audit).faults@.drop_last() == old(audit).faults@
                &&& final(audit).faults@.len() == old(audit).faults@.len() + 1
                &&& final(audit).faults@.last().kind@ == "permission"@
                &&& final(audit).faults@.last().path@ == path@
                &&& final(audit).faults@.last().message@ == mode_mismatch(h, wanted)
            },
            _ => final(audit).faults == old(audit).faults,
        },
{
    if let Some(h) = held {
        if h != wanted {
            let a = join("mode ", render_mode(h).as_str());
            let b = join(a.as_str(), " must be ");
            audit.fault("permission", path, join(b.as_str(), render_mode(wanted).as_str()));
            proof {
                reveal_strlit("permission");
            }
        }
    }
}

pub open spec fn mismatch_message(count: int, identity: Seq<char>) -> Seq<char> {
    "task protocol mismatch: "@ + decimal(count) + " fault(s); run concord audit "@ + identity
}

/// Refuses a Task whose audit found any fault.
pub fn ensure_exact(audit: &Audit, identity: &str) -> (r: Result<(), Error>)
    ensures
        audit.faults@.len() == 0 ==> r is Ok,
        audit.faults@.len() > 0 ==> (r matches Err(e) && e.code is None && e.message@ == mismatch_message(audit.faults@.len() as int, identity@)),
{
    if audit.ok() {
        Ok(())
    } else {
        let a = join("task protocol mismatch: ", render_usize(audit.faults.len()).as_str());
        let b = join(a.as_str(), " fault(s); run concord audit ");
        Err(Error::new(join(b.as_str(), identity)))
    }
}

/// A registered Member as the claim audit holds it: who owns it (its
/// `domain/task/member` name), where it stands, and the identity of its
/// repository.
#[derive(Clone, Debug, PartialEq, Eq)]
pub struct Held {
    pub owner: String,
    pub path: String,
    pub identity: String,
}

/// Records a claim fault on `right` when two Members of one repository
/// write overlapping paths; `overlapping` says whether their write Claims
/// overlap.
pub fn conflict(audit: &mut Audit, left: &Held, right: &Held, overlapping: bool)
    ensures
        final(audit).target == old(audit).target,
        final(audit).observations == old(audit).observations,
        !(left.identity@ == right.identity@ && overlapping) ==> final(audit).faults == old(audit).faults,
        (left.identity@ == right.identity@ && overlapping) ==> {
            &&& final(audit).faults@.drop_last() == old(audit).faults@
            &&& final(audit).faults@.len() == old(audit).faults@.len() + 1
            &&& final(audit).faults@.last().kind@ == "claim"@
            &&& final(audit).faults@.last().path@ == right.path@
            &&& final(audit).faults@.last().message@ == right.owner@ + " overlaps "@ + left.owner@
        },
{
    if !crate::text::same(left.identity.as_str(), right.identity.as_str()) || !overlapping {
        return;
    }
    let a = join(right.owner.as_str(), " overlaps ");
    audit.fault("claim", right.path.as_str(), join(a.as_str(), left.owner.as_str()));
    proof {
        reveal_strlit("claim");
    }
}

} // verus!
