//! The checks of a member's Git seat: its identity against its source, its
//! registration as a worktree, its branch, and, before landing, whether it
//! is clean, within its boundary and reachable from the integration head.
//! Git's answers arrive as a probe; the decisions are made here.
use crate::audit::{Advisory, Audit, Fault};
use crate::error::Error;
use crate::text::join;
use vstd::prelude::*;

verus! {

/// A fault or advisory as text: kind, path, message.
pub type Finding = (Seq<char>, Seq<char>, Seq<char>);

/// A fault as text.
pub open spec fn shows(f: Fault) -> Finding {
    (f.kind@, f.path@, f.message@)
}

/// The faults as text.
pub open spec fn shown(faults: Seq<Fault>) -> Seq<Finding> {
    faults.map_values(|f: Fault| shows(f))
}

/// What Git and the filesystem report of one member.  A query that failed
/// keeps its error's text, or the error itself where the check that asks it
/// fails with it.
#[derive(Debug)]
pub struct Probe {
    /// The member's path.
    pub path: String,
    /// Whether the member's path is a directory.
    pub present: bool,
    /// The member's source checkout, resolved.
    pub source: Result<String, String>,
    /// Whether the resolved source is a directory.
    pub source_present: bool,
    /// The Git identity of the source.
    pub source_identity: Result<String, String>,
    /// The Git identity of the member's seat.
    pub member_identity: Result<String, String>,
    /// Whether the source lists the member among its worktrees.
    pub registered: Result<bool, Error>,
    /// The member's branch.
    pub branch: Result<String, String>,
    /// Whether the member has no dirty or untracked file.
    pub clean: Result<bool, String>,
    /// Whether the member's boundary proof holds for its current HEAD.
    pub head_valid: Result<bool, Error>,
    /// How the member's HEAD lands on the integration checkout's HEAD.
    pub landing: Result<Option<LandingProof>, String>,
}

/// How a member's HEAD relates to the integration checkout's HEAD.
#[derive(Clone, Debug, PartialEq, Eq)]
pub enum LandingProof {
    Reachable { member_head: String, integration_head: String },
    TreeEquivalent { member_head: String, integration_head: String, member_tree: String, integration_tree: String },
}

impl LandingProof {
    /// A copy that Verus knows equals the original.
    pub fn duplicate(&self) -> (r: LandingProof)
        ensures
            r == *self,
    {
        match self {
            LandingProof::Reachable { member_head, integration_head } => LandingProof::Reachable {
                member_head: member_head.clone(),
                integration_head: integration_head.clone(),
            },
            LandingProof::TreeEquivalent { member_head, integration_head, member_tree, integration_tree } => LandingProof::TreeEquivalent {
                member_head: member_head.clone(),
                integration_head: integration_head.clone(),
                member_tree: member_tree.clone(),
                integration_tree: integration_tree.clone(),
            },
        }
    }
}

/// What the identity check finds.
pub open spec fn identity_findings(p: Probe) -> Seq<Finding> {
    match (p.source_identity, p.member_identity) {
        (Ok(s), Ok(m)) => if s@ != m@ {
            seq![("identity"@, p.path@, "member Git identity "@ + m@ + " differs from source "@ + s@)]
        } else {
            Seq::empty()
        },
        (Err(e), _) => seq![("source"@, p.source->Ok_0@, e@)],
        (_, Err(e)) => seq![("worktree"@, p.path@, e@)],
    }
}

/// What the branch check finds.
pub open spec fn branch_findings(p: Probe, expected: Seq<char>) -> Seq<Finding> {
    match p.branch {
        Ok(b) => if b@ != expected {
            seq![("branch"@, p.path@, "member branch "@ + b@ + " differs from registry "@ + expected)]
        } else {
            Seq::empty()
        },
        Err(e) => seq![("branch"@, p.path@, e@)],
    }
}

/// What the worktree registration check finds.
pub open spec fn registry_findings(p: Probe) -> Seq<Finding> {
    if p.source_present && p.registered == Ok::<bool, Error>(false) {
        seq![("worktree"@, p.path@, "member path is absent from source Git worktree metadata"@)]
    } else {
        Seq::empty()
    }
}

/// What a member's audit finds, in order.
pub open spec fn audit_findings(p: Probe, expected: Seq<char>) -> Seq<Finding> {
    if !p.present {
        seq![("presence"@, p.path@, "declared member path is missing"@)]
    } else if p.source is Err {
        seq![("source"@, p.path@, p.source->Err_0@)]
    } else {
        identity_findings(p) + registry_findings(p) + branch_findings(p, expected)
    }
}

/// A member's audit fails outright: its worktree registration could not be
/// read.
pub open spec fn audit_fails(p: Probe) -> bool {
    p.present && p.source is Ok && p.source_present && p.registered is Err
}

proof fn lemma_shown_push(faults: Seq<Fault>, f: Fault)
    ensures
        shown(faults.push(f)) == shown(faults).push(shows(f)),
{
    assert(shown(faults.push(f)) =~= shown(faults).push(shows(f)));
}

/// Records a fault, keeping the record of the earlier ones.
pub(crate) fn note(audit: &mut Audit, kind: &str, path: &str, message: String)
    ensures
        final(audit).target == old(audit).target,
        final(audit).observations == old(audit).observations,
        shown(final(audit).faults@) == shown(old(audit).faults@).push((kind@, path@, message@)),
{
    let ghost before = audit.faults@;
    audit.fault(kind, path, message);
    proof {
        assert(audit.faults@ =~= before.push(audit.faults@.last()));
        lemma_shown_push(before, audit.faults@.last());
    }
}

fn identities(audit: &mut Audit, p: &Probe)
    requires
        p.source is Ok,
    ensures
        final(audit).target == old(audit).target,
        final(audit).observations == old(audit).observations,
        shown(final(audit).faults@) == shown(old(audit).faults@) + identity_findings(*p),
{
    proof {
        reveal_strlit("identity");
        reveal_strlit("source");
        reveal_strlit("worktree");
    }
    match (&p.source_identity, &p.member_identity) {
        (Ok(s), Ok(m)) => {
            if !crate::text::same(s.as_str(), m.as_str()) {
                let a = join("member Git identity ", m.as_str());
                let b = join(a.as_str(), " differs from source ");
                note(audit, "identity", p.path.as_str(), join(b.as_str(), s.as_str()));
            } else {
                assert(shown(old(audit).faults@) + Seq::<Finding>::empty() =~= shown(old(audit).faults@));
            }
        },
        (Err(e), _) => {
            let source = match &p.source {
                Ok(s) => s.as_str(),
                Err(_) => "",
            };
            note(audit, "source", source, e.clone());
        },
        (_, Err(e)) => {
            note(audit, "worktree", p.path.as_str(), e.clone());
        },
    }
}

fn branch(audit: &mut Audit, p: &Probe, expected: &str)
    ensures
        final(audit).target == old(audit).target,
        final(audit).observations == old(audit).observations,
        shown(final(audit).faults@) == shown(old(audit).faults@) + branch_findings(*p, expected@),
{
    proof {
        reveal_strlit("branch");
    }
    match &p.branch {
        Ok(b) => {
            if !crate::text::same(b.as_str(), expected) {
                let a = join("member branch ", b.as_str());
                let c = join(a.as_str(), " differs from registry ");
                note(audit, "branch", p.path.as_str(), join(c.as_str(), expected));
            } else {
                assert(shown(old(audit).faults@) + Seq::<Finding>::empty() =~= shown(old(audit).faults@));
            }
        },
        Err(e) => {
            note(audit, "branch", p.path.as_str(), e.clone());
        },
    }
}

/// Audits one member's seat: present, its source resolved, the same Git
/// identity as the source, registered as the source's worktree, and on the
/// branch the registry expects.
pub fn member_audit(audit: &mut Audit, p: &Probe, expected: &str) -> (r: Result<(), Error>)
    ensures
        final(audit).target == old(audit).target,
        final(audit).observations == old(audit).observations,
        audit_fails(*p) ==> r == Err::<(), Error>(p.registered->Err_0),
        !audit_fails(*p) ==> r is Ok && shown(final(audit).faults@) == shown(old(audit).faults@) + audit_findings(*p, expected@),
{
    proof {
        reveal_strlit("presence");
        reveal_strlit("source");
        reveal_strlit("worktree");
    }
    if !p.present {
        note(audit, "presence", p.path.as_str(), String::from_str("declared member path is missing"));
        return Ok(());
    }
    if let Err(e) = &p.source {
        note(audit, "source", p.path.as_str(), e.clone());
        return Ok(());
    }
    let ghost start = shown(audit.faults@);
    identities(audit, p);
    let ghost mid = shown(audit.faults@);
    if p.source_present {
        match &p.registered {
            Err(e) => {
                return Err(e.duplicate());
            },
            Ok(false) => {
                note(audit, "worktree", p.path.as_str(), String::from_str("member path is absent from source Git worktree metadata"));
            },
            Ok(true) => {},
        }
    }
    let ghost after = shown(audit.faults@);
    proof {
        if !(p.source_present && p.registered == Ok::<bool, Error>(false)) {
            assert(after == mid + registry_findings(*p));
        }
        assert(after == mid + registry_findings(*p));
    }
    branch(audit, p, expected);
    proof {
        assert(start + identity_findings(*p) + registry_findings(*p) + branch_findings(*p, expected@) =~= start + (identity_findings(*p) + registry_findings(*p) + branch_findings(*p, expected@)));
    }
    Ok(())
}

/// An advisory as text.
pub open spec fn told(a: Advisory) -> Finding {
    (a.kind@, a.path@, a.message@)
}

/// The advisories as text.
pub open spec fn noted(observations: Seq<Advisory>) -> Seq<Finding> {
    observations.map_values(|a: Advisory| told(a))
}

/// Whether a member inspection raises the stale-boundary advisory: the
/// member reached the branch check and, from registry version 2 on, its
/// boundary proof does not hold for its current HEAD.
pub open spec fn stale_boundary(p: Probe, version: u32) -> bool {
    p.present && p.source is Ok && !audit_fails(p) && version >= 2 && p.head_valid != Ok::<bool, Error>(true)
}

/// Inspects one member of a Task: the audit of its seat and, from registry
/// version 2 on, an advisory when its boundary proof is absent or stale.
pub fn inspect_member(audit: &mut Audit, p: &Probe, expected: &str, version: u32) -> (r: Result<(), Error>)
    ensures
        final(audit).target == old(audit).target,
        audit_fails(*p) ==> r == Err::<(), Error>(p.registered->Err_0),
        !audit_fails(*p) ==> r is Ok && shown(final(audit).faults@) == shown(old(audit).faults@) + audit_findings(*p, expected@),
        !audit_fails(*p) ==> noted(final(audit).observations@) == noted(old(audit).observations@) + (if stale_boundary(*p, version) {
            seq![("boundary"@, p.path@, "member boundary proof is absent or stale"@)]
        } else {
            Seq::<Finding>::empty()
        }),
{
    let ghost before = audit.observations@;
    match member_audit(audit, p, expected) {
        Err(e) => {
            return Err(e);
        },
        Ok(()) => {},
    }
    let valid = match &p.head_valid {
        Ok(v) => *v,
        Err(_) => false,
    };
    if p.present && p.source.is_ok() && version >= 2 && !valid {
        let ghost mid = audit.observations@;
        audit.observe("boundary", p.path.as_str(), String::from_str("member boundary proof is absent or stale"));
        proof {
            reveal_strlit("boundary");
            assert(audit.observations@ =~= mid.push(audit.observations@.last()));
            assert(noted(mid.push(audit.observations@.last())) =~= noted(mid).push(told(audit.observations@.last())));
        }
    } else {
        proof {
            assert(noted(before) + Seq::<Finding>::empty() =~= noted(before));
        }
    }
    Ok(())
}

/// What Git reports of one member before a landing.
#[derive(Debug)]
pub struct LandProbe {
    pub path: String,
    /// Whether the member's path is a directory.
    pub present: bool,
    /// Whether the member has no dirty or untracked file.
    pub clean: Result<bool, Error>,
    /// Whether the member's source resolves to a directory.
    pub source_present: Result<bool, Error>,
    /// Whether the member's HEAD is reachable from, or tree-equivalent to,
    /// the integration checkout's HEAD.
    pub landed: Result<bool, Error>,
}

/// What one member's landing check finds, or the error that stops it.
pub open spec fn land_step(p: LandProbe) -> Result<Seq<Finding>, Error> {
    let dirty: Seq<Finding> = seq![("dirty"@, p.path@, "member has dirty or untracked files"@)];
    let stray: Seq<Finding> = seq![("reachability"@, p.path@, "member HEAD is neither reachable nor tree-equivalent to the integration checkout HEAD"@)];
    if p.present && p.clean is Err {
        Err(p.clean->Err_0)
    } else if p.source_present is Err {
        Err(p.source_present->Err_0)
    } else {
        let first: Seq<Finding> = if p.present && p.clean == Ok::<bool, Error>(false) { dirty } else { Seq::empty() };
        if p.present && p.source_present == Ok::<bool, Error>(true) {
            match p.landed {
                Err(e) => Err(e),
                Ok(l) => Ok(first + if l { Seq::<Finding>::empty() } else { stray }),
            }
        } else {
            Ok(first)
        }
    }
}

/// What the landing checks of the members find, in order, or the first
/// error that stops them.
pub open spec fn land_run(ps: Seq<LandProbe>) -> Result<Seq<Finding>, Error>
    decreases ps.len(),
{
    if ps.len() == 0 {
        Ok(Seq::empty())
    } else {
        match land_run(ps.drop_last()) {
            Err(e) => Err(e),
            Ok(found) => match land_step(ps.last()) {
                Err(e) => Err(e),
                Ok(more) => Ok(found + more),
            },
        }
    }
}

proof fn lemma_land_stays(ps: Seq<LandProbe>, i: int)
    requires
        0 <= i <= ps.len(),
        land_run(ps.take(i)) is Err,
    ensures
        land_run(ps) == land_run(ps.take(i)),
    decreases ps.len() - i,
{
    if i == ps.len() {
        assert(ps.take(i) =~= ps);
    } else {
        assert(ps.drop_last().take(i) =~= ps.take(i));
        lemma_land_stays(ps.drop_last(), i);
    }
}

fn land_one(audit: &mut Audit, p: &LandProbe) -> (r: Result<(), Error>)
    ensures
        final(audit).target == old(audit).target,
        final(audit).observations == old(audit).observations,
        match land_step(*p) {
            Err(e) => r == Err::<(), Error>(e),
            Ok(more) => r is Ok && shown(final(audit).faults@) == shown(old(audit).faults@) + more,
        },
{
    proof {
        reveal_strlit("dirty");
        reveal_strlit("reachability");
    }
    let ghost start = shown(audit.faults@);
    if p.present {
        match &p.clean {
            Err(e) => {
                return Err(e.duplicate());
            },
            Ok(false) => {
                note(audit, "dirty", p.path.as_str(), String::from_str("member has dirty or untracked files"));
            },
            Ok(true) => {},
        }
    }
    let ghost mid = shown(audit.faults@);
    let source_present = match &p.source_present {
        Err(e) => {
            return Err(e.duplicate());
        },
        Ok(b) => *b,
    };
    if p.present && source_present {
        match &p.landed {
            Err(e) => {
                return Err(e.duplicate());
            },
            Ok(false) => {
                note(audit, "reachability", p.path.as_str(), String::from_str("member HEAD is neither reachable nor tree-equivalent to the integration checkout HEAD"));
            },
            Ok(true) => {
                assert(mid + Seq::<Finding>::empty() =~= mid);
            },
        }
    }
    proof {
        if !(p.present && p.clean == Ok::<bool, Error>(false)) {
            assert(start + Seq::<Finding>::empty() =~= start);
        }
    }
    Ok(())
}

/// The landing audit of a Task: its audit, then for each member, whether it
/// is clean and whether its HEAD lands on the integration checkout's HEAD.
pub fn land_audit(audit: Audit, lands: &[LandProbe]) -> (r: Result<Audit, Error>)
    ensures
        match land_run(lands@) {
            Err(e) => r == Err::<Audit, Error>(e),
            Ok(more) => r matches Ok(a) && a.target == audit.target && a.observations == audit.observations && shown(a.faults@) == shown(audit.faults@) + more,
        },
{
    let mut held = audit;
    let mut i: usize = 0;
    proof {
        assert(lands@.take(0) =~= Seq::<LandProbe>::empty());
        assert(shown(held.faults@) + Seq::<Finding>::empty() =~= shown(held.faults@));
    }
    while i < lands.len()
        invariant
            i <= lands@.len(),
            held.target == audit.target,
            held.observations == audit.observations,
            land_run(lands@.take(i as int)) matches Ok(found) && shown(held.faults@) == shown(audit.faults@) + found,
        decreases lands@.len() - i,
    {
        proof {
            let t = lands@.take(i + 1);
            assert(t.drop_last() =~= lands@.take(i as int));
            assert(t.last() == lands@[i as int]);
        }
        let ghost found = land_run(lands@.take(i as int))->Ok_0;
        match land_one(&mut held, &lands[i]) {
            Err(e) => {
                proof {
                    lemma_land_stays(lands@, i + 1);
                }
                return Err(e);
            },
            Ok(()) => {},
        }
        proof {
            let more = land_step(lands@[i as int])->Ok_0;
            assert(shown(audit.faults@) + found + more =~= shown(audit.faults@) + (found + more));
        }
        i = i + 1;
    }
    proof {
        assert(lands@.take(lands@.len() as int) =~= lands@);
    }
    Ok(held)
}

} // verus!
