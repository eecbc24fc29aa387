//! Landing preflight: for each member of a Task, either a proof that it may
//! land (same identity as its source, registered, on its branch, clean,
//! within its boundary, reachable from the integration head) or the reason
//! it may not.
use crate::audit::{Audit, Fault};
use crate::error::Error;
use crate::member::{Finding, LandingProof, Probe, shown};
use crate::territory::Boundary;
use vstd::prelude::*;

verus! {

/// The preflight of a Task's landing.
#[derive(Debug)]
pub struct Preflight {
    pub target: String,
    pub members: Vec<MemberPreflight>,
    pub faults: Vec<Fault>,
}

/// One member's preflight: where it stands and, when everything holds, the
/// proof that it may land.
#[derive(Debug)]
pub struct MemberPreflight {
    pub name: String,
    pub path: String,
    pub source: String,
    pub expected_branch: String,
    pub write: Vec<String>,
    pub boundary: Option<Boundary>,
    pub proof: Option<MemberProof>,
}

/// The evidence that a member may land.
#[derive(Debug)]
pub struct MemberProof {
    pub source_identity: String,
    pub member_identity: String,
    pub registered: bool,
    pub branch: String,
    pub clean: bool,
    pub landing: LandingProof,
}

/// The member's seat matches the registry: present, source resolved, the
/// same Git identity as the source, registered, and on the expected branch.
pub open spec fn seated(p: Probe, expected: Seq<char>) -> bool {
    &&& p.present
    &&& p.source is Ok
    &&& p.source_identity is Ok
    &&& p.member_identity is Ok
    &&& p.registered == Ok::<bool, Error>(true)
    &&& p.branch is Ok
    &&& p.source_identity->Ok_0@ == p.member_identity->Ok_0@
    &&& p.branch->Ok_0@ == expected
}

/// The preflight fails outright: the boundary is required and the member's
/// HEAD could not be read.
pub open spec fn preflight_fails(p: Probe, expected: Seq<char>, required: bool) -> bool {
    seated(p, expected) && p.clean == Ok::<bool, String>(true) && required && p.head_valid is Err
}

/// What a member's preflight finds, in order.
pub open spec fn preflight_findings(p: Probe, path: Seq<char>, expected: Seq<char>, required: bool) -> Seq<Finding> {
    if !seated(p, expected) {
        Seq::empty()
    } else {
        match p.clean {
            Err(e) => seq![("worktree"@, path, e@)],
            Ok(false) => seq![("dirty"@, path, "member has dirty or untracked files"@)],
            Ok(true) => {
                let bounded: Seq<Finding> = if required && p.head_valid == Ok::<bool, Error>(false) {
                    seq![("boundary"@, path, "member has no valid boundary proof for its current HEAD and write claim"@)]
                } else {
                    Seq::empty()
                };
                bounded + match p.landing {
                    Ok(Some(_)) => Seq::<Finding>::empty(),
                    Ok(None) => seq![("reachability"@, path, "member HEAD is neither reachable nor tree-equivalent to the integration checkout HEAD"@)],
                    Err(e) => seq![("reachability"@, path, e@)],
                }
            },
        }
    }
}

/// The member may land: seated, clean, and its HEAD lands.
pub open spec fn proved(p: Probe, expected: Seq<char>) -> bool {
    seated(p, expected) && p.clean == Ok::<bool, String>(true) && p.landing matches Ok(Some(_))
}

fn record(faults: &mut Vec<Fault>, kind: &str, path: &str, message: String)
    ensures
        shown(final(faults)@) == shown(old(faults)@).push((kind@, path@, message@)),
{
    let f = Fault { kind: String::from_str(kind), path: String::from_str(path), message };
    let ghost before = faults@;
    faults.push(f);
    proof {
        assert(shown(faults@) =~= shown(before).push((kind@, path@, message@)));
    }
}

/// A member as the registry declares it (its Boundary proof among it),
/// with what Git reports of it.
#[derive(Debug)]
pub struct MemberSeed {
    pub name: String,
    pub path: String,
    pub source: String,
    pub expected_branch: String,
    pub write: Vec<String>,
    pub boundary: Option<Boundary>,
    pub probe: Probe,
}

/// `m` is the preflight of the member that `seed` declares: named as
/// declared, its source replaced by the resolved one once resolved, and
/// with the proof that it may land exactly when everything holds.
pub open spec fn settles(m: MemberPreflight, seed: MemberSeed) -> bool {
    let p = seed.probe;
    &&& m.name == seed.name
    &&& m.path == seed.path
    &&& m.expected_branch == seed.expected_branch
    &&& m.write == seed.write
    &&& m.boundary == seed.boundary
    &&& m.source == (if p.present && p.source is Ok { p.source->Ok_0 } else { seed.source })
    &&& (m.proof is Some) == proved(p, seed.expected_branch@)
    &&& m.proof matches Some(proof) ==> {
        &&& proof.source_identity == p.source_identity->Ok_0
        &&& proof.member_identity == p.member_identity->Ok_0
        &&& proof.registered
        &&& proof.branch == p.branch->Ok_0
        &&& proof.clean
        &&& p.landing == Ok::<Option<LandingProof>, String>(Some(proof.landing))
    }
}

/// The preflight of one member from what Git reports of it, recording what
/// stops it from landing.
pub fn member_preflight(faults: &mut Vec<Fault>, seed: MemberSeed, required: bool) -> (r: Result<MemberPreflight, Error>)
    ensures
        preflight_fails(seed.probe, seed.expected_branch@, required) ==> r == Err::<MemberPreflight, Error>(seed.probe.head_valid->Err_0) && shown(final(faults)@) == shown(old(faults)@),
        !preflight_fails(seed.probe, seed.expected_branch@, required) ==> (r matches Ok(m) && settles(m, seed) && shown(final(faults)@) == shown(old(faults)@) + preflight_findings(seed.probe, seed.path@, seed.expected_branch@, required)),
{
    let MemberSeed { name, path, source, expected_branch, write, boundary, probe } = seed;
    let p = &probe;
    let mut held = MemberPreflight { name, path, source, expected_branch, write, boundary, proof: None };
    let ghost start = shown(faults@);
    proof {
        assert(start + Seq::<Finding>::empty() =~= start);
        reveal_strlit("worktree");
        reveal_strlit("dirty");
        reveal_strlit("boundary");
        reveal_strlit("reachability");
    }
    if !p.present {
        return Ok(held);
    }
    let source = match &p.source {
        Ok(s) => s.clone(),
        Err(_) => {
            return Ok(held);
        },
    };
    held.source = source;
    let (source_identity, member_identity) = match (&p.source_identity, &p.member_identity) {
        (Ok(s), Ok(m)) => (s, m),
        _ => {
            return Ok(held);
        },
    };
    let registered = match &p.registered {
        Ok(r) => *r,
        Err(_) => {
            return Ok(held);
        },
    };
    let branch = match &p.branch {
        Ok(b) => b,
        Err(_) => {
            return Ok(held);
        },
    };
    if !crate::text::same(source_identity.as_str(), member_identity.as_str()) || !registered || !crate::text::same(branch.as_str(), held.expected_branch.as_str()) {
        return Ok(held);
    }
    match &p.clean {
        Ok(true) => {},
        Ok(false) => {
            record(faults, "dirty", held.path.as_str(), String::from_str("member has dirty or untracked files"));
            return Ok(held);
        },
        Err(e) => {
            record(faults, "worktree", held.path.as_str(), e.clone());
            return Ok(held);
        },
    }
    if required {
        match &p.head_valid {
            Err(e) => {
                return Err(e.duplicate());
            },
            Ok(true) => {},
            Ok(false) => {
                record(faults, "boundary", held.path.as_str(), String::from_str("member has no valid boundary proof for its current HEAD and write claim"));
            },
        }
    }
    let ghost mid = shown(faults@);
    let landing = match &p.landing {
        Ok(Some(l)) => l.duplicate(),
        Ok(None) => {
            record(faults, "reachability", held.path.as_str(), String::from_str("member HEAD is neither reachable nor tree-equivalent to the integration checkout HEAD"));
            return Ok(held);
        },
        Err(e) => {
            record(faults, "reachability", held.path.as_str(), e.clone());
            return Ok(held);
        },
    };
    proof {
        assert(mid + Seq::<Finding>::empty() =~= mid);
    }
    held.proof = Some(MemberProof {
        source_identity: source_identity.clone(),
        member_identity: member_identity.clone(),
        registered: true,
        branch: branch.clone(),
        clean: true,
        landing,
    });
    Ok(held)
}

/// A member without a landing proof.
pub open spec fn lacks_proof() -> spec_fn(MemberPreflight) -> bool {
    |m: MemberPreflight| m.proof is None
}

/// The number of members without a landing proof.
pub open spec fn unproved_count(members: Seq<MemberPreflight>) -> nat {
    members.filter(lacks_proof()).len()
}

/// Every member has a landing proof and nothing else faulted.
pub open spec fn cleared(p: Preflight) -> bool {
    p.faults@.len() == 0 && forall|i: int| 0 <= i < p.members@.len() ==> (#[trigger] p.members@[i]).proof is Some
}

impl Preflight {
    /// Whether the Task may land: no fault and a proof for every member.
    pub fn ok(&self) -> (r: bool)
        ensures
            r == cleared(*self),
    {
        if self.faults.len() != 0 {
            return false;
        }
        let mut i: usize = 0;
        while i < self.members.len()
            invariant
                i <= self.members@.len(),
                forall|j: int| 0 <= j < i ==> (#[trigger] self.members@[j]).proof is Some,
            decreases self.members@.len() - i,
        {
            if self.members[i].proof.is_none() {
                return false;
            }
            i = i + 1;
        }
        true
    }

    /// The number of members without a landing proof.
    pub fn unproved(&self) -> (r: usize)
        ensures
            r == unproved_count(self.members@),
    {
        let ghost hit = lacks_proof();
        let mut n: usize = 0;
        let mut i: usize = 0;
        while i < self.members.len()
            invariant
                i <= self.members@.len(),
                hit == lacks_proof(),
                n == self.members@.take(i as int).filter(hit).len(),
                n <= i,
            decreases self.members@.len() - i,
        {
            proof {
                assert(self.members@.take(i + 1) =~= self.members@.take(i as int).push(self.members@[i as int]));
                self.members@.take(i as int).lemma_filter_push(self.members@[i as int], hit);
            }
            if self.members[i].proof.is_none() {
                n = n + 1;
            }
            i = i + 1;
        }
        proof {
            assert(self.members@.take(self.members@.len() as int) =~= self.members@);
        }
        n
    }
}

/// What the members' preflights find, in order, or the first error that
/// stops them.
pub open spec fn preflight_run(seeds: Seq<MemberSeed>, required: bool) -> Result<Seq<Finding>, Error>
    decreases seeds.len(),
{
    if seeds.len() == 0 {
        Ok(Seq::empty())
    } else {
        match preflight_run(seeds.drop_last(), required) {
            Err(e) => Err(e),
            Ok(found) => {
                let s = seeds.last();
                if preflight_fails(s.probe, s.expected_branch@, required) {
                    Err(s.probe.head_valid->Err_0)
                } else {
                    Ok(found + preflight_findings(s.probe, s.path@, s.expected_branch@, required))
                }
            },
        }
    }
}

proof fn lemma_preflight_stays(seeds: Seq<MemberSeed>, required: bool, i: int)
    requires
        0 <= i <= seeds.len(),
        preflight_run(seeds.take(i), required) is Err,
    ensures
        preflight_run(seeds, required) == preflight_run(seeds.take(i), required),
    decreases seeds.len() - i,
{
    if i == seeds.len() {
        assert(seeds.take(i) =~= seeds);
    } else {
        assert(seeds.drop_last().take(i) =~= seeds.take(i));
        lemma_preflight_stays(seeds.drop_last(), required, i);
    }
}

/// The seeds in reverse order, so that popping takes them in order.
fn reversed(v: Vec<MemberSeed>) -> (r: Vec<MemberSeed>)
    ensures
        r@.len() == v@.len(),
        forall|k: int| 0 <= k < r@.len() ==> #[trigger] r@[k] == v@[v@.len() - 1 - k],
{
    let ghost all = v@;
    let mut src = v;
    let mut out: Vec<MemberSeed> = Vec::new();
    while src.len() > 0
        invariant
            src@ == all.take(src@.len() as int),
            out@.len() + src@.len() == all.len(),
            forall|k: int| 0 <= k < out@.len() ==> #[trigger] out@[k] == all[all.len() - 1 - k],
        decreases src@.len(),
    {
        let x = match src.pop() {
            Some(x) => x,
            None => {
                return out;
            },
        };
        proof {
            assert(src@ =~= all.take(src@.len() as int));
        }
        out.push(x);
    }
    out
}

/// The landing preflight of a Task: its agreement audit's target and
/// faults, then each member's preflight in order; the boundary is required
/// from registry version 2 on.
pub fn preflight(audit: Audit, version: u32, seeds: Vec<MemberSeed>) -> (r: Result<Preflight, Error>)
    ensures
        match preflight_run(seeds@, version >= 2) {
            Err(e) => r == Err::<Preflight, Error>(e),
            Ok(found) => r matches Ok(p) && {
                &&& p.target == audit.target
                &&& shown(p.faults@) == shown(audit.faults@) + found
                &&& p.members@.len() == seeds@.len()
                &&& forall|k: int| 0 <= k < seeds@.len() ==> settles(#[trigger] p.members@[k], seeds@[k])
            },
        },
{
    let required = version >= 2;
    let mut held = Preflight { target: audit.target, members: Vec::new(), faults: audit.faults };
    let ghost first = shown(held.faults@);
    let count = seeds.len();
    let ghost all = seeds@;
    assert(all.len() == count);
    let mut rest = reversed(seeds);
    let mut i: usize = 0;
    proof {
        assert(all.take(0) =~= Seq::<MemberSeed>::empty());
        assert(first + Seq::<Finding>::empty() =~= first);
    }
    while rest.len() > 0
        invariant
            i <= all.len(),
            all == seeds@,
            all.len() <= usize::MAX,
            rest@.len() == all.len() - i,
            forall|k: int| 0 <= k < rest@.len() ==> #[trigger] rest@[k] == all[all.len() - 1 - k],
            required == (version >= 2),
            held.target == audit.target,
            first == shown(audit.faults@),
            preflight_run(all.take(i as int), required) matches Ok(found) && shown(held.faults@) == first + found,
            held.members@.len() == i,
            forall|k: int| 0 <= k < i ==> settles(#[trigger] held.members@[k], all[k]),
        decreases rest@.len(),
    {
        let popped = rest.pop();
        proof {
            assert(popped is Some);
        }
        let seed = popped.unwrap();
        proof {
            assert(seed == all[i as int]);
            let t = all.take(i + 1);
            assert(t.drop_last() =~= all.take(i as int));
            assert(t.last() == all[i as int]);
        }
        let ghost found = preflight_run(all.take(i as int), required)->Ok_0;
        let ghost before = shown(held.faults@);
        let m = match member_preflight(&mut held.faults, seed, required) {
            Err(e) => {
                proof {
                    lemma_preflight_stays(all, required, i + 1);
                }
                return Err(e);
            },
            Ok(m) => m,
        };
        proof {
            let more = preflight_findings(all[i as int].probe, all[i as int].path@, all[i as int].expected_branch@, required);
            assert(first + found + more =~= first + (found + more));
        }
        held.members.push(m);
        i = i + 1;
    }
    proof {
        assert(all.take(all.len() as int) =~= all);
    }
    Ok(held)
}

} // verus!
