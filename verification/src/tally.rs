//! The counts of a legacy Space's census: how many of each thing the
//! migration will carry, summed over its Domains, Tasks and Members.
use crate::census::{Census, Evidence, RELEASE, fingerprint, hex, in_order, message, sha256, sort_evidence};
use crate::error::Error;
use vstd::prelude::*;

verus! {

/// A declared Member as the census counts it: its write Claims and whether
/// it declares a Boundary.
#[derive(Clone, Copy, Debug, PartialEq, Eq, Structural)]
pub struct MemberTally {
    pub claims: usize,
    pub boundary: bool,
}

/// A legacy Task as the census counts it: its Members, its dependencies,
/// its extra and current facts, its Phases and its artifacts.
#[derive(Clone, Debug, PartialEq, Eq)]
pub struct WorkTally {
    pub members: Vec<MemberTally>,
    pub dependencies: usize,
    pub extra: usize,
    pub facts: usize,
    pub phases: usize,
    pub artifacts: usize,
}

/// A legacy Domain as the census counts it: its registered repositories
/// and its Tasks.
#[derive(Clone, Debug, PartialEq, Eq)]
pub struct RealmTally {
    pub repositories: usize,
    pub works: Vec<WorkTally>,
}

/// The sum of `f` over a sequence.
pub open spec fn total<T>(s: Seq<T>, f: spec_fn(T) -> nat) -> nat
    decreases s.len(),
{
    if s.len() == 0 {
        0
    } else {
        total(s.drop_last(), f) + f(s.last())
    }
}

pub proof fn lemma_total_step<T>(s: Seq<T>, f: spec_fn(T) -> nat, i: int)
    requires
        0 <= i < s.len(),
    ensures
        total(s.take(i + 1), f) == total(s.take(i), f) + f(s[i]),
{
    assert(s.take(i + 1).drop_last() =~= s.take(i));
}

pub proof fn lemma_total_prefix<T>(s: Seq<T>, f: spec_fn(T) -> nat, i: int)
    requires
        0 <= i <= s.len(),
    ensures
        total(s.take(i), f) <= total(s, f),
    decreases s.len() - i,
{
    if i < s.len() {
        lemma_total_step(s, f, i);
        lemma_total_prefix(s, f, i + 1);
    } else {
        assert(s.take(i) =~= s);
    }
}

pub open spec fn claims() -> spec_fn(MemberTally) -> nat {
    |m: MemberTally| m.claims as nat
}

pub open spec fn bounds() -> spec_fn(MemberTally) -> nat {
    |m: MemberTally| if m.boundary { 1nat } else { 0nat }
}

pub open spec fn members_of() -> spec_fn(WorkTally) -> nat {
    |w: WorkTally| w.members@.len()
}

pub open spec fn claims_of() -> spec_fn(WorkTally) -> nat {
    |w: WorkTally| total(w.members@, claims())
}

pub open spec fn bounds_of() -> spec_fn(WorkTally) -> nat {
    |w: WorkTally| total(w.members@, bounds())
}

pub open spec fn dependencies_of() -> spec_fn(WorkTally) -> nat {
    |w: WorkTally| w.dependencies as nat
}

pub open spec fn current_of() -> spec_fn(WorkTally) -> nat {
    |w: WorkTally| (w.extra + w.facts) as nat
}

pub open spec fn phases_of() -> spec_fn(WorkTally) -> nat {
    |w: WorkTally| w.phases as nat
}

pub open spec fn artifacts_of() -> spec_fn(WorkTally) -> nat {
    |w: WorkTally| w.artifacts as nat
}

pub open spec fn repositories_in() -> spec_fn(RealmTally) -> nat {
    |r: RealmTally| r.repositories as nat
}

pub open spec fn tasks_in() -> spec_fn(RealmTally) -> nat {
    |r: RealmTally| r.works@.len()
}

/// A Task-level count summed over a Domain's Tasks.
pub open spec fn over(g: spec_fn(WorkTally) -> nat) -> spec_fn(RealmTally) -> nat {
    |r: RealmTally| total(r.works@, g)
}

/// The counts of a census fit the machine's `usize`.
pub open spec fn fits(realms: Seq<RealmTally>) -> bool {
    &&& total(realms, repositories_in()) <= usize::MAX
    &&& total(realms, tasks_in()) <= usize::MAX
    &&& total(realms, over(members_of())) <= usize::MAX
    &&& total(realms, over(claims_of())) <= usize::MAX
    &&& total(realms, over(bounds_of())) <= usize::MAX
    &&& total(realms, over(dependencies_of())) <= usize::MAX
    &&& total(realms, over(current_of())) <= usize::MAX
    &&& total(realms, over(phases_of())) <= usize::MAX
    &&& total(realms, over(artifacts_of())) <= usize::MAX
}

struct Counted {
    member: usize,
    claim: usize,
    boundary: usize,
    dependency: usize,
    current: usize,
    phase: usize,
    artifact: usize,
}

fn work_count(w: &WorkTally) -> (t: Counted)
    requires
        total(w.members@, claims()) <= usize::MAX,
        w.extra + w.facts <= usize::MAX,
    ensures
        t.member == w.members@.len(),
        t.claim == total(w.members@, claims()),
        t.boundary == total(w.members@, bounds()),
        t.dependency == w.dependencies,
        t.current == w.extra + w.facts,
        t.phase == w.phases,
        t.artifact == w.artifacts,
{
    let ms = &w.members;
    let mut claim: usize = 0;
    let mut boundary: usize = 0;
    let mut i: usize = 0;
    proof {
        assert(ms@.take(0) =~= Seq::<MemberTally>::empty());
    }
    while i < ms.len()
        invariant
            i <= ms@.len(),
            ms@ == w.members@,
            total(ms@, claims()) <= usize::MAX,
            claim == total(ms@.take(i as int), claims()),
            boundary == total(ms@.take(i as int), bounds()),
            boundary <= i,
        decreases ms@.len() - i,
    {
        proof {
            lemma_total_step(ms@, claims(), i as int);
            lemma_total_step(ms@, bounds(), i as int);
            lemma_total_prefix(ms@, claims(), i + 1);
        }
        claim = claim + ms[i].claims;
        if ms[i].boundary {
            boundary = boundary + 1;
        }
        i = i + 1;
    }
    proof {
        assert(ms@.take(ms@.len() as int) =~= ms@);
    }
    Counted {
        member: ms.len(),
        claim,
        boundary,
        dependency: w.dependencies,
        current: w.extra + w.facts,
        phase: w.phases,
        artifact: w.artifacts,
    }
}

proof fn lemma_term<T>(s: Seq<T>, f: spec_fn(T) -> nat, i: int)
    requires
        0 <= i < s.len(),
    ensures
        total(s.take(i), f) + f(s[i]) == total(s.take(i + 1), f),
        total(s.take(i + 1), f) <= total(s, f),
        f(s[i]) <= total(s, f),
{
    lemma_total_step(s, f, i);
    lemma_total_prefix(s, f, i + 1);
}

fn realm_count(r: &RealmTally) -> (t: Counted)
    requires
        total(r.works@, members_of()) <= usize::MAX,
        total(r.works@, claims_of()) <= usize::MAX,
        total(r.works@, bounds_of()) <= usize::MAX,
        total(r.works@, dependencies_of()) <= usize::MAX,
        total(r.works@, current_of()) <= usize::MAX,
        total(r.works@, phases_of()) <= usize::MAX,
        total(r.works@, artifacts_of()) <= usize::MAX,
    ensures
        t.member == total(r.works@, members_of()),
        t.claim == total(r.works@, claims_of()),
        t.boundary == total(r.works@, bounds_of()),
        t.dependency == total(r.works@, dependencies_of()),
        t.current == total(r.works@, current_of()),
        t.phase == total(r.works@, phases_of()),
        t.artifact == total(r.works@, artifacts_of()),
{
    let ws = &r.works;
    let mut acc = Counted { member: 0, claim: 0, boundary: 0, dependency: 0, current: 0, phase: 0, artifact: 0 };
    let mut i: usize = 0;
    proof {
        assert(ws@.take(0) =~= Seq::<WorkTally>::empty());
    }
    while i < ws.len()
        invariant
            i <= ws@.len(),
            ws@ == r.works@,
            total(ws@, members_of()) <= usize::MAX,
            total(ws@, claims_of()) <= usize::MAX,
            total(ws@, bounds_of()) <= usize::MAX,
            total(ws@, dependencies_of()) <= usize::MAX,
            total(ws@, current_of()) <= usize::MAX,
            total(ws@, phases_of()) <= usize::MAX,
            total(ws@, artifacts_of()) <= usize::MAX,
            acc.member == total(ws@.take(i as int), members_of()),
            acc.claim == total(ws@.take(i as int), claims_of()),
            acc.boundary == total(ws@.take(i as int), bounds_of()),
            acc.dependency == total(ws@.take(i as int), dependencies_of()),
            acc.current == total(ws@.take(i as int), current_of()),
            acc.phase == total(ws@.take(i as int), phases_of()),
            acc.artifact == total(ws@.take(i as int), artifacts_of()),
        decreases ws@.len() - i,
    {
        proof {
            let k = i as int;
            lemma_term(ws@, members_of(), k);
            lemma_term(ws@, claims_of(), k);
            lemma_term(ws@, bounds_of(), k);
            lemma_term(ws@, dependencies_of(), k);
            lemma_term(ws@, current_of(), k);
            lemma_term(ws@, phases_of(), k);
            lemma_term(ws@, artifacts_of(), k);
        }
        let t = work_count(&ws[i]);
        acc = Counted {
            member: acc.member + t.member,
            claim: acc.claim + t.claim,
            boundary: acc.boundary + t.boundary,
            dependency: acc.dependency + t.dependency,
            current: acc.current + t.current,
            phase: acc.phase + t.phase,
            artifact: acc.artifact + t.artifact,
        };
        i = i + 1;
    }
    proof {
        assert(ws@.take(ws@.len() as int) =~= ws@);
    }
    acc
}

/// The census of a legacy Space's Domains and evidence: how many Domains,
/// repositories, Tasks, Members, write Claims, Boundaries, dependencies,
/// current facts, Phases and artifacts it holds.  The fingerprint is left
/// empty, to be filled once the evidence is final.
pub fn count(realms: &[RealmTally], evidence: Vec<Evidence>) -> (r: Result<Census, Error>)
    requires
        fits(realms@),
    ensures
        r matches Ok(c) && {
            &&& c.release@ == RELEASE@
            &&& c.fingerprint@.len() == 0
            &&& c.domain == realms@.len()
            &&& c.repository == total(realms@, repositories_in())
            &&& c.task == total(realms@, tasks_in())
            &&& c.member == total(realms@, over(members_of()))
            &&& c.claim == total(realms@, over(claims_of()))
            &&& c.boundary == total(realms@, over(bounds_of()))
            &&& c.dependency == total(realms@, over(dependencies_of()))
            &&& c.current == total(realms@, over(current_of()))
            &&& c.phase == total(realms@, over(phases_of()))
            &&& c.artifact == total(realms@, over(artifacts_of()))
            &&& c.evidence == evidence
        },
{
    let mut repository: usize = 0;
    let mut task: usize = 0;
    let mut acc = Counted { member: 0, claim: 0, boundary: 0, dependency: 0, current: 0, phase: 0, artifact: 0 };
    let mut i: usize = 0;
    proof {
        assert(realms@.take(0) =~= Seq::<RealmTally>::empty());
    }
    while i < realms.len()
        invariant
            i <= realms@.len(),
            fits(realms@),
            repository == total(realms@.take(i as int), repositories_in()),
            task == total(realms@.take(i as int), tasks_in()),
            acc.member == total(realms@.take(i as int), over(members_of())),
            acc.claim == total(realms@.take(i as int), over(claims_of())),
            acc.boundary == total(realms@.take(i as int), over(bounds_of())),
            acc.dependency == total(realms@.take(i as int), over(dependencies_of())),
            acc.current == total(realms@.take(i as int), over(current_of())),
            acc.phase == total(realms@.take(i as int), over(phases_of())),
            acc.artifact == total(realms@.take(i as int), over(artifacts_of())),
        decreases realms@.len() - i,
    {
        let ghost s = realms@;
        let ghost realm = realms@[i as int];
        proof {
            let k = i as int;
            lemma_term(s, repositories_in(), k);
            lemma_term(s, tasks_in(), k);
            lemma_term(s, over(members_of()), k);
            lemma_term(s, over(claims_of()), k);
            lemma_term(s, over(bounds_of()), k);
            lemma_term(s, over(dependencies_of()), k);
            lemma_term(s, over(current_of()), k);
            lemma_term(s, over(phases_of()), k);
            lemma_term(s, over(artifacts_of()), k);
            assert(over(members_of())(realm) == total(realm.works@, members_of()));
            assert(over(claims_of())(realm) == total(realm.works@, claims_of()));
            assert(over(bounds_of())(realm) == total(realm.works@, bounds_of()));
            assert(over(dependencies_of())(realm) == total(realm.works@, dependencies_of()));
            assert(over(current_of())(realm) == total(realm.works@, current_of()));
            assert(over(phases_of())(realm) == total(realm.works@, phases_of()));
            assert(over(artifacts_of())(realm) == total(realm.works@, artifacts_of()));
        }
        let t = realm_count(&realms[i]);
        repository = repository + realms[i].repositories;
        task = task + realms[i].works.len();
        acc = Counted {
            member: acc.member + t.member,
            claim: acc.claim + t.claim,
            boundary: acc.boundary + t.boundary,
            dependency: acc.dependency + t.dependency,
            current: acc.current + t.current,
            phase: acc.phase + t.phase,
            artifact: acc.artifact + t.artifact,
        };
        i = i + 1;
    }
    proof {
        assert(realms@.take(realms@.len() as int) =~= realms@);
    }
    Ok(Census {
        release: String::from_str(RELEASE),
        fingerprint: String::new(),
        domain: realms.len(),
        repository,
        task,
        member: acc.member,
        claim: acc.claim,
        boundary: acc.boundary,
        dependency: acc.dependency,
        current: acc.current,
        phase: acc.phase,
        artifact: acc.artifact,
        evidence,
    })
}

/// The census of a legacy Space: its counts, its evidence in (path, kind)
/// order, and the fingerprint of that evidence.
pub fn seal(realms: &[RealmTally], evidence: &[Evidence]) -> (r: Result<Census, Error>)
    requires
        fits(realms@),
    ensures
        r matches Ok(c) && {
            &&& c.release@ == RELEASE@
            &&& c.evidence@ == in_order(evidence@)
            &&& c.fingerprint@ == hex(sha256(message(in_order(evidence@))))
            &&& c.domain == realms@.len()
            &&& c.repository == total(realms@, repositories_in())
            &&& c.task == total(realms@, tasks_in())
            &&& c.member == total(realms@, over(members_of()))
            &&& c.claim == total(realms@, over(claims_of()))
            &&& c.boundary == total(realms@, over(bounds_of()))
            &&& c.dependency == total(realms@, over(dependencies_of()))
            &&& c.current == total(realms@, over(current_of()))
            &&& c.phase == total(realms@, over(phases_of()))
            &&& c.artifact == total(realms@, over(artifacts_of()))
        },
{
    let sorted = sort_evidence(evidence);
    let mut census = match count(realms, sorted) {
        Ok(c) => c,
        Err(e) => {
            return Err(e);
        },
    };
    census.fingerprint = fingerprint(census.evidence.as_slice());
    Ok(census)
}

} // verus!
