//! The decisions of an activation: whether the legacy Space still matches
//! its staged census, whether the targets are free, and whether any legacy
//! payload survived the move.
use crate::census::{Census, Evidence, staged, stage_files};
use crate::error::Error;
use crate::prepare::{Fault, raises};
use crate::seat::{join_path, joined};
use crate::text::{join, same};
use vstd::prelude::*;

verus! {

pub open spec fn digest_text(d: Option<String>) -> Option<Seq<char>> {
    match d {
        Some(s) => Some(s@),
        None => None,
    }
}

/// Two pieces of evidence say the same.
pub open spec fn evidence_same(a: Evidence, b: Evidence) -> bool {
    &&& a.path@ == b.path@
    &&& a.kind@ == b.kind@
    &&& a.bytes == b.bytes
    &&& a.mode == b.mode
    &&& digest_text(a.digest) == digest_text(b.digest)
}

/// Two censuses say the same: release, fingerprint, every count and every
/// piece of evidence, in order.
pub open spec fn census_same(a: Census, b: Census) -> bool {
    &&& a.release@ == b.release@
    &&& a.fingerprint@ == b.fingerprint@
    &&& a.domain == b.domain
    &&& a.repository == b.repository
    &&& a.task == b.task
    &&& a.member == b.member
    &&& a.claim == b.claim
    &&& a.boundary == b.boundary
    &&& a.dependency == b.dependency
    &&& a.current == b.current
    &&& a.phase == b.phase
    &&& a.artifact == b.artifact
    &&& a.evidence@.len() == b.evidence@.len()
    &&& forall|i: int| 0 <= i < a.evidence@.len() ==> evidence_same(#[trigger] a.evidence@[i], b.evidence@[i])
}

fn same_digest(a: &Option<String>, b: &Option<String>) -> (r: bool)
    ensures
        r == (digest_text(*a) == digest_text(*b)),
{
    match (a, b) {
        (None, None) => true,
        (Some(x), Some(y)) => same(x.as_str(), y.as_str()),
        _ => false,
    }
}

fn same_evidence(a: &Evidence, b: &Evidence) -> (r: bool)
    ensures
        r == evidence_same(*a, *b),
{
    same(a.path.as_str(), b.path.as_str()) && same(a.kind.as_str(), b.kind.as_str()) && a.bytes == b.bytes && a.mode == b.mode && same_digest(&a.digest, &b.digest)
}

fn same_census(a: &Census, b: &Census) -> (r: bool)
    ensures
        r == census_same(*a, *b),
{
    if !same(a.release.as_str(), b.release.as_str()) || !same(a.fingerprint.as_str(), b.fingerprint.as_str()) {
        return false;
    }
    if a.domain != b.domain || a.repository != b.repository || a.task != b.task || a.member != b.member || a.claim != b.claim {
        return false;
    }
    if a.boundary != b.boundary || a.dependency != b.dependency || a.current != b.current || a.phase != b.phase || a.artifact != b.artifact {
        return false;
    }
    if a.evidence.len() != b.evidence.len() {
        return false;
    }
    let mut i: usize = 0;
    while i < a.evidence.len()
        invariant
            i <= a.evidence@.len(),
            a.evidence@.len() == b.evidence@.len(),
            forall|j: int| 0 <= j < i ==> evidence_same(#[trigger] a.evidence@[j], b.evidence@[j]),
        decreases a.evidence@.len() - i,
    {
        if !same_evidence(&a.evidence[i], &b.evidence[i]) {
            return false;
        }
        i = i + 1;
    }
    true
}

/// Refuses an activation of a Space that changed since it was staged:
/// `found` is the census read now, `staged` the one staged.
pub fn unchanged(found: &Census, staged: &Census) -> (r: Result<(), Error>)
    ensures
        census_same(*found, *staged) ==> r is Ok,
        !census_same(*found, *staged) ==> (r matches Err(e) && raises(e, ("concord.migration.changed"@, "legacy Space changed after staging"@))),
{
    if !same_census(found, staged) {
        return Err(Error::said("concord.migration.changed", "legacy Space changed after staging"));
    }
    Ok(())
}

/// A legacy Task's memory at activation: its path, and whether its
/// resources and its artifacts directories stand.
#[derive(Clone, Debug, PartialEq, Eq)]
pub struct MemoryCheck {
    pub path: String,
    pub resources: bool,
    pub artifacts: bool,
}

/// A legacy Domain at activation: its registry's path, whether the
/// registry is still a file, and its Tasks' memories.
#[derive(Clone, Debug, PartialEq, Eq)]
pub struct RegistryCheck {
    pub path: String,
    pub present: bool,
    pub works: Vec<MemoryCheck>,
}

pub open spec fn memory_fault(works: Seq<MemoryCheck>) -> Option<Fault>
    decreases works.len(),
{
    if works.len() == 0 {
        None
    } else if works[0].resources && works[0].artifacts {
        Some(("concord.migration.artifact"@, "Artifact target is occupied: "@ + works[0].path@))
    } else {
        memory_fault(works.drop_first())
    }
}

/// The first refusal among the Domains, each checked whole before the
/// next: its registry gone, else a Task whose artifacts target is taken.
pub open spec fn registry_fault(realms: Seq<RegistryCheck>) -> Option<Fault>
    decreases realms.len(),
{
    if realms.len() == 0 {
        None
    } else if !realms[0].present {
        Some(("concord.migration.registry"@, "legacy registry disappeared: "@ + realms[0].path@))
    } else {
        match memory_fault(realms[0].works@) {
            Some(f) => Some(f),
            None => registry_fault(realms.drop_first()),
        }
    }
}

fn check_memories(works: &Vec<MemoryCheck>) -> (r: Result<(), Error>)
    ensures
        match memory_fault(works@) {
            None => r is Ok,
            Some(f) => r matches Err(e) && raises(e, f),
        },
{
    let mut i: usize = 0;
    proof {
        assert(works@.skip(0) =~= works@);
    }
    while i < works.len()
        invariant
            i <= works@.len(),
            memory_fault(works@) == memory_fault(works@.skip(i as int)),
        decreases works@.len() - i,
    {
        proof {
            assert(works@.skip(i as int).drop_first() =~= works@.skip(i + 1));
        }
        if works[i].resources && works[i].artifacts {
            return Err(Error::typed("concord.migration.artifact", join("Artifact target is occupied: ", works[i].path.as_str())));
        }
        i = i + 1;
    }
    proof {
        assert(works@.skip(i as int) =~= Seq::<MemoryCheck>::empty());
    }
    Ok(())
}

/// What the activation's preflight decides: the target or rollback seat
/// taken (`occupied`), a stage that holds other than the database and the
/// possession, or the first Domain refusal.
pub open spec fn preflight_fault(occupied: bool, stage: Seq<Seq<char>>, realms: Seq<RegistryCheck>) -> Option<Fault> {
    if occupied {
        Some(("concord.migration.target"@, "activation target or rollback seat is occupied"@))
    } else if !staged(stage) {
        Some(("concord.migration.stage"@, "staged estate contains unexpected files"@))
    } else {
        registry_fault(realms)
    }
}

/// Checks that an activation may move the Space: targets free, the stage
/// exact, every legacy registry still present and no artifacts target
/// taken.
pub fn preflight(occupied: bool, stage: &Vec<String>, realms: &Vec<RegistryCheck>) -> (r: Result<(), Error>)
    ensures
        match preflight_fault(occupied, stage.deep_view(), realms@) {
            None => r is Ok,
            Some(f) => r matches Err(e) && raises(e, f),
        },
{
    if occupied {
        return Err(Error::said("concord.migration.target", "activation target or rollback seat is occupied"));
    }
    match stage_files(stage) {
        Err(e) => {
            return Err(e);
        },
        Ok(()) => {},
    }
    let mut i: usize = 0;
    proof {
        assert(realms@.skip(0) =~= realms@);
    }
    while i < realms.len()
        invariant
            i <= realms@.len(),
            registry_fault(realms@) == registry_fault(realms@.skip(i as int)),
            !occupied,
            staged(stage.deep_view()),
        decreases realms@.len() - i,
    {
        proof {
            assert(realms@.skip(i as int).drop_first() =~= realms@.skip(i + 1));
        }
        if !realms[i].present {
            return Err(Error::typed("concord.migration.registry", join("legacy registry disappeared: ", realms[i].path.as_str())));
        }
        match check_memories(&realms[i].works) {
            Err(e) => {
                return Err(e);
            },
            Ok(()) => {},
        }
        i = i + 1;
    }
    proof {
        assert(realms@.skip(i as int) =~= Seq::<RegistryCheck>::empty());
    }
    Ok(())
}

/// The first legacy payload path still standing after activation, if any;
/// each path comes with whether it exists.
pub open spec fn remaining(legacy: Seq<(String, bool)>) -> Option<Seq<char>>
    decreases legacy.len(),
{
    if legacy.len() == 0 {
        None
    } else if legacy[0].1 {
        Some(legacy[0].0@)
    } else {
        remaining(legacy.drop_first())
    }
}

/// Refuses a migrated Task whose legacy MAIN, phases or resources still
/// stand; else gives back the number of artifacts the estate holds for it.
pub fn residue(artifacts: usize, legacy: &Vec<(String, bool)>) -> (r: Result<usize, Error>)
    ensures
        match remaining(legacy@) {
            None => r == Ok::<usize, Error>(artifacts),
            Some(p) => r matches Err(e) && raises(e, ("concord.migration.payload"@, "legacy payload remains active: "@ + p)),
        },
{
    let mut i: usize = 0;
    proof {
        assert(legacy@.skip(0) =~= legacy@);
    }
    while i < legacy.len()
        invariant
            i <= legacy@.len(),
            remaining(legacy@) == remaining(legacy@.skip(i as int)),
        decreases legacy@.len() - i,
    {
        proof {
            assert(legacy@.skip(i as int).drop_first() =~= legacy@.skip(i + 1));
        }
        if legacy[i].1 {
            return Err(Error::typed("concord.migration.payload", join("legacy payload remains active: ", legacy[i].0.as_str())));
        }
        i = i + 1;
    }
    proof {
        assert(legacy@.skip(i as int) =~= Seq::<(String, bool)>::empty());
    }
    Ok(artifacts)
}

/// What a legacy registry holds once its Domain is activated: the refusal
/// that sends older releases to the migration.
pub const MARKER: &'static str = "version = 4\nmigration = \"v0.10.0\"\n";

/// One step of an activation: a move, a refusal marker written at a path,
/// or a directory removed where it stands empty.
#[derive(Clone, Debug, PartialEq, Eq)]
pub enum Step {
    Shift { from: String, to: String },
    Marker { path: String },
    Prune { path: String },
}

/// A step as plain values: its kind (0 a move, 1 a marker, 2 a removal)
/// and its paths.
pub type StepView = (int, Seq<char>, Seq<char>);

pub open spec fn step_view(s: Step) -> StepView {
    match s {
        Step::Shift { from, to } => (0, from@, to@),
        Step::Marker { path } => (1, path@, Seq::empty()),
        Step::Prune { path } => (2, path@, Seq::empty()),
    }
}

pub open spec fn step_views(s: Seq<Step>) -> Seq<StepView> {
    s.map_values(|x: Step| step_view(x))
}

/// A legacy Task at activation: its name and whether its memory, MAIN,
/// phases and resources stand.
#[derive(Clone, Debug, PartialEq, Eq)]
pub struct WorkSeat {
    pub name: String,
    pub memory: bool,
    pub main: bool,
    pub phases: bool,
    pub resources: bool,
}

/// A legacy Domain at activation: its name and its Tasks.
#[derive(Clone, Debug, PartialEq, Eq)]
pub struct RealmSeat {
    pub name: String,
    pub works: Vec<WorkSeat>,
}

pub open spec fn registry_path(space: Seq<char>, realm: Seq<char>) -> Seq<char> {
    joined(joined(space, realm), ".tasks/tasks.toml"@)
}

pub open spec fn registry_archive(rollback: Seq<char>, realm: Seq<char>) -> Seq<char> {
    joined(joined(joined(rollback, "domains"@), realm), "tasks.toml"@)
}

/// Each registry moved to the rollback seat, a refusal marker left in its
/// place, Domain by Domain.
pub open spec fn registry_steps(space: Seq<char>, rollback: Seq<char>, realms: Seq<RealmSeat>) -> Seq<StepView>
    decreases realms.len(),
{
    if realms.len() == 0 {
        Seq::empty()
    } else {
        let r = realms.last().name@;
        registry_steps(space, rollback, realms.drop_last()) + seq![(0, registry_path(space, r), registry_archive(rollback, r)), (1, registry_path(space, r), Seq::<char>::empty())]
    }
}

/// The steps of one Task: its MAIN and phases archived, its resources
/// become its artifacts, then its emptied directories removed.
pub open spec fn work_steps(space: Seq<char>, rollback: Seq<char>, realm: Seq<char>, w: WorkSeat) -> Seq<StepView> {
    let task = joined(joined(joined(space, realm), ".tasks"@), w.name@);
    let archive = joined(joined(joined(rollback, "tasks"@), realm), w.name@);
    let memory = joined(task, ".task"@);
    let artifacts = joined(memory, "artifacts"@);
    (if !w.memory {
        Seq::<StepView>::empty()
    } else {
        (if w.main { seq![(0, joined(memory, "MAIN.md"@), joined(archive, "MAIN.md"@))] } else { Seq::<StepView>::empty() })
            + (if w.phases { seq![(0, joined(memory, "phases"@), joined(archive, "phases"@))] } else { Seq::<StepView>::empty() })
            + (if w.resources { seq![(0, joined(memory, "resources"@), artifacts), (2, artifacts, Seq::<char>::empty())] } else { Seq::<StepView>::empty() })
            + seq![(2, memory, Seq::<char>::empty())]
    }) + seq![(2, task, Seq::<char>::empty())]
}

pub open spec fn works_steps(space: Seq<char>, rollback: Seq<char>, realm: Seq<char>, works: Seq<WorkSeat>) -> Seq<StepView>
    decreases works.len(),
{
    if works.len() == 0 {
        Seq::empty()
    } else {
        works_steps(space, rollback, realm, works.drop_last()) + work_steps(space, rollback, realm, works.last())
    }
}

pub open spec fn realms_steps(space: Seq<char>, rollback: Seq<char>, realms: Seq<RealmSeat>) -> Seq<StepView>
    decreases realms.len(),
{
    if realms.len() == 0 {
        Seq::empty()
    } else {
        realms_steps(space, rollback, realms.drop_last()) + works_steps(space, rollback, realms.last().name@, realms.last().works@)
    }
}

/// The whole activation: the registries, then every Task, then the staged
/// database and possession moved into the Space's seat.
pub open spec fn activation(space: Seq<char>, rollback: Seq<char>, stage: Seq<char>, realms: Seq<RealmSeat>) -> Seq<StepView> {
    let root = joined(space, ".concord"@);
    registry_steps(space, rollback, realms) + realms_steps(space, rollback, realms) + seq![
        (0, joined(stage, "estate.sqlite3"@), joined(root, "estate.sqlite3"@)),
        (0, joined(stage, "sudo"@), joined(root, "sudo"@)),
    ]
}

fn push_step(out: &mut Vec<Step>, s: Step)
    ensures
        step_views(final(out)@) == step_views(old(out)@).push(step_view(s)),
{
    let ghost before = out@;
    out.push(s);
    proof {
        assert(step_views(out@) =~= step_views(before).push(step_view(s)));
    }
}

fn plan_work(out: &mut Vec<Step>, space: &str, rollback: &str, realm: &str, w: &WorkSeat)
    ensures
        step_views(final(out)@) == step_views(old(out)@) + work_steps(space@, rollback@, realm@, *w),
{
    let ghost before = step_views(out@);
    let a = join_path(space, realm);
    let b = join_path(a.as_str(), ".tasks");
    let task = join_path(b.as_str(), w.name.as_str());
    let c = join_path(rollback, "tasks");
    let d = join_path(c.as_str(), realm);
    let archive = join_path(d.as_str(), w.name.as_str());
    let memory = join_path(task.as_str(), ".task");
    let artifacts = join_path(memory.as_str(), "artifacts");
    if w.memory {
        if w.main {
            push_step(out, Step::Shift { from: join_path(memory.as_str(), "MAIN.md"), to: join_path(archive.as_str(), "MAIN.md") });
        }
        let ghost m1 = step_views(out@);
        if w.phases {
            push_step(out, Step::Shift { from: join_path(memory.as_str(), "phases"), to: join_path(archive.as_str(), "phases") });
        }
        let ghost m2 = step_views(out@);
        if w.resources {
            push_step(out, Step::Shift { from: join_path(memory.as_str(), "resources"), to: artifacts.clone() });
            push_step(out, Step::Prune { path: artifacts });
        }
        let ghost m3 = step_views(out@);
        push_step(out, Step::Prune { path: memory });
        proof {
            let mm = joined(joined(joined(joined(space@, realm@), ".tasks"@), w.name@), ".task"@);
            let ar = joined(joined(joined(rollback@, "tasks"@), realm@), w.name@);
            let x = if w.main { seq![(0, joined(mm, "MAIN.md"@), joined(ar, "MAIN.md"@))] } else { Seq::<StepView>::empty() };
            let y = if w.phases { seq![(0, joined(mm, "phases"@), joined(ar, "phases"@))] } else { Seq::<StepView>::empty() };
            let z = if w.resources { seq![(0, joined(mm, "resources"@), joined(mm, "artifacts"@)), (2, joined(mm, "artifacts"@), Seq::<char>::empty())] } else { Seq::<StepView>::empty() };
            assert(m1 =~= before + x);
            assert(m2 =~= m1 + y);
            assert(m3 =~= m2 + z);
        }
    }
    push_step(out, Step::Prune { path: task });
    proof {
        assert(step_views(out@) =~= before + work_steps(space@, rollback@, realm@, *w));
    }
}

/// The steps of an activation, in the order they are taken: each Domain's
/// registry archived and replaced by a refusal marker, each Task's memory
/// archived or turned into artifacts and its emptied directories removed,
/// then the staged estate moved into the Space's seat.
pub fn plan(space: &str, rollback: &str, stage: &str, realms: &Vec<RealmSeat>) -> (r: Vec<Step>)
    ensures
        step_views(r@) == activation(space@, rollback@, stage@, realms@),
{
    let mut out: Vec<Step> = Vec::new();
    let mut i: usize = 0;
    proof {
        assert(realms@.take(0) =~= Seq::<RealmSeat>::empty());
        assert(step_views(out@) =~= Seq::<StepView>::empty());
    }
    while i < realms.len()
        invariant
            i <= realms@.len(),
            step_views(out@) == registry_steps(space@, rollback@, realms@.take(i as int)),
        decreases realms@.len() - i,
    {
        proof {
            assert(realms@.take(i + 1).drop_last() =~= realms@.take(i as int));
        }
        let name = realms[i].name.as_str();
        let a = join_path(space, name);
        let registry = join_path(a.as_str(), ".tasks/tasks.toml");
        let b = join_path(rollback, "domains");
        let c = join_path(b.as_str(), name);
        push_step(&mut out, Step::Shift { from: registry.clone(), to: join_path(c.as_str(), "tasks.toml") });
        push_step(&mut out, Step::Marker { path: registry });
        i = i + 1;
    }
    proof {
        assert(realms@.take(realms@.len() as int) =~= realms@);
    }
    let ghost first = step_views(out@);
    let mut i: usize = 0;
    proof {
        assert(first + realms_steps(space@, rollback@, realms@.take(0)) =~= first);
    }
    while i < realms.len()
        invariant
            i <= realms@.len(),
            first == registry_steps(space@, rollback@, realms@),
            step_views(out@) == first + realms_steps(space@, rollback@, realms@.take(i as int)),
        decreases realms@.len() - i,
    {
        proof {
            assert(realms@.take(i + 1).drop_last() =~= realms@.take(i as int));
        }
        let realm = &realms[i];
        let ghost start = step_views(out@);
        let mut j: usize = 0;
        proof {
            assert(realm.works@.take(0) =~= Seq::<WorkSeat>::empty());
            assert(start + works_steps(space@, rollback@, realm.name@, realm.works@.take(0)) =~= start);
        }
        while j < realm.works.len()
            invariant
                j <= realm.works@.len(),
                step_views(out@) == start + works_steps(space@, rollback@, realm.name@, realm.works@.take(j as int)),
            decreases realm.works@.len() - j,
        {
            proof {
                assert(realm.works@.take(j + 1).drop_last() =~= realm.works@.take(j as int));
            }
            plan_work(&mut out, space, rollback, realm.name.as_str(), &realm.works[j]);
            proof {
                assert(step_views(out@) =~= start + works_steps(space@, rollback@, realm.name@, realm.works@.take(j + 1)));
            }
            j = j + 1;
        }
        proof {
            assert(realm.works@.take(realm.works@.len() as int) =~= realm.works@);
            assert(step_views(out@) =~= first + realms_steps(space@, rollback@, realms@.take(i + 1)));
        }
        i = i + 1;
    }
    proof {
        assert(realms@.take(realms@.len() as int) =~= realms@);
    }
    let root = join_path(space, ".concord");
    push_step(&mut out, Step::Shift { from: join_path(stage, "estate.sqlite3"), to: join_path(root.as_str(), "estate.sqlite3") });
    push_step(&mut out, Step::Shift { from: join_path(stage, "sudo"), to: join_path(root.as_str(), "sudo") });
    proof {
        assert(step_views(out@) =~= activation(space@, rollback@, stage@, realms@));
    }
    out
}

} // verus!
