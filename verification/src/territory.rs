//! The territory of the estate: the modes its custody files hold, what
//! stands in a Task's seat, and the Members that live there.
use crate::agreement::{Agreement, Said, said};
use crate::audit::mode_mismatch;
use crate::error::Error;
use crate::prepare::raises;
use crate::seat::{Seat, joined};
use crate::state::{Life, Node};
use crate::text::{join, render_mode, same};
use vstd::prelude::*;

verus! {

/// The permission fault of a path that holds a mode other than the one
/// wanted; nothing when it holds no mode or the right one.
pub open spec fn held_fault(path: Seq<char>, held: Option<u32>, wanted: u32) -> Seq<Said> {
    match held {
        Some(h) if h != wanted => seq![("permission"@, path, mode_mismatch(h, wanted))],
        _ => Seq::empty(),
    }
}

/// The faults of a Space's custody: its seat must hold 0700, the database
/// and the possession 0600.
pub open spec fn custody_faults(space: Seq<char>, seat: Option<u32>, database: Option<u32>, sudo: Option<u32>) -> Seq<Said> {
    let root = joined(space, ".concord"@);
    held_fault(root, seat, 0o700) + held_fault(joined(root, "estate.sqlite3"@), database, 0o600) + held_fault(joined(root, "sudo"@), sudo, 0o600)
}

fn hold(report: &mut Agreement, path: String, held: Option<u32>, wanted: u32)
    ensures
        final(report).target == old(report).target,
        final(report).revision == old(report).revision,
        final(report).observations == old(report).observations,
        said(final(report).faults@) == said(old(report).faults@) + held_fault(path@, held, wanted),
{
    let ghost before = said(report.faults@);
    let ghost p = path@;
    match held {
        Some(h) => {
            if h != wanted {
                let a = join("mode ", render_mode(h).as_str());
                let b = join(a.as_str(), " must be ");
                report.fault("permission", path, join(b.as_str(), render_mode(wanted).as_str()));
                proof {
                    reveal_strlit("permission");
                    assert(before + held_fault(p, held, wanted) =~= before.push(("permission"@, p, mode_mismatch(h, wanted))));
                }
            } else {
                proof {
                    assert(before + held_fault(p, held, wanted) =~= before);
                }
            }
        },
        None => {
            proof {
                assert(before + held_fault(p, held, wanted) =~= before);
            }
        },
    }
}

/// Checks the modes of a Space's custody files; each `held` is the mode
/// found on the file, or nothing where it is absent.
pub fn custody(report: &mut Agreement, space: &str, seat: Option<u32>, database: Option<u32>, sudo: Option<u32>)
    ensures
        final(report).target == old(report).target,
        final(report).revision == old(report).revision,
        final(report).observations == old(report).observations,
        said(final(report).faults@) == said(old(report).faults@) + custody_faults(space@, seat, database, sudo),
{
    let ghost before = said(report.faults@);
    let place = Seat::new(space);
    let root = place.root.clone();
    hold(report, root, seat, 0o700);
    hold(report, place.database(), database, 0o600);
    hold(report, place.sudo(), sudo, 0o600);
    proof {
        let r = joined(space@, ".concord"@);
        assert(before + held_fault(r, seat, 0o700) + held_fault(joined(r, "estate.sqlite3"@), database, 0o600) + held_fault(joined(r, "sudo"@), sudo, 0o600) =~= before + custody_faults(space@, seat, database, sudo));
    }
}

/// An entry of a directory as the library reads it: its name (where it is
/// valid UTF-8 or after lossy conversion) and its path.
#[derive(Clone, Debug, PartialEq, Eq)]
pub struct Entry {
    pub name: String,
    pub path: String,
}

/// The entries of a seat that neither the memory nor a declared Member
/// explains, in the order read.
pub open spec fn strangers(entries: Seq<Entry>, members: Seq<Seq<char>>) -> Seq<Said>
    decreases entries.len(),
{
    if entries.len() == 0 {
        Seq::empty()
    } else {
        let e = entries.last();
        strangers(entries.drop_last(), members) + if e.name@ == ".task"@ || members.contains(e.name@) {
            Seq::<Said>::empty()
        } else {
            seq![("territory.unknown"@, e.path@, "undeclared entry occupies the derived Task seat"@)]
        }
    }
}

/// What a Task's seat shows: where it is absent, a fault only when Members
/// are declared; where it is not a direct directory, that fault alone;
/// else a fault for every entry that is neither `.task` nor a declared
/// Member.
pub open spec fn seat_faults(identity: Seq<char>, root: Seq<char>, exists: bool, direct: bool, members: Seq<Seq<char>>, entries: Seq<Entry>) -> Seq<Said> {
    if !exists {
        if members.len() > 0 {
            seq![("member.missing"@, identity, "Task Member seat is absent"@)]
        } else {
            Seq::empty()
        }
    } else if !direct {
        seq![("territory.task"@, root, "Task seat is not a direct directory"@)]
    } else {
        strangers(entries, members)
    }
}

fn declared(members: &Vec<String>, name: &str) -> (r: bool)
    ensures
        r == members.deep_view().contains(name@),
{
    let ghost d = members.deep_view();
    let mut i: usize = 0;
    while i < members.len()
        invariant
            i <= members@.len(),
            d == members.deep_view(),
            d.len() == members@.len(),
            forall|j: int| 0 <= j < i ==> d[j] != name@,
        decreases members@.len() - i,
    {
        if same(members[i].as_str(), name) {
            proof {
                assert(d[i as int] == name@);
            }
            return true;
        }
        i = i + 1;
    }
    false
}

/// Checks a Task's seat at `root`: `exists` and `direct` say whether it
/// stands and is a directory (not a link), `members` are the names of the
/// Task's live Members and `entries` what the seat holds.
pub fn seat(report: &mut Agreement, task: &Node, root: &str, exists: bool, direct: bool, members: &Vec<String>, entries: &Vec<Entry>)
    ensures
        final(report).target == old(report).target,
        final(report).revision == old(report).revision,
        final(report).observations == old(report).observations,
        said(final(report).faults@) == said(old(report).faults@) + seat_faults(task.ident(), root@, exists, direct, members.deep_view(), entries@),
{
    let ghost before = said(report.faults@);
    let ghost names = members.deep_view();
    if !exists {
        if members.len() > 0 {
            report.fault("member.missing", task.identity(), String::from_str("Task Member seat is absent"));
            proof {
                assert(before + seat_faults(task.ident(), root@, exists, direct, names, entries@) =~= before.push(("member.missing"@, task.ident(), "Task Member seat is absent"@)));
            }
        } else {
            proof {
                assert(before + seat_faults(task.ident(), root@, exists, direct, names, entries@) =~= before);
            }
        }
        return;
    }
    if !direct {
        report.fault("territory.task", String::from_str(root), String::from_str("Task seat is not a direct directory"));
        proof {
            assert(before + seat_faults(task.ident(), root@, exists, direct, names, entries@) =~= before.push(("territory.task"@, root@, "Task seat is not a direct directory"@)));
        }
        return;
    }
    let mut i: usize = 0;
    proof {
        assert(entries@.take(0) =~= Seq::<Entry>::empty());
        assert(before + Seq::<Said>::empty() =~= before);
    }
    while i < entries.len()
        invariant
            i <= entries@.len(),
            names == members.deep_view(),
            report.target == old(report).target,
            report.revision == old(report).revision,
            report.observations == old(report).observations,
            before == said(old(report).faults@),
            said(report.faults@) == before + strangers(entries@.take(i as int), names),
        decreases entries@.len() - i,
    {
        proof {
            assert(entries@.take(i + 1).drop_last() =~= entries@.take(i as int));
        }
        let ghost prior = strangers(entries@.take(i as int), names);
        let e = &entries[i];
        if !same(e.name.as_str(), ".task") && !declared(members, e.name.as_str()) {
            report.fault("territory.unknown", e.path.clone(), String::from_str("undeclared entry occupies the derived Task seat"));
            proof {
                let x = ("territory.unknown"@, e.path@, "undeclared entry occupies the derived Task seat"@);
                assert(before + prior + seq![x] =~= (before + prior).push(x));
            }
        } else {
            proof {
                assert(before + prior + Seq::<Said>::empty() =~= before + prior);
            }
        }
        i = i + 1;
    }
    proof {
        assert(entries@.take(entries@.len() as int) =~= entries@);
    }
}

/// The entries of a Task's memory other than its artifacts, in the order
/// read.
pub open spec fn memory_faults(entries: Seq<Entry>) -> Seq<Said>
    decreases entries.len(),
{
    if entries.len() == 0 {
        Seq::empty()
    } else {
        memory_faults(entries.drop_last()) + if entries.last().name@ == "artifacts"@ {
            Seq::<Said>::empty()
        } else {
            seq![("territory.memory"@, entries.last().path@, "MAIN/PHASE or unknown memory territory remains active"@)]
        }
    }
}

/// The artifact entries that are not direct directories; each entry comes
/// with whether it is one.
pub open spec fn artifact_faults(entries: Seq<(Entry, bool)>) -> Seq<Said>
    decreases entries.len(),
{
    if entries.len() == 0 {
        Seq::empty()
    } else {
        artifact_faults(entries.drop_last()) + if entries.last().1 {
            Seq::<Said>::empty()
        } else {
            seq![("artifact.territory"@, entries.last().0.path@, "Artifact seat must be a direct directory"@)]
        }
    }
}

/// What a Task's memory shows: nothing where it is absent, else its stray
/// entries and then, where the artifacts directory stands, its stray
/// artifacts.
pub open spec fn territory_faults(memory: Option<Seq<Entry>>, artifacts: Option<Seq<(Entry, bool)>>) -> Seq<Said> {
    match memory {
        None => Seq::empty(),
        Some(m) => memory_faults(m) + match artifacts {
            None => Seq::<Said>::empty(),
            Some(a) => artifact_faults(a),
        },
    }
}

pub open spec fn entries_of(v: Option<Vec<Entry>>) -> Option<Seq<Entry>> {
    match v {
        Some(x) => Some(x@),
        None => None,
    }
}

pub open spec fn pairs_of(v: Option<Vec<(Entry, bool)>>) -> Option<Seq<(Entry, bool)>> {
    match v {
        Some(x) => Some(x@),
        None => None,
    }
}

/// Checks the memory of a Task's seat: `memory` holds the entries of its
/// `.task` directory where it stands, `artifacts` those of the artifacts
/// directory in it, each with whether it is a direct directory.
pub fn artifacts(report: &mut Agreement, memory: &Option<Vec<Entry>>, artifacts: &Option<Vec<(Entry, bool)>>)
    ensures
        final(report).target == old(report).target,
        final(report).revision == old(report).revision,
        final(report).observations == old(report).observations,
        said(final(report).faults@) == said(old(report).faults@) + territory_faults(entries_of(*memory), pairs_of(*artifacts)),
{
    let ghost before = said(report.faults@);
    let held = match memory {
        None => {
            proof {
                assert(before + territory_faults(entries_of(*memory), pairs_of(*artifacts)) =~= before);
            }
            return;
        },
        Some(m) => m,
    };
    let mut i: usize = 0;
    proof {
        assert(held@.take(0) =~= Seq::<Entry>::empty());
        assert(before + Seq::<Said>::empty() =~= before);
    }
    while i < held.len()
        invariant
            i <= held@.len(),
            report.target == old(report).target,
            report.revision == old(report).revision,
            report.observations == old(report).observations,
            before == said(old(report).faults@),
            said(report.faults@) == before + memory_faults(held@.take(i as int)),
        decreases held@.len() - i,
    {
        proof {
            assert(held@.take(i + 1).drop_last() =~= held@.take(i as int));
        }
        let ghost prior = memory_faults(held@.take(i as int));
        if !same(held[i].name.as_str(), "artifacts") {
            report.fault("territory.memory", held[i].path.clone(), String::from_str("MAIN/PHASE or unknown memory territory remains active"));
            proof {
                let x = ("territory.memory"@, held@[i as int].path@, "MAIN/PHASE or unknown memory territory remains active"@);
                assert(before + prior + seq![x] =~= (before + prior).push(x));
            }
        } else {
            proof {
                assert(before + prior + Seq::<Said>::empty() =~= before + prior);
            }
        }
        i = i + 1;
    }
    proof {
        assert(held@.take(held@.len() as int) =~= held@);
    }
    let ghost middle = said(report.faults@);
    let found = match artifacts {
        None => {
            proof {
                assert(before + territory_faults(entries_of(*memory), pairs_of(*artifacts)) =~= middle);
            }
            return;
        },
        Some(a) => a,
    };
    let mut k: usize = 0;
    proof {
        assert(found@.take(0) =~= Seq::<(Entry, bool)>::empty());
        assert(middle + Seq::<Said>::empty() =~= middle);
    }
    while k < found.len()
        invariant
            k <= found@.len(),
            report.target == old(report).target,
            report.revision == old(report).revision,
            report.observations == old(report).observations,
            middle == before + memory_faults(held@),
            said(report.faults@) == middle + artifact_faults(found@.take(k as int)),
        decreases found@.len() - k,
    {
        proof {
            assert(found@.take(k + 1).drop_last() =~= found@.take(k as int));
        }
        let ghost prior = artifact_faults(found@.take(k as int));
        if !found[k].1 {
            report.fault("artifact.territory", found[k].0.path.clone(), String::from_str("Artifact seat must be a direct directory"));
            proof {
                let x = ("artifact.territory"@, found@[k as int].0.path@, "Artifact seat must be a direct directory"@);
                assert(middle + prior + seq![x] =~= (middle + prior).push(x));
            }
        } else {
            proof {
                assert(middle + prior + Seq::<Said>::empty() =~= middle + prior);
            }
        }
        k = k + 1;
    }
    proof {
        assert(found@.take(found@.len() as int) =~= found@);
        assert(before + territory_faults(entries_of(*memory), pairs_of(*artifacts)) =~= middle + artifact_faults(found@));
    }
}

/// A Member's Boundary proof as the estate holds it.
#[derive(Clone, Debug, PartialEq, Eq)]
pub struct Boundary {
    pub schema: String,
    pub plumb: String,
    pub base: String,
    pub head: String,
    pub claim: String,
}

/// Whether a Boundary proof still holds: it was written under the schema
/// and plumb release in force, the Member's HEAD is the one proved (`head`
/// is the HEAD found, if any), and its Claims digest as proved (`claim`).
pub fn current(proof: &Boundary, schema: &str, plumb: &str, head: Option<&str>, claim: &str) -> (r: bool)
    ensures
        r == (proof.schema@ == schema@ && proof.plumb@ == plumb@ && (head matches Some(h) && h@ == proof.head@) && proof.claim@ == claim@),
{
    if !same(proof.schema.as_str(), schema) || !same(proof.plumb.as_str(), plumb) {
        return false;
    }
    match head {
        None => false,
        Some(h) => same(h, proof.head.as_str()) && same(proof.claim.as_str(), claim),
    }
}

/// The findings of one live Member: faults when its Task is retired, when
/// it disagrees with its source (`valid`) or its Claims are not normalized,
/// and an observation when its Boundary proof is stale (`fresh` is whether
/// the proof it holds, if any, is current).
pub open spec fn member_faults(subject: Seq<char>, life: Life, valid: bool, normalized: bool) -> Seq<Said> {
    (if life == Life::Retired {
        seq![("member.retired"@, subject, "retired Task retains a live Member"@)]
    } else {
        Seq::<Said>::empty()
    }) + (if !valid {
        seq![("member.agreement"@, subject, "Member source, worktree identity, registration, or branch disagrees"@)]
    } else {
        Seq::<Said>::empty()
    }) + (if !normalized {
        seq![("claim.shape"@, subject, "Member Claims are not normalized"@)]
    } else {
        Seq::<Said>::empty()
    })
}

/// Checks one live Member of a Task, named `task`/`name`.
pub fn member(report: &mut Agreement, life: Life, task: &str, name: &str, valid: bool, normalized: bool, fresh: Option<bool>)
    ensures
        final(report).target == old(report).target,
        final(report).revision == old(report).revision,
        said(final(report).faults@) == said(old(report).faults@) + member_faults(task@ + "/"@ + name@, life, valid, normalized),
        fresh == Some(false) ==> said(final(report).observations@) == said(old(report).observations@).push(("boundary.stale"@, task@ + "/"@ + name@, "Member Boundary proof is stale"@)),
        fresh != Some(false) ==> final(report).observations == old(report).observations,
{
    let a = join(task, "/");
    let subject = join(a.as_str(), name);
    let ghost s = subject@;
    let ghost f0 = said(report.faults@);
    if life == Life::Retired {
        report.fault("member.retired", subject.clone(), String::from_str("retired Task retains a live Member"));
    }
    let ghost f1 = said(report.faults@);
    if !valid {
        report.fault("member.agreement", subject.clone(), String::from_str("Member source, worktree identity, registration, or branch disagrees"));
    }
    let ghost f2 = said(report.faults@);
    if !normalized {
        report.fault("claim.shape", subject.clone(), String::from_str("Member Claims are not normalized"));
    }
    proof {
        let r = if life == Life::Retired { seq![("member.retired"@, s, "retired Task retains a live Member"@)] } else { Seq::<Said>::empty() };
        let v = if !valid { seq![("member.agreement"@, s, "Member source, worktree identity, registration, or branch disagrees"@)] } else { Seq::<Said>::empty() };
        let n = if !normalized { seq![("claim.shape"@, s, "Member Claims are not normalized"@)] } else { Seq::<Said>::empty() };
        assert(f1 =~= f0 + r);
        assert(f2 =~= f1 + v);
        assert(said(report.faults@) =~= f2 + n);
        assert(f0 + member_faults(s, life, valid, normalized) =~= f0 + r + v + n);
    }
    if fresh == Some(false) {
        report.observe("boundary.stale", subject, String::from_str("Member Boundary proof is stale"));
    }
}

/// The text of a Boundary as compared: schema, plumb release, base, head
/// and Claims digest.
pub open spec fn boundary_text(b: Boundary) -> (Seq<char>, Seq<char>, Seq<char>, Seq<char>, Seq<char>) {
    (b.schema@, b.plumb@, b.base@, b.head@, b.claim@)
}

pub open spec fn proofs_agree(wanted: Option<Boundary>, held: Option<Boundary>) -> bool {
    match (wanted, held) {
        (None, None) => true,
        (Some(w), Some(h)) => boundary_text(w) == boundary_text(h),
        _ => false,
    }
}

/// Refuses a migrated Member whose Boundary proof differs from the one the
/// legacy Space declared.
pub fn boundary_proof(identity: &str, member: &str, wanted: &Option<Boundary>, held: &Option<Boundary>) -> (r: Result<(), Error>)
    ensures
        proofs_agree(*wanted, *held) ==> r is Ok,
        !proofs_agree(*wanted, *held) ==> (r matches Err(e) && raises(e, ("concord.migration.mismatch"@, "Boundary differs: "@ + identity@ + "/"@ + member@))),
{
    let agree = match (wanted, held) {
        (None, None) => true,
        (Some(w), Some(h)) => same(w.schema.as_str(), h.schema.as_str()) && same(w.plumb.as_str(), h.plumb.as_str()) && same(w.base.as_str(), h.base.as_str()) && same(w.head.as_str(), h.head.as_str()) && same(w.claim.as_str(), h.claim.as_str()),
        _ => false,
    };
    if agree {
        return Ok(());
    }
    let a = join("Boundary differs: ", identity);
    let b = join(a.as_str(), "/");
    Err(crate::census::mismatch(join(b.as_str(), member)))
}

} // verus!
