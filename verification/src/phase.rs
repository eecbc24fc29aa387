//! The rules that a Phase and the requests around it must keep: the shape of
//! each entry, one Outcome, unique ranks per part, and the envelope, life and
//! revision checks that guard every write.
use crate::change::{Entry, Part, Patch, Settle};
use crate::error::Error;
use crate::prepare::{Fault, raises};
use crate::state::Life;
use crate::text::{blank, decimal, is_blank, join, render_i64, render_u64};
use vstd::prelude::*;

verus! {

/// The first rule an entry breaks, if any; `fresh` says whether the entry
/// belongs to a new Phase (no key) or to a stored one (a key).
pub open spec fn entry_fault(entry: Entry, fresh: bool) -> Option<Fault> {
    if fresh != (entry.key is None) {
        Some(("concord.phase.key"@, "new Phase entries omit keys and retained entries carry keys"@))
    } else if blank(entry.body@) {
        Some(("concord.phase.body"@, "Phase entry body cannot be blank"@))
    } else if entry.part.is_singular() != (entry.rank is None) {
        Some(("concord.phase.rank"@, "Outcome omits rank and ordered Phase entries require rank"@))
    } else if entry.rank matches Some(r) && r < 1 {
        Some(("concord.phase.rank"@, "Phase entry rank must be positive"@))
    } else if entry.part == Part::Addition && (entry.origin is None || blank(entry.origin->0@)) {
        Some(("concord.phase.origin"@, "Phase Addition requires a nonblank origin"@))
    } else if entry.part != Part::Addition && (entry.title is Some || entry.origin is Some) {
        Some(("concord.phase.shape"@, "title and origin belong only to Phase Addition"@))
    } else {
        None
    }
}

/// The number of Outcome entries.
pub open spec fn outcomes(entries: Seq<Entry>) -> nat {
    entries.filter(|e: Entry| e.part == Part::Outcome).len()
}

/// An entry before index `i` has the part and rank of entry `i`.
pub open spec fn repeats(entries: Seq<Entry>, i: int) -> bool {
    entries[i].rank is Some && exists|j: int| 0 <= j < i && #[trigger] entries[j].part == entries[i].part && entries[j].rank == entries[i].rank
}

/// The first fault met walking the entries from index `i`: the entry's
/// shape, then a repeated (part, rank).
pub open spec fn walk_fault(entries: Seq<Entry>, fresh: bool, i: int) -> Option<Fault>
    decreases entries.len() - i,
{
    if i < 0 || i >= entries.len() {
        None
    } else {
        match entry_fault(entries[i], fresh) {
            Some(f) => Some(f),
            None => if repeats(entries, i) {
                Some(("concord.phase.rank"@, entries[i].part.title() + " ranks must be unique"@))
            } else {
                walk_fault(entries, fresh, i + 1)
            },
        }
    }
}

/// The first rule that a Phase's entries break, if any.
pub open spec fn phase_fault(entries: Seq<Entry>, fresh: bool) -> Option<Fault> {
    if fresh && outcomes(entries) != 1 {
        Some(("concord.phase.outcome"@, "new Phase requires exactly one Outcome"@))
    } else if !fresh && outcomes(entries) > 1 {
        Some(("concord.phase.outcome"@, "Phase admits at most one Outcome"@))
    } else {
        walk_fault(entries, fresh, 0)
    }
}

/// The first rule that a settle request breaks, if any.
pub open spec fn settle_fault(settle: Settle) -> Option<Fault> {
    if settle.version != 1 {
        Some(("concord.settle.version"@, "unsupported settle version "@ + decimal(settle.version as int)))
    } else {
        phase_fault(settle.phase@, true)
    }
}

/// The first rule that a change-set's envelope breaks, if any.
pub open spec fn envelope_fault(patch: Patch) -> Option<Fault> {
    if patch.version != 1 {
        Some(("concord.change.version"@, "unsupported change-set version "@ + decimal(patch.version as int)))
    } else if patch.edits@.len() == 0 {
        Some(("concord.change.empty"@, "change-set needs at least one explicit edit"@))
    } else {
        None
    }
}

pub open spec fn retired(identity: Seq<char>) -> Fault {
    ("concord.task.retired"@, "retired Task is immutable: "@ + identity)
}

pub open spec fn outdated(expected: i64, found: i64) -> Fault {
    ("concord.task.stale"@, "Task revision changed: expected "@ + decimal(expected as int) + ", found "@ + decimal(found as int))
}

pub open spec fn moved(expected: i64, found: i64) -> Fault {
    ("concord.graph.stale"@, "graph revision changed: expected "@ + decimal(expected as int) + ", found "@ + decimal(found as int))
}

/// Checks one Phase entry's shape.
pub fn shape(entry: &Entry, fresh: bool) -> (r: Result<(), Error>)
    ensures
        match entry_fault(*entry, fresh) {
            None => r is Ok,
            Some(f) => r matches Err(e) && raises(e, f),
        },
{
    if fresh != entry.key.is_none() {
        return Err(Error::said("concord.phase.key", "new Phase entries omit keys and retained entries carry keys"));
    }
    if is_blank(entry.body.as_str()) {
        return Err(Error::said("concord.phase.body", "Phase entry body cannot be blank"));
    }
    if entry.part.singular() != entry.rank.is_none() {
        return Err(Error::said("concord.phase.rank", "Outcome omits rank and ordered Phase entries require rank"));
    }
    if let Some(rank) = entry.rank {
        if rank < 1 {
            return Err(Error::said("concord.phase.rank", "Phase entry rank must be positive"));
        }
    }
    let addition = entry.part == Part::Addition;
    if addition {
        let missing = match &entry.origin {
            None => true,
            Some(origin) => is_blank(origin.as_str()),
        };
        if missing {
            return Err(Error::said("concord.phase.origin", "Phase Addition requires a nonblank origin"));
        }
    }
    if !addition && (entry.title.is_some() || entry.origin.is_some()) {
        return Err(Error::said("concord.phase.shape", "title and origin belong only to Phase Addition"));
    }
    Ok(())
}

/// Counts the Outcome entries.
fn count_outcomes(entries: &[Entry]) -> (r: usize)
    ensures
        r == outcomes(entries@),
{
    let ghost held = |e: Entry| e.part == Part::Outcome;
    let mut n: usize = 0;
    let mut i: usize = 0;
    while i < entries.len()
        invariant
            i <= entries@.len(),
            held == (|e: Entry| e.part == Part::Outcome),
            n == entries@.take(i as int).filter(held).len(),
            n <= i,
        decreases entries@.len() - i,
    {
        proof {
            assert(entries@.take(i + 1) =~= entries@.take(i as int).push(entries@[i as int]));
            entries@.take(i as int).lemma_filter_push(entries@[i as int], held);
        }
        if entries[i].part == Part::Outcome {
            n = n + 1;
        }
        i = i + 1;
    }
    proof {
        assert(entries@.take(entries@.len() as int) =~= entries@);
    }
    n
}

/// Whether an entry before index `i` has the part and rank of entry `i`.
fn repeated(entries: &[Entry], i: usize) -> (r: bool)
    requires
        i < entries@.len(),
    ensures
        r == repeats(entries@, i as int),
{
    if entries[i].rank.is_none() {
        return false;
    }
    let mut j: usize = 0;
    while j < i
        invariant
            j <= i < entries@.len(),
            entries@[i as int].rank is Some,
            forall|k: int| 0 <= k < j ==> !(#[trigger] entries@[k].part == entries@[i as int].part && entries@[k].rank == entries@[i as int].rank),
        decreases i - j,
    {
        if entries[j].part == entries[i].part && entries[j].rank == entries[i].rank {
            return true;
        }
        j = j + 1;
    }
    false
}

/// Checks a Phase's entries: one Outcome when `fresh` (at most one when
/// stored), each entry's shape, and unique ranks per part.
pub fn audit(entries: &[Entry], fresh: bool) -> (r: Result<(), Error>)
    ensures
        match phase_fault(entries@, fresh) {
            None => r is Ok,
            Some(f) => r matches Err(e) && raises(e, f),
        },
{
    let n = count_outcomes(entries);
    if fresh && n != 1 {
        return Err(Error::said("concord.phase.outcome", "new Phase requires exactly one Outcome"));
    }
    if !fresh && n > 1 {
        return Err(Error::said("concord.phase.outcome", "Phase admits at most one Outcome"));
    }
    let mut i: usize = 0;
    while i < entries.len()
        invariant
            i <= entries@.len(),
            phase_fault(entries@, fresh) == walk_fault(entries@, fresh, i as int),
        decreases entries@.len() - i,
    {
        match shape(&entries[i], fresh) {
            Err(e) => {
                return Err(e);
            },
            Ok(()) => {},
        }
        if repeated(entries, i) {
            return Err(Error::typed("concord.phase.rank", join(entries[i].part.name(), " ranks must be unique")));
        }
        i = i + 1;
    }
    Ok(())
}

/// Checks a settle request: its version, then its new Phase.
pub fn validate(settle: &Settle) -> (r: Result<(), Error>)
    ensures
        match settle_fault(*settle) {
            None => r is Ok,
            Some(f) => r matches Err(e) && raises(e, f),
        },
{
    if settle.version != 1 {
        let v = render_u64(settle.version as u64);
        return Err(Error::typed("concord.settle.version", join("unsupported settle version ", v.as_str())));
    }
    audit(settle.phase.as_slice(), true)
}

/// Checks a change-set's envelope: its version and that it edits something.
pub fn envelope(patch: &Patch) -> (r: Result<(), Error>)
    ensures
        match envelope_fault(*patch) {
            None => r is Ok,
            Some(f) => r matches Err(e) && raises(e, f),
        },
{
    if patch.version != 1 {
        let v = render_u64(patch.version as u64);
        return Err(Error::typed("concord.change.version", join("unsupported change-set version ", v.as_str())));
    }
    if patch.edits.len() == 0 {
        return Err(Error::said("concord.change.empty", "change-set needs at least one explicit edit"));
    }
    Ok(())
}

/// Refuses a write to a retired Task.
pub fn active(life: Life, identity: &str) -> (r: Result<(), Error>)
    ensures
        life == Life::Active ==> r is Ok,
        life != Life::Active ==> (r matches Err(e) && raises(e, retired(identity@))),
{
    if life == Life::Active {
        return Ok(());
    }
    Err(Error::typed("concord.task.retired", join("retired Task is immutable: ", identity)))
}

fn compare_message(lead: &str, expected: i64, found: i64) -> (s: String)
    ensures
        s@ == lead@ + decimal(expected as int) + ", found "@ + decimal(found as int),
{
    let a = join(lead, render_i64(expected).as_str());
    let b = join(a.as_str(), ", found ");
    join(b.as_str(), render_i64(found).as_str())
}

/// Refuses a write against a Task revision that has moved on.
pub fn stale(found: i64, expected: i64) -> (r: Result<(), Error>)
    ensures
        found == expected ==> r is Ok,
        found != expected ==> (r matches Err(e) && raises(e, outdated(expected, found))),
{
    if found == expected {
        return Ok(());
    }
    Err(Error::typed("concord.task.stale", compare_message("Task revision changed: expected ", expected, found)))
}

/// Refuses a write against a graph revision that has moved on.
pub fn settled(found: i64, expected: i64) -> (r: Result<(), Error>)
    ensures
        found == expected ==> r is Ok,
        found != expected ==> (r matches Err(e) && raises(e, moved(expected, found))),
{
    if found == expected {
        return Ok(());
    }
    Err(Error::typed("concord.graph.stale", compare_message("graph revision changed: expected ", expected, found)))
}

/// The error for a stored Phase whose number cannot be read.
pub fn malformed(key: i64) -> (e: Error)
    ensures
        e.coded("concord.phase.row"@),
        e.message@ == "Phase "@ + decimal(key as int) + " has malformed number"@,
{
    let a = join("Phase ", render_i64(key).as_str());
    Error::typed("concord.phase.row", join(a.as_str(), " has malformed number"))
}

} // verus!
