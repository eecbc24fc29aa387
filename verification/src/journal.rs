//! The journal of an activation: every move, refusal marker and removed
//! directory, kept so that a failed activation can be undone in reverse.
use crate::error::Error;
use crate::prepare::{Fault, raises};
use crate::text::join;
use vstd::prelude::*;

verus! {

/// What an activation did to the Space, in order.
#[derive(Clone, Debug)]
pub struct Journal {
    pub shifts: Vec<(String, String)>,
    pub markers: Vec<String>,
    pub removed: Vec<String>,
}

/// One step of undoing an activation.
#[derive(Clone, Debug, PartialEq, Eq)]
pub enum Undo {
    /// Remove a refusal marker the activation wrote.
    Unmark { path: String },
    /// Recreate a directory the activation removed.
    Restore { path: String },
    /// Move a path back from where the activation moved it.
    Return { from: String, to: String },
}

/// The undo steps of a journal: markers, then removed directories, then
/// moves, each in reverse order.
pub open spec fn undoing(j: Journal) -> Seq<Undo> {
    Seq::new(j.markers@.len(), |i: int| Undo::Unmark { path: j.markers@[j.markers@.len() - 1 - i] })
        + Seq::new(j.removed@.len(), |i: int| Undo::Restore { path: j.removed@[j.removed@.len() - 1 - i] })
        + Seq::new(j.shifts@.len(), |i: int| Undo::Return { from: j.shifts@[j.shifts@.len() - 1 - i].1, to: j.shifts@[j.shifts@.len() - 1 - i].0 })
}

pub open spec fn path_fault(from: Seq<char>, to: Seq<char>) -> Fault {
    ("concord.migration.path"@, "migration move requires present source and absent target: "@ + from + " -> "@ + to)
}

impl Journal {
    /// An empty journal.
    pub fn new() -> (r: Journal)
        ensures
            r.shifts@.len() == 0,
            r.markers@.len() == 0,
            r.removed@.len() == 0,
    {
        Journal { shifts: Vec::new(), markers: Vec::new(), removed: Vec::new() }
    }

    /// Refuses a move unless its source exists and its target does not.
    pub fn admit_shift(from: &str, to: &str, from_exists: bool, to_exists: bool) -> (r: Result<(), Error>)
        ensures
            from_exists && !to_exists ==> r is Ok,
            !(from_exists && !to_exists) ==> (r matches Err(e) && raises(e, path_fault(from@, to@))),
    {
        if !from_exists || to_exists {
            let a = join("migration move requires present source and absent target: ", from);
            let b = join(a.as_str(), " -> ");
            return Err(Error::typed("concord.migration.path", join(b.as_str(), to)));
        }
        Ok(())
    }

    /// Records a move once made.
    pub fn shifted(&mut self, from: String, to: String)
        ensures
            final(self).shifts@ == old(self).shifts@.push((from, to)),
            final(self).markers == old(self).markers,
            final(self).removed == old(self).removed,
    {
        self.shifts.push((from, to));
    }

    /// Refuses a refusal marker over an occupied path.
    pub fn admit_marker(path: &str, exists: bool) -> (r: Result<(), Error>)
        ensures
            !exists ==> r is Ok,
            exists ==> (r matches Err(e) && raises(e, ("concord.migration.marker"@, "refusal marker target is occupied: "@ + path@))),
    {
        if exists {
            return Err(Error::typed("concord.migration.marker", join("refusal marker target is occupied: ", path)));
        }
        Ok(())
    }

    /// Records a marker once written.
    pub fn marked(&mut self, path: String)
        ensures
            final(self).markers@ == old(self).markers@.push(path),
            final(self).shifts == old(self).shifts,
            final(self).removed == old(self).removed,
    {
        self.markers.push(path);
    }

    /// Records a directory once removed.
    pub fn pruned(&mut self, path: String)
        ensures
            final(self).removed@ == old(self).removed@.push(path),
            final(self).shifts == old(self).shifts,
            final(self).markers == old(self).markers,
    {
        self.removed.push(path);
    }

    /// How to undo the journal, step by step.
    pub fn undo(&self) -> (r: Vec<Undo>)
        ensures
            r@ == undoing(*self),
    {
        let mut out: Vec<Undo> = Vec::new();
        let ghost j = *self;
        let m = self.markers.len();
        let mut i: usize = 0;
        while i < m
            invariant
                m == self.markers@.len(),
                i <= m,
                out@ == Seq::new(i as nat, |k: int| Undo::Unmark { path: self.markers@[m - 1 - k] }),
            decreases m - i,
        {
            out.push(Undo::Unmark { path: self.markers[m - 1 - i].clone() });
            proof {
                assert(out@ =~= Seq::new((i + 1) as nat, |k: int| Undo::Unmark { path: self.markers@[m - 1 - k] }));
            }
            i = i + 1;
        }
        let ghost first = out@;
        let d = self.removed.len();
        let mut i: usize = 0;
        while i < d
            invariant
                d == self.removed@.len(),
                i <= d,
                first == Seq::new(m as nat, |k: int| Undo::Unmark { path: self.markers@[m - 1 - k] }),
                m == self.markers@.len(),
                out@ == first + Seq::new(i as nat, |k: int| Undo::Restore { path: self.removed@[d - 1 - k] }),
            decreases d - i,
        {
            out.push(Undo::Restore { path: self.removed[d - 1 - i].clone() });
            proof {
                assert(out@ =~= first + Seq::new((i + 1) as nat, |k: int| Undo::Restore { path: self.removed@[d - 1 - k] }));
            }
            i = i + 1;
        }
        let ghost second = out@;
        let s = self.shifts.len();
        let mut i: usize = 0;
        while i < s
            invariant
                s == self.shifts@.len(),
                i <= s,
                second == first + Seq::new(d as nat, |k: int| Undo::Restore { path: self.removed@[d - 1 - k] }),
                first == Seq::new(m as nat, |k: int| Undo::Unmark { path: self.markers@[m - 1 - k] }),
                m == self.markers@.len(),
                d == self.removed@.len(),
                out@ == second + Seq::new(i as nat, |k: int| Undo::Return { from: self.shifts@[s - 1 - k].1, to: self.shifts@[s - 1 - k].0 }),
            decreases s - i,
        {
            let (a, b) = &self.shifts[s - 1 - i];
            out.push(Undo::Return { from: b.clone(), to: a.clone() });
            proof {
                assert(out@ =~= second + Seq::new((i + 1) as nat, |k: int| Undo::Return { from: self.shifts@[s - 1 - k].1, to: self.shifts@[s - 1 - k].0 }));
            }
            i = i + 1;
        }
        proof {
            assert(out@ =~= undoing(j));
        }
        out
    }
}

/// The texts joined by "; ".
pub open spec fn semicolons(parts: Seq<Seq<char>>) -> Seq<char>
    decreases parts.len(),
{
    if parts.len() == 0 {
        Seq::empty()
    } else if parts.len() == 1 {
        parts[0]
    } else {
        semicolons(parts.drop_last()) + "; "@ + parts.last()
    }
}

/// The outcome of undoing: success when every step succeeded, else one
/// error that lists every failure.
pub fn rollback_outcome(faults: &Vec<String>) -> (r: Result<(), Error>)
    ensures
        faults@.len() == 0 ==> r is Ok,
        faults@.len() > 0 ==> (r matches Err(e) && raises(e, ("concord.migration.rollback"@, semicolons(faults.deep_view())))),
{
    if faults.len() == 0 {
        return Ok(());
    }
    let ghost d = faults.deep_view();
    let mut acc = faults[0].clone();
    let mut i: usize = 1;
    proof {
        assert(d.take(1) =~= seq![d[0]]);
    }
    while i < faults.len()
        invariant
            1 <= i <= faults@.len(),
            d == faults.deep_view(),
            acc@ == semicolons(d.take(i as int)),
        decreases faults@.len() - i,
    {
        proof {
            let t = d.take(i + 1);
            assert(t.drop_last() =~= d.take(i as int));
            assert(t.last() == faults@[i as int]@);
        }
        let a = join(acc.as_str(), "; ");
        acc = join(a.as_str(), faults[i].as_str());
        i = i + 1;
    }
    proof {
        assert(d.take(d.len() as int) =~= d);
    }
    Err(Error::typed("concord.migration.rollback", acc))
}

} // verus!
