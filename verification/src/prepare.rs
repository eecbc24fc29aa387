//! Change-set preparation: each edit is checked against the Task's current
//! facts, in order, and the facts that result must keep every role's
//! cardinality and rank rules.
use crate::change::{Edit, Fact, Role, copy_text};
use crate::error::Error;
use crate::text::{blank, decimal, is_blank, join, render_i64};
use vstd::prelude::*;

verus! {

/// A refusal as data: the rule's code and the message.
pub type Fault = (Seq<char>, Seq<char>);

/// The edits of a change-set, sorted by kind and kept in order.
#[derive(Clone, Debug, PartialEq, Eq)]
pub struct Prepared {
    pub create: Vec<Fact>,
    pub set: Vec<Fact>,
    pub end: Vec<(Role, i64)>,
}

/// The first rule a fact breaks, if any; `held` says whether the fact must
/// carry a key (it revises a stored fact) or must not (it is new).
pub open spec fn shape_fault(fact: Fact, held: bool) -> Option<Fault> {
    if held != (fact.key is Some) {
        Some(("concord.change.key"@, "create omits a key and set requires one"@))
    } else if blank(fact.body@) {
        Some(("concord.change.body"@, "fact body cannot be blank"@))
    } else if fact.role.is_singular() != (fact.rank is None) {
        Some(("concord.change.rank"@, "singular facts omit rank and ordered facts require rank"@))
    } else if fact.rank matches Some(r) && r < 1 {
        Some(("concord.change.rank"@, "fact rank must be positive"@))
    } else if fact.role == Role::Addition && (fact.origin is None || blank(fact.origin->0@)) {
        Some(("concord.change.origin"@, "Addition requires a nonblank origin"@))
    } else if fact.role != Role::Addition && (fact.title is Some || fact.origin is Some) {
        Some(("concord.change.shape"@, "title and origin belong only to Addition"@))
    } else {
        None
    }
}

/// The error that a fault becomes.
pub open spec fn raises(e: Error, fault: Fault) -> bool {
    e.coded(fault.0) && e.message@ == fault.1
}

/// The fact `key` of `role`.
pub open spec fn picks(fact: Fact, role: Role, key: i64) -> bool {
    fact.key == Some(key) && fact.role == role
}

/// The first index of the fact `key` of `role`, or `facts.len()`.
pub open spec fn seek(facts: Seq<Fact>, role: Role, key: i64) -> int
    decreases facts.len(),
{
    if facts.len() == 0 {
        0
    } else if picks(facts[0], role, key) {
        0
    } else {
        1 + seek(facts.drop_first(), role, key)
    }
}

pub open spec fn twice(key: i64) -> Fault {
    ("concord.change.duplicate"@, "fact "@ + decimal(key as int) + " is edited more than once"@)
}

pub open spec fn absent(key: i64) -> Fault {
    ("concord.change.absent"@, "fact "@ + decimal(key as int) + " not found"@)
}

/// What one edit does to the facts and to the (role, key) pairs already
/// edited.
pub open spec fn step(facts: Seq<Fact>, touched: Seq<(Role, i64)>, edit: Edit) -> Result<(Seq<Fact>, Seq<(Role, i64)>), Fault> {
    match edit {
        Edit::Create { fact } => match shape_fault(fact, false) {
            Some(f) => Err(f),
            None => Ok((facts.push(fact), touched)),
        },
        Edit::Revise { fact } => match shape_fault(fact, true) {
            Some(f) => Err(f),
            None => {
                let key = fact.key->0;
                if touched.contains((fact.role, key)) {
                    Err(twice(key))
                } else if seek(facts, fact.role, key) == facts.len() {
                    Err(absent(key))
                } else {
                    Ok((facts.update(seek(facts, fact.role, key), fact), touched.push((fact.role, key))))
                }
            },
        },
        Edit::End { role, key } => {
            if touched.contains((role, key)) {
                Err(twice(key))
            } else if seek(facts, role, key) == facts.len() {
                Err(absent(key))
            } else {
                Ok((facts.filter(|f: Fact| !picks(f, role, key)), touched.push((role, key))))
            }
        },
    }
}

/// The facts after the edits, or the first fault.
pub open spec fn run(facts: Seq<Fact>, touched: Seq<(Role, i64)>, edits: Seq<Edit>) -> Result<Seq<Fact>, Fault>
    decreases edits.len(),
{
    if edits.len() == 0 {
        Ok(facts)
    } else {
        match step(facts, touched, edits[0]) {
            Err(f) => Err(f),
            Ok((next, seen)) => run(next, seen, edits.drop_first()),
        }
    }
}

/// The number of facts of `role`.
pub open spec fn count(facts: Seq<Fact>, role: Role) -> nat {
    facts.filter(|f: Fact| f.role == role).len()
}

/// Two facts of `role` share a rank.
pub open spec fn clash(facts: Seq<Fact>, role: Role) -> bool {
    exists|i: int, j: int| 0 <= i < j < facts.len() && #[trigger] facts[i].role == role && #[trigger] facts[j].role == role && facts[i].rank is Some && facts[i].rank == facts[j].rank
}

/// The fault of one role's rule, if broken.
pub open spec fn role_fault(facts: Seq<Fact>, role: Role) -> Option<Fault> {
    if role.is_singular() {
        if count(facts, role) > 1 {
            Some(("concord.change.cardinality"@, role.title() + " admits at most one fact"@))
        } else {
            None
        }
    } else if clash(facts, role) {
        Some(("concord.change.rank"@, role.title() + " ranks must be unique"@))
    } else {
        None
    }
}

/// The first broken role rule, taking roles in declared order from `i`.
pub open spec fn finality_fault(facts: Seq<Fact>, i: int) -> Option<Fault>
    decreases 7 - i,
{
    if i >= 7 || i < 0 {
        None
    } else {
        match role_fault(facts, Role::nth(i)) {
            Some(f) => Some(f),
            None => finality_fault(facts, i + 1),
        }
    }
}

/// The facts that the change-set creates, in order.
pub open spec fn creates(edits: Seq<Edit>) -> Seq<Fact>
    decreases edits.len(),
{
    if edits.len() == 0 {
        Seq::empty()
    } else {
        creates(edits.drop_last()) + match edits.last() {
            Edit::Create { fact } => seq![fact],
            _ => Seq::empty(),
        }
    }
}

/// The facts that the change-set revises, in order.
pub open spec fn revises(edits: Seq<Edit>) -> Seq<Fact>
    decreases edits.len(),
{
    if edits.len() == 0 {
        Seq::empty()
    } else {
        revises(edits.drop_last()) + match edits.last() {
            Edit::Revise { fact } => seq![fact],
            _ => Seq::empty(),
        }
    }
}

/// The facts that the change-set ends, in order.
pub open spec fn ends(edits: Seq<Edit>) -> Seq<(Role, i64)>
    decreases edits.len(),
{
    if edits.len() == 0 {
        Seq::empty()
    } else {
        ends(edits.drop_last()) + match edits.last() {
            Edit::End { role, key } => seq![(role, key)],
            _ => Seq::empty(),
        }
    }
}

/// Checks one fact's shape.
pub fn validate(fact: &Fact, held: bool) -> (r: Result<(), Error>)
    ensures
        match shape_fault(*fact, held) {
            None => r is Ok,
            Some(f) => r matches Err(e) && raises(e, f),
        },
{
    if held != fact.key.is_some() {
        return Err(Error::said("concord.change.key", "create omits a key and set requires one"));
    }
    if is_blank(fact.body.as_str()) {
        return Err(Error::said("concord.change.body", "fact body cannot be blank"));
    }
    if fact.role.singular() != fact.rank.is_none() {
        return Err(Error::said("concord.change.rank", "singular facts omit rank and ordered facts require rank"));
    }
    if let Some(rank) = fact.rank {
        if rank < 1 {
            return Err(Error::said("concord.change.rank", "fact rank must be positive"));
        }
    }
    let addition = fact.role == Role::Addition;
    if addition {
        let missing = match &fact.origin {
            None => true,
            Some(origin) => is_blank(origin.as_str()),
        };
        if missing {
            return Err(Error::said("concord.change.origin", "Addition requires a nonblank origin"));
        }
    }
    if !addition && (fact.title.is_some() || fact.origin.is_some()) {
        return Err(Error::said("concord.change.shape", "title and origin belong only to Addition"));
    }
    Ok(())
}

fn raise(fault: (&str, String)) -> (e: Error)
    ensures
        e.coded(fault.0@),
        e.message@ == fault.1@,
{
    Error::typed(fault.0, fault.1)
}

fn twice_error(key: i64) -> (e: Error)
    ensures
        raises(e, twice(key)),
{
    let text = join("fact ", render_i64(key).as_str());
    raise(("concord.change.duplicate", join(text.as_str(), " is edited more than once")))
}

fn absent_error(key: i64) -> (e: Error)
    ensures
        raises(e, absent(key)),
{
    let text = join("fact ", render_i64(key).as_str());
    raise(("concord.change.absent", join(text.as_str(), " not found")))
}

proof fn lemma_seek(facts: Seq<Fact>, role: Role, key: i64, i: int)
    requires
        0 <= i <= facts.len(),
        forall|j: int| 0 <= j < i ==> !picks(facts[j], role, key),
        i == facts.len() || picks(facts[i], role, key),
    ensures
        seek(facts, role, key) == i,
    decreases i,
{
    if i > 0 {
        lemma_seek(facts.drop_first(), role, key, i - 1);
    }
}

/// Records `(role, key)` as edited, refusing a second edit of it.
fn touch(touched: &mut Vec<(Role, i64)>, role: Role, key: i64) -> (r: Result<(), Error>)
    ensures
        match r {
            Ok(()) => !old(touched)@.contains((role, key)) && final(touched)@ == old(touched)@.push((role, key)),
            Err(e) => old(touched)@.contains((role, key)) && raises(e, twice(key)) && final(touched)@ == old(touched)@,
        },
{
    let mut i: usize = 0;
    while i < touched.len()
        invariant
            i <= touched@.len(),
            touched@ == old(touched)@,
            forall|j: int| 0 <= j < i ==> touched@[j] != (role, key),
        decreases touched@.len() - i,
    {
        let (r, k) = touched[i];
        if r == role && k == key {
            assert(touched@[i as int] == (role, key));
            return Err(twice_error(key));
        }
        i = i + 1;
    }
    touched.push((role, key));
    Ok(())
}

/// Replaces the first fact `key` of the fact's role.
fn replace(facts: &mut Vec<Fact>, fact: &Fact) -> (r: Result<(), Error>)
    requires
        fact.key is Some,
    ensures
        match r {
            Ok(()) => seek(old(facts)@, fact.role, fact.key->0) < old(facts)@.len() && final(facts)@ == old(facts)@.update(seek(old(facts)@, fact.role, fact.key->0), *fact),
            Err(e) => seek(old(facts)@, fact.role, fact.key->0) == old(facts)@.len() && raises(e, absent(fact.key->0)) && final(facts)@ == old(facts)@,
        },
{
    let key = match fact.key {
        Some(k) => k,
        None => 0,
    };
    let mut i: usize = 0;
    while i < facts.len()
        invariant
            i <= facts@.len(),
            facts@ == old(facts)@,
            key == fact.key->0,
            forall|j: int| 0 <= j < i ==> !picks(facts@[j], fact.role, key),
        decreases facts@.len() - i,
    {
        if facts[i].key == Some(key) && facts[i].role == fact.role {
            proof {
                lemma_seek(facts@, fact.role, key, i as int);
            }
            facts.set(i, fact.duplicate());
            return Ok(());
        }
        i = i + 1;
    }
    proof {
        lemma_seek(facts@, fact.role, key, i as int);
    }
    Err(absent_error(key))
}

/// Removes every fact `key` of `role`, refusing when there is none.
fn remove(facts: &mut Vec<Fact>, role: Role, key: i64) -> (r: Result<(), Error>)
    ensures
        match r {
            Ok(()) => seek(old(facts)@, role, key) < old(facts)@.len() && final(facts)@ == old(facts)@.filter(|f: Fact| !picks(f, role, key)),
            Err(e) => seek(old(facts)@, role, key) == old(facts)@.len() && raises(e, absent(key)) && final(facts)@ == old(facts)@,
        },
{
    let ghost keep = |f: Fact| !picks(f, role, key);
    let mut kept: Vec<Fact> = Vec::new();
    let mut hit: bool = false;
    let ghost mut first: int = facts@.len() as int;
    let mut i: usize = 0;
    while i < facts.len()
        invariant
            i <= facts@.len(),
            facts@ == old(facts)@,
            keep == (|f: Fact| !picks(f, role, key)),
            kept@ == facts@.take(i as int).filter(keep),
            hit == exists|j: int| 0 <= j < i && picks(facts@[j], role, key),
            hit ==> 0 <= first < i && picks(facts@[first], role, key) && forall|j: int| 0 <= j < first ==> !picks(facts@[j], role, key),
            !hit ==> forall|j: int| 0 <= j < i ==> !picks(facts@[j], role, key),
        decreases facts@.len() - i,
    {
        let f = &facts[i];
        proof {
            assert(facts@.take(i + 1) =~= facts@.take(i as int).push(facts@[i as int]));
            facts@.take(i as int).lemma_filter_push(facts@[i as int], keep);
        }
        if f.key == Some(key) && f.role == role {
            if !hit {
                proof {
                    first = i as int;
                }
            }
            hit = true;
        } else {
            kept.push(f.duplicate());
        }
        i = i + 1;
    }
    proof {
        assert(facts@.take(facts@.len() as int) =~= facts@);
    }
    if hit {
        proof {
            lemma_seek(facts@, role, key, first);
        }
        *facts = kept;
        Ok(())
    } else {
        proof {
            lemma_seek(facts@, role, key, facts@.len() as int);
        }
        Err(absent_error(key))
    }
}

/// Two facts of `role` before index `n` share a rank.
pub open spec fn clash_before(facts: Seq<Fact>, role: Role, n: int) -> bool {
    exists|i: int, j: int| 0 <= i < j < n && #[trigger] facts[i].role == role && #[trigger] facts[j].role == role && facts[i].rank is Some && facts[i].rank == facts[j].rank
}

/// The number of facts of `role` among the first `n`.
fn tally(facts: &[Fact], role: Role) -> (r: usize)
    ensures
        r == count(facts@, role),
{
    let ghost held = |f: Fact| f.role == role;
    let mut n: usize = 0;
    let mut i: usize = 0;
    while i < facts.len()
        invariant
            i <= facts@.len(),
            held == (|f: Fact| f.role == role),
            n == facts@.take(i as int).filter(held).len(),
            n <= i,
        decreases facts@.len() - i,
    {
        proof {
            assert(facts@.take(i + 1) =~= facts@.take(i as int).push(facts@[i as int]));
            facts@.take(i as int).lemma_filter_push(facts@[i as int], held);
        }
        if facts[i].role == role {
            n = n + 1;
        }
        i = i + 1;
    }
    proof {
        assert(facts@.take(facts@.len() as int) =~= facts@);
    }
    n
}

/// Whether two facts of `role` share a rank.
fn clashes(facts: &[Fact], role: Role) -> (r: bool)
    ensures
        r == clash(facts@, role),
{
    let mut j: usize = 0;
    while j < facts.len()
        invariant
            j <= facts@.len(),
            !clash_before(facts@, role, j as int),
        decreases facts@.len() - j,
    {
        if facts[j].role == role && facts[j].rank.is_some() {
            let mut i: usize = 0;
            while i < j
                invariant
                    i <= j < facts@.len(),
                    facts@[j as int].role == role,
                    facts@[j as int].rank is Some,
                    forall|k: int| 0 <= k < i ==> !(facts@[k].role == role && facts@[k].rank == facts@[j as int].rank),
                decreases j - i,
            {
                if facts[i].role == role && facts[i].rank == facts[j].rank {
                    assert(facts@[i as int].role == role && facts@[j as int].role == role);
                    return true;
                }
                i = i + 1;
            }
            assert forall|a: int, b: int| 0 <= a < b < j + 1 && #[trigger] facts@[a].role == role && #[trigger] facts@[b].role == role && facts@[a].rank is Some implies facts@[a].rank != facts@[b].rank by {
                if b < j {
                    assert(!clash_before(facts@, role, j as int));
                }
            }
        } else {
            assert forall|a: int, b: int| 0 <= a < b < j + 1 && #[trigger] facts@[a].role == role && #[trigger] facts@[b].role == role && facts@[a].rank is Some implies facts@[a].rank != facts@[b].rank by {
                if b < j {
                    assert(!clash_before(facts@, role, j as int));
                }
            }
        }
        j = j + 1;
    }
    false
}

/// Checks the rule of one role over the final facts.
fn hold(facts: &[Fact], role: Role) -> (r: Result<(), Error>)
    ensures
        match role_fault(facts@, role) {
            None => r is Ok,
            Some(f) => r matches Err(e) && raises(e, f),
        },
{
    if role.singular() {
        if tally(facts, role) > 1 {
            return Err(raise(("concord.change.cardinality", join(role.name(), " admits at most one fact"))));
        }
        return Ok(());
    }
    if clashes(facts, role) {
        return Err(raise(("concord.change.rank", join(role.name(), " ranks must be unique"))));
    }
    Ok(())
}

/// Checks every role's rule over the facts that a change-set leaves, in
/// declared role order.
pub fn finality(facts: &[Fact]) -> (r: Result<(), Error>)
    ensures
        match finality_fault(facts@, 0) {
            None => r is Ok,
            Some(f) => r matches Err(e) && raises(e, f),
        },
{
    let mut i: usize = 0;
    while i < 7
        invariant
            i <= 7,
            finality_fault(facts@, 0) == finality_fault(facts@, i as int),
        decreases 7 - i,
    {
        let role = Role::at(i);
        match hold(facts, role) {
            Err(e) => {
                return Err(e);
            },
            Ok(()) => {},
        }
        i = i + 1;
    }
    Ok(())
}

/// The outcome that `build` owes for `edits` against `current`.
pub open spec fn prepared_by(current: Seq<Fact>, edits: Seq<Edit>, r: Result<Prepared, Error>) -> bool {
    match run(current, Seq::empty(), edits) {
        Err(f) => r matches Err(e) && raises(e, f),
        Ok(facts) => match finality_fault(facts, 0) {
            Some(f) => r matches Err(e) && raises(e, f),
            None => r matches Ok(p) && p.create@ == creates(edits) && p.set@ == revises(edits) && p.end@ == ends(edits),
        },
    }
}

proof fn lemma_run_step(facts: Seq<Fact>, touched: Seq<(Role, i64)>, edits: Seq<Edit>, i: int)
    requires
        0 <= i < edits.len(),
    ensures
        run(facts, touched, edits.skip(i)) == match step(facts, touched, edits[i]) {
            Err(f) => Err(f),
            Ok((next, seen)) => run(next, seen, edits.skip(i + 1)),
        },
{
    assert(edits.skip(i)[0] == edits[i]);
    assert(edits.skip(i).drop_first() =~= edits.skip(i + 1));
}

/// Applies the edits of a change-set to the current facts, in order, and
/// checks that the facts they leave keep every role's rules.  Returns the
/// creates, sets and ends, each in the order given.
pub fn build(current: &[Fact], edits: &[Edit]) -> (r: Result<Prepared, Error>)
    ensures
        prepared_by(current@, edits@, r),
{
    let mut facts: Vec<Fact> = Vec::new();
    let mut k: usize = 0;
    while k < current.len()
        invariant
            k <= current@.len(),
            facts@ == current@.take(k as int),
        decreases current@.len() - k,
    {
        facts.push(current[k].duplicate());
        proof {
            assert(current@.take(k + 1) =~= current@.take(k as int).push(current@[k as int]));
        }
        k = k + 1;
    }
    proof {
        assert(current@.take(current@.len() as int) =~= current@);
    }
    let mut touched: Vec<(Role, i64)> = Vec::new();
    let mut prepared = Prepared { create: Vec::new(), set: Vec::new(), end: Vec::new() };
    let mut i: usize = 0;
    proof {
        assert(edits@.skip(0) =~= edits@);
        assert(edits@.take(0) =~= Seq::<Edit>::empty());
    }
    while i < edits.len()
        invariant
            i <= edits@.len(),
            run(current@, Seq::empty(), edits@) == run(facts@, touched@, edits@.skip(i as int)),
            prepared.create@ == creates(edits@.take(i as int)),
            prepared.set@ == revises(edits@.take(i as int)),
            prepared.end@ == ends(edits@.take(i as int)),
        decreases edits@.len() - i,
    {
        proof {
            lemma_run_step(facts@, touched@, edits@, i as int);
            let t = edits@.take(i + 1);
            assert(t.drop_last() =~= edits@.take(i as int));
            assert(t.last() == edits@[i as int]);
        }
        match &edits[i] {
            Edit::Create { fact } => {
                match validate(fact, false) {
                    Err(e) => {
                        return Err(e);
                    },
                    Ok(()) => {},
                }
                facts.push(fact.duplicate());
                prepared.create.push(fact.duplicate());
            },
            Edit::Revise { fact } => {
                match validate(fact, true) {
                    Err(e) => {
                        return Err(e);
                    },
                    Ok(()) => {},
                }
                let key = match fact.key {
                    Some(key) => key,
                    None => 0,
                };
                match touch(&mut touched, fact.role, key) {
                    Err(e) => {
                        return Err(e);
                    },
                    Ok(()) => {},
                }
                match replace(&mut facts, fact) {
                    Err(e) => {
                        return Err(e);
                    },
                    Ok(()) => {},
                }
                prepared.set.push(fact.duplicate());
            },
            Edit::End { role, key } => {
                match touch(&mut touched, *role, *key) {
                    Err(e) => {
                        return Err(e);
                    },
                    Ok(()) => {},
                }
                match remove(&mut facts, *role, *key) {
                    Err(e) => {
                        return Err(e);
                    },
                    Ok(()) => {},
                }
                prepared.end.push((*role, *key));
            },
        }
        i = i + 1;
    }
    proof {
        assert(edits@.skip(edits@.len() as int) =~= Seq::<Edit>::empty());
        assert(edits@.take(edits@.len() as int) =~= edits@);
    }
    match finality(facts.as_slice()) {
        Err(e) => Err(e),
        Ok(()) => Ok(prepared),
    }
}

/// The larger of a running top rank and one more rank.
pub open spec fn bump(top: Option<i64>, rank: Option<i64>) -> Option<i64> {
    match (top, rank) {
        (None, r) => r,
        (Some(t), None) => Some(t),
        (Some(t), Some(r)) => if r > t { Some(r) } else { Some(t) },
    }
}

/// The largest rank among `top` and the ranks of `facts`.
pub open spec fn climb(top: Option<i64>, facts: Seq<Fact>) -> Option<i64>
    decreases facts.len(),
{
    if facts.len() == 0 {
        top
    } else {
        climb(bump(top, facts[0].rank), facts.drop_first())
    }
}

/// The rank that temporary ranks count up from: the largest rank held,
/// created or set, or 0 when no fact has one.
pub open spec fn floor_rank(current: Seq<Fact>, prepared: Prepared) -> int {
    match climb(climb(climb(None, current), prepared.create@), prepared.set@) {
        Some(r) => r as int,
        None => 0,
    }
}

/// The ordered (non-singular) facts that a change-set sets.
pub open spec fn reranked(set: Seq<Fact>) -> Seq<Fact> {
    set.filter(|f: Fact| !f.role.is_singular())
}

pub open spec fn overflow() -> Fault {
    ("concord.change.rank"@, "temporary rank exceeds integer range"@)
}

/// Folds the ranks of `facts` into `top`.
fn scan_ranks(top: Option<i64>, facts: &[Fact]) -> (r: Option<i64>)
    ensures
        r == climb(top, facts@),
{
    let mut t = top;
    let mut i: usize = 0;
    proof {
        assert(facts@.skip(0) =~= facts@);
    }
    while i < facts.len()
        invariant
            i <= facts@.len(),
            climb(t, facts@.skip(i as int)) == climb(top, facts@),
        decreases facts@.len() - i,
    {
        proof {
            assert(facts@.skip(i as int)[0] == facts@[i as int]);
            assert(facts@.skip(i as int).drop_first() =~= facts@.skip(i + 1));
        }
        t = match (t, facts[i].rank) {
            (None, r) => r,
            (Some(a), None) => Some(a),
            (Some(a), Some(b)) => if b > a { Some(b) } else { Some(a) },
        };
        i = i + 1;
    }
    proof {
        assert(facts@.skip(facts@.len() as int) =~= Seq::<Fact>::empty());
    }
    t
}

/// Temporary ranks for the ordered facts that a change-set sets, so that
/// they can be rewritten without colliding with a rank still held: each
/// gets the next rank above every rank held, created or set, in the order
/// of the sets.
pub fn temporary(current: &[Fact], prepared: &Prepared) -> (r: Result<Vec<((Role, i64), i64)>, Error>)
    requires
        forall|i: int| 0 <= i < prepared.set@.len() && !prepared.set@[i].role.is_singular() ==> (#[trigger] prepared.set@[i]).key is Some,
    ensures
        (r is Err) == (floor_rank(current@, *prepared) + reranked(prepared.set@).len() > i64::MAX),
        r matches Err(e) ==> raises(e, overflow()),
        r matches Ok(v) ==> {
            &&& v@.len() == reranked(prepared.set@).len()
            &&& forall|k: int| 0 <= k < v@.len() ==> #[trigger] v@[k] == ((reranked(prepared.set@)[k].role, reranked(prepared.set@)[k].key->0), (floor_rank(current@, *prepared) + k + 1) as i64)
        },
{
    let top = scan_ranks(scan_ranks(scan_ranks(None, current), prepared.create.as_slice()), prepared.set.as_slice());
    let mut next: i64 = match top {
        Some(t) => t,
        None => 0,
    };
    let ghost base = floor_rank(current@, *prepared);
    let ghost keep = |f: Fact| !f.role.is_singular();
    let set = &prepared.set;
    let mut ranks: Vec<((Role, i64), i64)> = Vec::new();
    let mut i: usize = 0;
    while i < set.len()
        invariant
            i <= set@.len(),
            set@ == prepared.set@,
            base == floor_rank(current@, *prepared),
            keep == (|f: Fact| !f.role.is_singular()),
            forall|j: int| 0 <= j < set@.len() && !set@[j].role.is_singular() ==> (#[trigger] set@[j]).key is Some,
            ranks@.len() == set@.take(i as int).filter(keep).len(),
            next == base + ranks@.len(),
            forall|k: int| 0 <= k < ranks@.len() ==> #[trigger] ranks@[k] == ((set@.take(i as int).filter(keep)[k].role, set@.take(i as int).filter(keep)[k].key->0), (base + k + 1) as i64),
        decreases set@.len() - i,
    {
        proof {
            assert(set@.take(i + 1) =~= set@.take(i as int).push(set@[i as int]));
            set@.take(i as int).lemma_filter_push(set@[i as int], keep);
        }
        let fact = &set[i];
        if !fact.role.singular() {
            if next == i64::MAX {
                proof {
                    lemma_filter_prefix(set@, keep, i + 1);
                    assert(set@.take(i + 1).filter(keep).len() == ranks@.len() + 1);
                    assert(reranked(prepared.set@) == set@.filter(keep));
                }
                return Err(raise(("concord.change.rank", String::from_str("temporary rank exceeds integer range"))));
            }
            next = next + 1;
            let key = match fact.key {
                Some(k) => k,
                None => 0,
            };
            ranks.push(((fact.role, key), next));
        }
        i = i + 1;
    }
    proof {
        assert(set@.take(set@.len() as int) =~= set@);
    }
    Ok(ranks)
}

/// A filter over a prefix is no longer than the filter over the whole.
proof fn lemma_filter_prefix(s: Seq<Fact>, keep: spec_fn(Fact) -> bool, n: int)
    requires
        0 <= n <= s.len(),
    ensures
        s.take(n).filter(keep).len() <= s.filter(keep).len(),
    decreases s.len() - n,
{
    if n < s.len() {
        assert(s.take(n + 1) =~= s.take(n).push(s[n]));
        s.take(n).lemma_filter_push(s[n], keep);
        lemma_filter_prefix(s, keep, n + 1);
    } else {
        assert(s.take(n) =~= s);
    }
}

} // verus!
