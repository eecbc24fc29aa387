//! How a legacy memory becomes current facts and Phase entries: a legacy
//! text becomes one Addition; a structured one maps each fixed section to
//! its role or part, and keeps its preamble as an Addition.
use crate::change::{Entry, Fact, Part, Role};
use crate::text::{trim, trimmed};
use vstd::prelude::*;

verus! {

/// The sections of a structured memory text, in order, and its preamble.
#[derive(Clone, Debug)]
pub struct Extracted {
    pub sections: Vec<(String, String)>,
    pub preamble: Option<String>,
}

/// A fact as plain values: role, rank, title, body, origin.
pub type Shape = (Role, Option<i64>, Option<Seq<char>>, Seq<char>, Option<Seq<char>>);

pub open spec fn text_of(t: Option<String>) -> Option<Seq<char>> {
    match t {
        Some(s) => Some(s@),
        None => None,
    }
}

/// A new fact as plain values.
pub open spec fn fact_shape(f: Fact) -> Shape {
    (f.role, f.rank, text_of(f.title), f.body@, text_of(f.origin))
}

pub open spec fn fact_shapes(facts: Seq<Fact>) -> Seq<Shape> {
    facts.map_values(|f: Fact| fact_shape(f))
}

/// The role and rank of a MAIN.md section.
pub open spec fn main_role(key: Seq<char>) -> (Role, Option<i64>) {
    if key == "goal"@ {
        (Role::Goal, None)
    } else if key == "constraints"@ {
        (Role::Constraint, Some(1))
    } else if key == "decisions"@ {
        (Role::Decision, Some(1))
    } else if key == "focus"@ {
        (Role::Focus, None)
    } else if key == "questions"@ {
        (Role::Question, Some(1))
    } else {
        (Role::Next, None)
    }
}

/// The sections MAIN.md has.
pub open spec fn main_key(key: Seq<char>) -> bool {
    key == "goal"@ || key == "constraints"@ || key == "decisions"@ || key == "focus"@ || key == "questions"@ || key == "next"@
}

/// The facts that the sections give, skipping empty ones.
pub open spec fn section_facts(sections: Seq<(String, String)>) -> Seq<Shape>
    decreases sections.len(),
{
    if sections.len() == 0 {
        Seq::empty()
    } else {
        let (key, body) = sections.last();
        section_facts(sections.drop_last()) + if body@.len() == 0 {
            Seq::<Shape>::empty()
        } else {
            seq![(main_role(key@).0, main_role(key@).1, None::<Seq<char>>, body@, None::<Seq<char>>)]
        }
    }
}

/// The facts a legacy MAIN.md gives: a legacy text is one Addition, unless
/// blank; a structured one gives its sections' facts, then its preamble as
/// an Addition.
pub open spec fn main_facts(source: Seq<char>, legacy: bool, sections: Seq<(String, String)>, preamble: Option<String>) -> Seq<Shape> {
    if legacy {
        if trimmed(source).len() == 0 {
            Seq::empty()
        } else {
            seq![(Role::Addition, Some(1i64), Some("MAIN.md"@), trimmed(source), Some("legacy-main"@))]
        }
    } else {
        section_facts(sections) + match preamble {
            Some(p) => seq![(Role::Addition, Some(1i64), Some("MAIN.md preamble"@), p@, Some("legacy-main"@))],
            None => Seq::<Shape>::empty(),
        }
    }
}

fn push_fact(held: &mut Vec<Fact>, f: Fact)
    ensures
        final(held)@ == old(held)@.push(f),
        fact_shapes(final(held)@) == fact_shapes(old(held)@).push(fact_shape(f)),
{
    let ghost before = held@;
    held.push(f);
    proof {
        assert(fact_shapes(held@) =~= fact_shapes(before).push(fact_shape(f)));
    }
}

/// The current facts of a legacy MAIN.md; `legacy` says whether it is a
/// legacy text, `extracted` what a structured one holds.
pub fn facts(source: &str, legacy: bool, extracted: &Extracted) -> (r: Vec<Fact>)
    requires
        !legacy ==> forall|i: int| 0 <= i < extracted.sections@.len() ==> main_key((#[trigger] extracted.sections@[i]).0@),
    ensures
        fact_shapes(r@) == main_facts(source@, legacy, extracted.sections@, extracted.preamble),
        forall|i: int| 0 <= i < r@.len() ==> (#[trigger] r@[i]).key is None,
{
    proof {
        reveal_strlit("MAIN.md");
        reveal_strlit("legacy-main");
        reveal_strlit("MAIN.md preamble");
        reveal_strlit("goal");
        reveal_strlit("constraints");
        reveal_strlit("decisions");
        reveal_strlit("focus");
        reveal_strlit("questions");
        reveal_strlit("next");
    }
    let mut held: Vec<Fact> = Vec::new();
    if legacy {
        let body = trim(source);
        if body.as_str().unicode_len() == 0 {
            proof {
                assert(fact_shapes(held@) =~= Seq::<Shape>::empty());
            }
            return held;
        }
        push_fact(&mut held, Fact {
            key: None,
            role: Role::Addition,
            rank: Some(1),
            title: Some(String::from_str("MAIN.md")),
            body,
            origin: Some(String::from_str("legacy-main")),
        });
        proof {
            assert(fact_shapes(Seq::<Fact>::empty()) =~= Seq::<Shape>::empty());
            assert(fact_shapes(held@) =~= main_facts(source@, legacy, extracted.sections@, extracted.preamble));
        }
        return held;
    }
    let sections = &extracted.sections;
    let mut i: usize = 0;
    proof {
        assert(sections@.take(0) =~= Seq::<(String, String)>::empty());
        assert(fact_shapes(held@) =~= Seq::<Shape>::empty());
    }
    while i < sections.len()
        invariant
            i <= sections@.len(),
            sections@ == extracted.sections@,
            forall|k: int| 0 <= k < sections@.len() ==> main_key((#[trigger] sections@[k]).0@),
            fact_shapes(held@) == section_facts(sections@.take(i as int)),
            forall|k: int| 0 <= k < held@.len() ==> (#[trigger] held@[k]).key is None,
        decreases sections@.len() - i,
    {
        proof {
            let t = sections@.take(i + 1);
            assert(t.drop_last() =~= sections@.take(i as int));
            assert(t.last() == sections@[i as int]);
            reveal_strlit("goal");
            reveal_strlit("constraints");
            reveal_strlit("decisions");
            reveal_strlit("focus");
            reveal_strlit("questions");
            reveal_strlit("next");
        }
        let ghost prior = section_facts(sections@.take(i as int));
        let (key, body) = (&sections[i].0, &sections[i].1);
        if body.as_str().unicode_len() != 0 {
            let k = key.as_str();
            let (role, rank): (Role, Option<i64>) = if crate::text::same(k, "goal") {
                (Role::Goal, None)
            } else if crate::text::same(k, "constraints") {
                (Role::Constraint, Some(1))
            } else if crate::text::same(k, "decisions") {
                (Role::Decision, Some(1))
            } else if crate::text::same(k, "focus") {
                (Role::Focus, None)
            } else if crate::text::same(k, "questions") {
                (Role::Question, Some(1))
            } else {
                (Role::Next, None)
            };
            push_fact(&mut held, Fact { key: None, role, rank, title: None, body: body.clone(), origin: None });
            proof {
                assert(prior.push(fact_shape(held@.last())) =~= prior + seq![(main_role(key@).0, main_role(key@).1, None::<Seq<char>>, body@, None::<Seq<char>>)]);
            }
        } else {
            proof {
                assert(prior + Seq::<Shape>::empty() =~= prior);
            }
        }
        i = i + 1;
    }
    proof {
        assert(sections@.take(sections@.len() as int) =~= sections@);
    }
    let ghost body_facts = fact_shapes(held@);
    match &extracted.preamble {
        Some(p) => {
            push_fact(&mut held, Fact {
                key: None,
                role: Role::Addition,
                rank: Some(1),
                title: Some(String::from_str("MAIN.md preamble")),
                body: p.clone(),
                origin: Some(String::from_str("legacy-main")),
            });
            proof {
                assert(fact_shapes(held@) =~= body_facts + seq![(Role::Addition, Some(1i64), Some("MAIN.md preamble"@), p@, Some("legacy-main"@))]);
            }
        },
        None => {
            proof {
                assert(body_facts + Seq::<Shape>::empty() =~= body_facts);
            }
        },
    }
    held
}

/// An entry as plain values: part, rank, title, body, origin.
pub type EntryShape = (Part, Option<i64>, Option<Seq<char>>, Seq<char>, Option<Seq<char>>);

pub open spec fn entry_shape(e: Entry) -> EntryShape {
    (e.part, e.rank, text_of(e.title), e.body@, text_of(e.origin))
}

pub open spec fn entry_shapes(entries: Seq<Entry>) -> Seq<EntryShape> {
    entries.map_values(|e: Entry| entry_shape(e))
}

/// The part and rank of a PHASE section.
pub open spec fn phase_part(key: Seq<char>) -> (Part, Option<i64>) {
    if key == "outcome"@ {
        (Part::Outcome, None)
    } else if key == "decisions"@ {
        (Part::Decision, Some(1))
    } else if key == "evidence"@ {
        (Part::Evidence, Some(1))
    } else {
        (Part::Carry, Some(1))
    }
}

/// The sections a PHASE file has.
pub open spec fn phase_key(key: Seq<char>) -> bool {
    key == "outcome"@ || key == "decisions"@ || key == "evidence"@ || key == "carry-forward"@
}

pub open spec fn section_entries(sections: Seq<(String, String)>) -> Seq<EntryShape>
    decreases sections.len(),
{
    if sections.len() == 0 {
        Seq::empty()
    } else {
        let (key, body) = sections.last();
        section_entries(sections.drop_last()) + if body@.len() == 0 {
            Seq::<EntryShape>::empty()
        } else {
            seq![(phase_part(key@).0, phase_part(key@).1, None::<Seq<char>>, body@, None::<Seq<char>>)]
        }
    }
}

/// The entries a legacy PHASE file gives: a legacy text is one Addition,
/// unless blank; a structured one gives its sections' entries, then its
/// preamble as an Addition.
pub open spec fn phase_entries(source: Seq<char>, legacy: bool, sections: Seq<(String, String)>, preamble: Option<String>) -> Seq<EntryShape> {
    if legacy {
        if trimmed(source).len() == 0 {
            Seq::empty()
        } else {
            seq![(Part::Addition, Some(1i64), Some("PHASE preamble"@), trimmed(source), Some("legacy-phase"@))]
        }
    } else {
        section_entries(sections) + match preamble {
            Some(p) => seq![(Part::Addition, Some(1i64), Some("PHASE preamble"@), p@, Some("legacy-phase"@))],
            None => Seq::<EntryShape>::empty(),
        }
    }
}

fn push_entry(held: &mut Vec<Entry>, e: Entry)
    ensures
        final(held)@ == old(held)@.push(e),
        entry_shapes(final(held)@) == entry_shapes(old(held)@).push(entry_shape(e)),
{
    let ghost before = held@;
    held.push(e);
    proof {
        assert(entry_shapes(held@) =~= entry_shapes(before).push(entry_shape(e)));
    }
}

/// The Phase entries of a legacy PHASE file; `legacy` says whether it is a
/// legacy text, `extracted` what a structured one holds.
pub fn entries(source: &str, legacy: bool, extracted: &Extracted) -> (r: Vec<Entry>)
    requires
        !legacy ==> forall|i: int| 0 <= i < extracted.sections@.len() ==> phase_key((#[trigger] extracted.sections@[i]).0@),
    ensures
        entry_shapes(r@) == phase_entries(source@, legacy, extracted.sections@, extracted.preamble),
        forall|i: int| 0 <= i < r@.len() ==> (#[trigger] r@[i]).key is None,
{
    proof {
        reveal_strlit("PHASE preamble");
        reveal_strlit("legacy-phase");
        reveal_strlit("outcome");
        reveal_strlit("decisions");
        reveal_strlit("evidence");
        reveal_strlit("carry-forward");
    }
    let mut held: Vec<Entry> = Vec::new();
    if legacy {
        let body = trim(source);
        if body.as_str().unicode_len() == 0 {
            proof {
                assert(entry_shapes(held@) =~= Seq::<EntryShape>::empty());
            }
            return held;
        }
        push_entry(&mut held, Entry {
            key: None,
            part: Part::Addition,
            rank: Some(1),
            title: Some(String::from_str("PHASE preamble")),
            body,
            origin: Some(String::from_str("legacy-phase")),
        });
        proof {
            assert(entry_shapes(Seq::<Entry>::empty()) =~= Seq::<EntryShape>::empty());
            assert(entry_shapes(held@) =~= phase_entries(source@, legacy, extracted.sections@, extracted.preamble));
        }
        return held;
    }
    let sections = &extracted.sections;
    let mut i: usize = 0;
    proof {
        assert(sections@.take(0) =~= Seq::<(String, String)>::empty());
        assert(entry_shapes(held@) =~= Seq::<EntryShape>::empty());
    }
    while i < sections.len()
        invariant
            i <= sections@.len(),
            sections@ == extracted.sections@,
            forall|k: int| 0 <= k < sections@.len() ==> phase_key((#[trigger] sections@[k]).0@),
            entry_shapes(held@) == section_entries(sections@.take(i as int)),
            forall|k: int| 0 <= k < held@.len() ==> (#[trigger] held@[k]).key is None,
        decreases sections@.len() - i,
    {
        proof {
            let t = sections@.take(i + 1);
            assert(t.drop_last() =~= sections@.take(i as int));
            assert(t.last() == sections@[i as int]);
            reveal_strlit("outcome");
            reveal_strlit("decisions");
            reveal_strlit("evidence");
            reveal_strlit("carry-forward");
        }
        let ghost prior = section_entries(sections@.take(i as int));
        let (key, body) = (&sections[i].0, &sections[i].1);
        if body.as_str().unicode_len() != 0 {
            let k = key.as_str();
            let (part, rank): (Part, Option<i64>) = if crate::text::same(k, "outcome") {
                (Part::Outcome, None)
            } else if crate::text::same(k, "decisions") {
                (Part::Decision, Some(1))
            } else if crate::text::same(k, "evidence") {
                (Part::Evidence, Some(1))
            } else {
                (Part::Carry, Some(1))
            };
            push_entry(&mut held, Entry { key: None, part, rank, title: None, body: body.clone(), origin: None });
            proof {
                assert(prior.push(entry_shape(held@.last())) =~= prior + seq![(phase_part(key@).0, phase_part(key@).1, None::<Seq<char>>, body@, None::<Seq<char>>)]);
            }
        } else {
            proof {
                assert(prior + Seq::<EntryShape>::empty() =~= prior);
            }
        }
        i = i + 1;
    }
    proof {
        assert(sections@.take(sections@.len() as int) =~= sections@);
    }
    let ghost body_entries = entry_shapes(held@);
    match &extracted.preamble {
        Some(p) => {
            push_entry(&mut held, Entry {
                key: None,
                part: Part::Addition,
                rank: Some(1),
                title: Some(String::from_str("PHASE preamble")),
                body: p.clone(),
                origin: Some(String::from_str("legacy-phase")),
            });
            proof {
                assert(entry_shapes(held@) =~= body_entries + seq![(Part::Addition, Some(1i64), Some("PHASE preamble"@), p@, Some("legacy-phase"@))]);
            }
        },
        None => {
            proof {
                assert(body_entries + Seq::<EntryShape>::empty() =~= body_entries);
            }
        },
    }
    held
}

/// The highest rank among the Addition facts that have one, if any.
pub open spec fn top_addition(facts: Seq<Fact>) -> Option<i64>
    decreases facts.len(),
{
    if facts.len() == 0 {
        None
    } else {
        let f = facts.last();
        let rest = top_addition(facts.drop_last());
        if f.role == Role::Addition && f.rank is Some {
            match rest {
                Some(m) => if f.rank->0 > m { Some(f.rank->0) } else { Some(m) },
                None => Some(f.rank->0),
            }
        } else {
            rest
        }
    }
}

/// The rank after which a legacy registry's fields are added.
pub open spec fn base_rank(facts: Seq<Fact>) -> int {
    match top_addition(facts) {
        Some(m) => m as int,
        None => 0,
    }
}

/// The current facts a migrated Task must hold: those of its MAIN.md,
/// then one Addition for each extra field of its legacy registry entry,
/// ranked on after the highest Addition rank (0 where there is none), with
/// the field's name as title and its value (written as text) as body.
pub fn current(facts: &Vec<Fact>, extra: &Vec<(String, String)>) -> (r: Vec<Fact>)
    requires
        base_rank(facts@) + extra@.len() <= i64::MAX,
    ensures
        r@.len() == facts@.len() + extra@.len(),
        r@.take(facts@.len() as int) == facts@,
        forall|i: int| 0 <= i < extra@.len() ==> {
            let f = #[trigger] r@[facts@.len() + i];
            &&& f.key is None
            &&& f.role == Role::Addition
            &&& f.rank == Some((base_rank(facts@) + i + 1) as i64)
            &&& text_of(f.title) == Some(extra@[i].0@)
            &&& f.body@ == extra@[i].1@
            &&& text_of(f.origin) == Some("legacy-registry"@)
        },
{
    let mut held: Vec<Fact> = Vec::new();
    let mut top: Option<i64> = None;
    let mut i: usize = 0;
    proof {
        assert(facts@.take(0) =~= Seq::<Fact>::empty());
    }
    while i < facts.len()
        invariant
            i <= facts@.len(),
            held@ == facts@.take(i as int),
            top == top_addition(facts@.take(i as int)),
        decreases facts@.len() - i,
    {
        proof {
            let t = facts@.take(i + 1);
            assert(t.drop_last() =~= facts@.take(i as int));
            assert(t.last() == facts@[i as int]);
        }
        let f = facts[i].duplicate();
        if f.role == Role::Addition {
            if let Some(k) = f.rank {
                top = match top {
                    Some(m) => if k > m { Some(k) } else { Some(m) },
                    None => Some(k),
                };
            }
        }
        held.push(f);
        proof {
            assert(held@ =~= facts@.take(i + 1));
        }
        i = i + 1;
    }
    proof {
        assert(facts@.take(facts@.len() as int) =~= facts@);
    }
    let mut rank: i64 = match top {
        Some(m) => m,
        None => 0,
    };
    let n = facts.len();
    let mut j: usize = 0;
    while j < extra.len()
        invariant
            j <= extra@.len(),
            n == facts@.len(),
            base_rank(facts@) + extra@.len() <= i64::MAX,
            rank == base_rank(facts@) + j,
            held@.len() == n + j,
            held@.take(n as int) == facts@,
            forall|k: int| 0 <= k < j ==> {
                let f = #[trigger] held@[n + k];
                &&& f.key is None
                &&& f.role == Role::Addition
                &&& f.rank == Some((base_rank(facts@) + k + 1) as i64)
                &&& text_of(f.title) == Some(extra@[k].0@)
                &&& f.body@ == extra@[k].1@
                &&& text_of(f.origin) == Some("legacy-registry"@)
            },
        decreases extra@.len() - j,
    {
        rank = rank + 1;
        let f = Fact {
            key: None,
            role: Role::Addition,
            rank: Some(rank),
            title: Some(extra[j].0.clone()),
            body: extra[j].1.clone(),
            origin: Some(String::from_str("legacy-registry")),
        };
        let ghost before = held@;
        held.push(f);
        proof {
            assert(held@.take(n as int) =~= before.take(n as int));
            assert forall|k: int| 0 <= k < j + 1 implies {
                let f = #[trigger] held@[n + k];
                &&& f.key is None
                &&& f.role == Role::Addition
                &&& f.rank == Some((base_rank(facts@) + k + 1) as i64)
                &&& text_of(f.title) == Some(extra@[k].0@)
                &&& f.body@ == extra@[k].1@
                &&& text_of(f.origin) == Some("legacy-registry"@)
            } by {
                if k < j {
                    assert(held@[n + k] == before[n + k]);
                }
            }
        }
        j = j + 1;
    }
    held
}

} // verus!
