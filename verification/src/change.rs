//! The current facts of a Task, the change-sets that edit them, and the
//! immutable Phases that settle them.
use crate::state::Node;
use crate::forge::Reference;
use vstd::prelude::*;

verus! {

/// The role a current fact plays.  Goal, Focus and Next are singular; the
/// others are ordered by rank.
#[derive(Clone, Copy, Debug, PartialEq, Eq, PartialOrd, Ord, Structural)]
pub enum Role {
    Goal,
    Constraint,
    Decision,
    Focus,
    Question,
    Next,
    Addition,
}

/// A current fact.  `key` is absent until the estate stores it.
#[derive(Clone, Debug, PartialEq, Eq)]
pub struct Fact {
    pub key: Option<i64>,
    pub role: Role,
    pub rank: Option<i64>,
    pub title: Option<String>,
    pub body: String,
    pub origin: Option<String>,
}

/// One edit of a change-set.
#[derive(Clone, Debug, PartialEq, Eq)]
pub enum Edit {
    Create { fact: Fact },
    Revise { fact: Fact },
    End { role: Role, key: i64 },
}

/// A versioned change-set against a Task revision.
#[derive(Clone, Debug, PartialEq, Eq)]
pub struct Patch {
    pub version: u32,
    pub task: String,
    pub revision: i64,
    pub edits: Vec<Edit>,
}

/// A Task with its current facts and its forge reference.
#[derive(Clone, Debug, PartialEq, Eq)]
pub struct Current {
    pub task: Node,
    pub facts: Vec<Fact>,
    pub reference: Option<Reference>,
}

/// The part an entry plays in a Phase.  Outcome is singular; the others are
/// ordered by rank.
#[derive(Clone, Copy, Debug, PartialEq, Eq, PartialOrd, Ord, Structural)]
pub enum Part {
    Outcome,
    Decision,
    Evidence,
    Carry,
    Addition,
}

/// An entry of a Phase.
#[derive(Clone, Debug, PartialEq, Eq)]
pub struct Entry {
    pub key: Option<i64>,
    pub part: Part,
    pub rank: Option<i64>,
    pub title: Option<String>,
    pub body: String,
    pub origin: Option<String>,
}

/// A settle request: a new Phase and the current-state delta that goes
/// with it.
#[derive(Clone, Debug, PartialEq, Eq)]
pub struct Settle {
    pub version: u32,
    pub task: String,
    pub revision: i64,
    pub phase: Vec<Entry>,
    pub edits: Vec<Edit>,
}

/// A frozen Phase.
#[derive(Clone, Debug, PartialEq, Eq)]
pub struct Phase {
    pub key: i64,
    pub number: i64,
    pub entries: Vec<Entry>,
}

/// What a settle leaves: the new current state and the new Phase.
#[derive(Clone, Debug, PartialEq, Eq)]
pub struct Settlement {
    pub current: Current,
    pub phase: Phase,
}

impl Role {
    pub open spec fn is_singular(self) -> bool {
        self == Role::Goal || self == Role::Focus || self == Role::Next
    }

    pub open spec fn unit_text(self) -> Seq<char> {
        match self {
            Role::Goal => "task:goal"@,
            Role::Constraint => "task:constraint"@,
            Role::Decision => "task:decision"@,
            Role::Focus => "task:focus"@,
            Role::Question => "task:question"@,
            Role::Next => "task:next"@,
            Role::Addition => "task:addition"@,
        }
    }

    /// The role's name as `Debug` writes it.
    pub open spec fn title(self) -> Seq<char> {
        match self {
            Role::Goal => "Goal"@,
            Role::Constraint => "Constraint"@,
            Role::Decision => "Decision"@,
            Role::Focus => "Focus"@,
            Role::Question => "Question"@,
            Role::Next => "Next"@,
            Role::Addition => "Addition"@,
        }
    }

    /// The roles in their declared order.
    pub open spec fn nth(i: int) -> Role {
        if i == 0 {
            Role::Goal
        } else if i == 1 {
            Role::Constraint
        } else if i == 2 {
            Role::Decision
        } else if i == 3 {
            Role::Focus
        } else if i == 4 {
            Role::Question
        } else if i == 5 {
            Role::Next
        } else {
            Role::Addition
        }
    }

    /// The estate unit that stores facts of this role.
    pub fn unit(self) -> (r: &'static str)
        ensures
            r@ == self.unit_text(),
    {
        match self {
            Role::Goal => "task:goal",
            Role::Constraint => "task:constraint",
            Role::Decision => "task:decision",
            Role::Focus => "task:focus",
            Role::Question => "task:question",
            Role::Next => "task:next",
            Role::Addition => "task:addition",
        }
    }

    /// Whether the role admits at most one fact, without a rank.
    pub fn singular(self) -> (r: bool)
        ensures
            r == self.is_singular(),
    {
        match self {
            Role::Goal | Role::Focus | Role::Next => true,
            _ => false,
        }
    }

    pub fn name(self) -> (r: &'static str)
        ensures
            r@ == self.title(),
    {
        match self {
            Role::Goal => "Goal",
            Role::Constraint => "Constraint",
            Role::Decision => "Decision",
            Role::Focus => "Focus",
            Role::Question => "Question",
            Role::Next => "Next",
            Role::Addition => "Addition",
        }
    }

    /// The `i`-th role in declared order.
    pub fn at(i: usize) -> (r: Role)
        requires
            i < 7,
        ensures
            r == Role::nth(i as int),
    {
        if i == 0 {
            Role::Goal
        } else if i == 1 {
            Role::Constraint
        } else if i == 2 {
            Role::Decision
        } else if i == 3 {
            Role::Focus
        } else if i == 4 {
            Role::Question
        } else if i == 5 {
            Role::Next
        } else {
            Role::Addition
        }
    }
}

impl Part {
    pub open spec fn is_singular(self) -> bool {
        self == Part::Outcome
    }

    pub open spec fn unit_text(self) -> Seq<char> {
        match self {
            Part::Outcome => "phase:outcome"@,
            Part::Decision => "phase:decision"@,
            Part::Evidence => "phase:evidence"@,
            Part::Carry => "phase:carry"@,
            Part::Addition => "phase:addition"@,
        }
    }

    /// The part's name as `Debug` writes it.
    pub open spec fn title(self) -> Seq<char> {
        match self {
            Part::Outcome => "Outcome"@,
            Part::Decision => "Decision"@,
            Part::Evidence => "Evidence"@,
            Part::Carry => "Carry"@,
            Part::Addition => "Addition"@,
        }
    }

    /// The estate unit that stores entries of this part.
    pub fn unit(self) -> (r: &'static str)
        ensures
            r@ == self.unit_text(),
    {
        match self {
            Part::Outcome => "phase:outcome",
            Part::Decision => "phase:decision",
            Part::Evidence => "phase:evidence",
            Part::Carry => "phase:carry",
            Part::Addition => "phase:addition",
        }
    }

    /// Whether the part admits at most one entry, without a rank.
    pub fn singular(self) -> (r: bool)
        ensures
            r == self.is_singular(),
    {
        match self {
            Part::Outcome => true,
            _ => false,
        }
    }

    pub fn name(self) -> (r: &'static str)
        ensures
            r@ == self.title(),
    {
        match self {
            Part::Outcome => "Outcome",
            Part::Decision => "Decision",
            Part::Evidence => "Evidence",
            Part::Carry => "Carry",
            Part::Addition => "Addition",
        }
    }
}

/// An `Option<String>` copy that Verus knows equals the original.
pub fn copy_text(s: &Option<String>) -> (r: Option<String>)
    ensures
        r == *s,
{
    match s {
        Some(t) => Some(t.clone()),
        None => None,
    }
}

impl Fact {
    pub fn duplicate(&self) -> (r: Fact)
        ensures
            r == *self,
    {
        Fact {
            key: self.key,
            role: self.role,
            rank: self.rank,
            title: copy_text(&self.title),
            body: self.body.clone(),
            origin: copy_text(&self.origin),
        }
    }
}

impl Entry {
    pub fn duplicate(&self) -> (r: Entry)
        ensures
            r == *self,
    {
        Entry {
            key: self.key,
            part: self.part,
            rank: self.rank,
            title: copy_text(&self.title),
            body: self.body.clone(),
            origin: copy_text(&self.origin),
        }
    }
}

} // verus!
