//! The dependency graph's vocabulary: weights, origins, Task life, flow
//! directions, and the nodes, edges and requests that carry them.
use crate::error::Error;
use crate::text::{join, same};
use vstd::prelude::*;

verus! {

/// How strongly a source depends on its target, ordered
/// `Unknown < Context < Sequence < Required`.
#[derive(Clone, Copy, Debug, PartialEq, Eq, PartialOrd, Ord, Structural)]
pub enum Weight {
    Unknown,
    Context,
    Sequence,
    Required,
}

/// Where a dependency came from.
#[derive(Clone, Copy, Debug, PartialEq, Eq, Structural)]
pub enum Origin {
    Declared,
    Legacy,
}

/// Whether a Task is still live.
#[derive(Clone, Copy, Debug, PartialEq, Eq, Structural)]
pub enum Life {
    Active,
    Retired,
}

/// Which edges a walk follows: from source to target, back, or both.
#[derive(Clone, Copy, Debug, PartialEq, Eq, Structural)]
pub enum Flow {
    Out,
    In,
    Both,
}

/// Edge counts at a node.
#[derive(Clone, Copy, Debug, PartialEq, Eq, Structural)]
pub struct Degree {
    pub out: usize,
    pub inbound: usize,
}

/// A Task as the graph sees it.
#[derive(Clone, Debug, PartialEq, Eq)]
pub struct Node {
    pub key: i64,
    pub domain: String,
    pub name: String,
    pub life: Life,
    pub revision: i64,
}

/// A direct dependency: `source` depends on `target`.
#[derive(Clone, Debug, PartialEq, Eq)]
pub struct Edge {
    pub key: i64,
    pub source: i64,
    pub target: i64,
    pub weight: Weight,
    pub origin: Origin,
}

/// The direct dependency graph at a revision.
#[derive(Clone, Debug, PartialEq, Eq)]
pub struct Graph {
    pub revision: i64,
    pub nodes: Vec<Node>,
    pub edges: Vec<Edge>,
}

/// A request to declare a dependency.
#[derive(Clone, Debug, PartialEq, Eq)]
pub struct Link {
    pub source: String,
    pub target: String,
    pub weight: Weight,
    pub origin: Origin,
    pub revision: i64,
}

/// A request to change a dependency's weight.
#[derive(Clone, Debug, PartialEq, Eq)]
pub struct Tune {
    pub source: String,
    pub target: String,
    pub weight: Weight,
    pub revision: i64,
}

/// A request to retire a dependency.
#[derive(Clone, Debug, PartialEq, Eq)]
pub struct Cut {
    pub source: String,
    pub target: String,
    pub reason: String,
    pub revision: i64,
}

/// A request to retire a Task.
#[derive(Clone, Debug, PartialEq, Eq)]
pub struct Finish {
    pub task: String,
    pub revision: i64,
    pub graph: i64,
    pub reason: String,
}

impl Weight {
    /// The weight's place in the order `Unknown < Context < Sequence < Required`.
    pub open spec fn level(self) -> int {
        match self {
            Weight::Unknown => 0,
            Weight::Context => 1,
            Weight::Sequence => 2,
            Weight::Required => 3,
        }
    }

    pub open spec fn text(self) -> Seq<char> {
        match self {
            Weight::Unknown => "unknown"@,
            Weight::Context => "context"@,
            Weight::Sequence => "sequence"@,
            Weight::Required => "required"@,
        }
    }

    /// Whether this weight is at least `minimum`.
    pub fn reaches(self, minimum: Weight) -> (r: bool)
        ensures
            r == (self.level() >= minimum.level()),
    {
        self.rank() >= minimum.rank()
    }

    pub fn rank(self) -> (r: u8)
        ensures
            r == self.level(),
    {
        match self {
            Weight::Unknown => 0,
            Weight::Context => 1,
            Weight::Sequence => 2,
            Weight::Required => 3,
        }
    }

    /// The weight a text names, if any.
    pub open spec fn from_text(s: Seq<char>) -> Option<Weight> {
        if s == "unknown"@ {
            Some(Weight::Unknown)
        } else if s == "context"@ {
            Some(Weight::Context)
        } else if s == "sequence"@ {
            Some(Weight::Sequence)
        } else if s == "required"@ {
            Some(Weight::Required)
        } else {
            None
        }
    }

    pub fn parse(value: &str) -> (r: Result<Weight, Error>)
        ensures
            match Weight::from_text(value@) {
                Some(w) => r == Ok::<Weight, Error>(w),
                None => r matches Err(e) && e.coded("concord.dependency.weight"@) && e.message@
                    == "invalid dependency weight "@ + value@,
            },
    {
        if same(value, "unknown") {
            Ok(Weight::Unknown)
        } else if same(value, "context") {
            Ok(Weight::Context)
        } else if same(value, "sequence") {
            Ok(Weight::Sequence)
        } else if same(value, "required") {
            Ok(Weight::Required)
        } else {
            Err(Error::typed("concord.dependency.weight", join("invalid dependency weight ", value)))
        }
    }

    pub fn name(self) -> (r: &'static str)
        ensures
            r@ == self.text(),
    {
        match self {
            Weight::Unknown => "unknown",
            Weight::Context => "context",
            Weight::Sequence => "sequence",
            Weight::Required => "required",
        }
    }
}

impl Origin {
    pub open spec fn text(self) -> Seq<char> {
        match self {
            Origin::Declared => "declared"@,
            Origin::Legacy => "legacy-todo"@,
        }
    }

    /// The origin a text names, if any.
    pub open spec fn from_text(s: Seq<char>) -> Option<Origin> {
        if s == "declared"@ {
            Some(Origin::Declared)
        } else if s == "legacy-todo"@ {
            Some(Origin::Legacy)
        } else {
            None
        }
    }

    pub fn parse(value: &str) -> (r: Result<Origin, Error>)
        ensures
            match Origin::from_text(value@) {
                Some(o) => r == Ok::<Origin, Error>(o),
                None => r matches Err(e) && e.coded("concord.dependency.origin"@) && e.message@
                    == "invalid dependency origin "@ + value@,
            },
    {
        if same(value, "declared") {
            Ok(Origin::Declared)
        } else if same(value, "legacy-todo") {
            Ok(Origin::Legacy)
        } else {
            Err(Error::typed("concord.dependency.origin", join("invalid dependency origin ", value)))
        }
    }

    pub fn name(self) -> (r: &'static str)
        ensures
            r@ == self.text(),
    {
        match self {
            Origin::Declared => "declared",
            Origin::Legacy => "legacy-todo",
        }
    }
}

impl Life {
    pub open spec fn text(self) -> Seq<char> {
        match self {
            Life::Active => "active"@,
            Life::Retired => "retired"@,
        }
    }

    /// The life a text names, if any.
    pub open spec fn from_text(s: Seq<char>) -> Option<Life> {
        if s == "active"@ {
            Some(Life::Active)
        } else if s == "retired"@ {
            Some(Life::Retired)
        } else {
            None
        }
    }

    pub fn parse(value: &str) -> (r: Result<Life, Error>)
        ensures
            match Life::from_text(value@) {
                Some(l) => r == Ok::<Life, Error>(l),
                None => r matches Err(e) && e.coded("concord.task.life"@) && e.message@
                    == "invalid task life "@ + value@,
            },
    {
        if same(value, "active") {
            Ok(Life::Active)
        } else if same(value, "retired") {
            Ok(Life::Retired)
        } else {
            Err(Error::typed("concord.task.life", join("invalid task life ", value)))
        }
    }
}

impl Node {
    /// `DOMAIN/NAME`.
    pub open spec fn ident(&self) -> Seq<char> {
        self.domain@ + "/"@ + self.name@
    }

    pub fn identity(&self) -> (r: String)
        ensures
            r@ == self.ident(),
    {
        let mut s = self.domain.clone();
        s.append("/");
        s.append(self.name.as_str());
        s
    }

    /// A copy that Verus knows equals the original.
    pub fn duplicate(&self) -> (r: Node)
        ensures
            r == *self,
    {
        Node {
            key: self.key,
            domain: self.domain.clone(),
            name: self.name.clone(),
            life: self.life,
            revision: self.revision,
        }
    }
}

impl Edge {
    pub fn duplicate(&self) -> (r: Edge)
        ensures
            r == *self,
    {
        Edge {
            key: self.key,
            source: self.source,
            target: self.target,
            weight: self.weight,
            origin: self.origin,
        }
    }
}

} // verus!
