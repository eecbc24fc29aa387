//! The estate's world as read from its stored rows: the one Space, its
//! Domains and its Tasks, with Tasks listed in identity order, and the
//! lookups of a Task by identity and of a Domain by name.
use crate::error::Error;
use crate::prepare::{Fault, raises};
use crate::state::{Life, Node};
use crate::text::{decimal, join, render_i64, render_usize, same};
use vstd::prelude::*;

verus! {

/// Strict lexicographic order on texts, character by character, as `str`'s
/// `Ord` compares them (UTF-8 byte order is code point order).
pub open spec fn lex_less(a: Seq<char>, b: Seq<char>) -> bool
    decreases a.len(),
{
    if b.len() == 0 {
        false
    } else if a.len() == 0 {
        true
    } else if a[0] != b[0] {
        (a[0] as u32) < (b[0] as u32)
    } else {
        lex_less(a.drop_first(), b.drop_first())
    }
}

proof fn lemma_lex_skip(a: Seq<char>, b: Seq<char>, i: int)
    requires
        0 <= i < a.len(),
        i < b.len(),
        a[i] == b[i],
    ensures
        lex_less(a.skip(i), b.skip(i)) == lex_less(a.skip(i + 1), b.skip(i + 1)),
{
    assert(a.skip(i).drop_first() =~= a.skip(i + 1));
    assert(b.skip(i).drop_first() =~= b.skip(i + 1));
}

/// Whether `a` comes strictly before `b`.
pub fn less(a: &str, b: &str) -> (r: bool)
    ensures
        r == lex_less(a@, b@),
{
    let n = a.unicode_len();
    let m = b.unicode_len();
    let mut i: usize = 0;
    proof {
        assert(a@.skip(0) =~= a@);
        assert(b@.skip(0) =~= b@);
    }
    while i < n && i < m
        invariant
            n == a@.len(),
            m == b@.len(),
            i <= n,
            i <= m,
            lex_less(a@, b@) == lex_less(a@.skip(i as int), b@.skip(i as int)),
        decreases n - i,
    {
        let c = a.get_char(i);
        let d = b.get_char(i);
        if c != d {
            proof {
                assert(a@.skip(i as int)[0] == c);
                assert(b@.skip(i as int)[0] == d);
            }
            return (c as u32) < (d as u32);
        }
        proof {
            lemma_lex_skip(a@, b@, i as int);
        }
        i = i + 1;
    }
    proof {
        assert(a@.skip(i as int).len() == n - i);
        assert(b@.skip(i as int).len() == m - i);
    }
    i < m
}

/// Inserts `x` after every node whose identity does not come after it.
pub open spec fn place(s: Seq<Node>, x: Node) -> Seq<Node>
    decreases s.len(),
{
    if s.len() == 0 {
        seq![x]
    } else if lex_less(x.ident(), s[0].ident()) {
        seq![x] + s
    } else {
        seq![s[0]] + place(s.drop_first(), x)
    }
}

/// The nodes in identity order; nodes of equal identity keep their order,
/// as a stable sort by identity leaves them.
pub open spec fn arrange(s: Seq<Node>) -> Seq<Node>
    decreases s.len(),
{
    if s.len() == 0 {
        Seq::empty()
    } else {
        place(arrange(s.drop_last()), s.last())
    }
}

proof fn lemma_place(s: Seq<Node>, x: Node, p: int)
    requires
        0 <= p <= s.len(),
        forall|j: int| 0 <= j < p ==> !lex_less(x.ident(), #[trigger] s[j].ident()),
        p == s.len() || lex_less(x.ident(), s[p].ident()),
    ensures
        place(s, x) == s.insert(p, x),
    decreases p,
{
    if p == 0 {
        if s.len() == 0 {
            assert(s.insert(0, x) =~= seq![x]);
        } else {
            assert(s.insert(0, x) =~= seq![x] + s);
        }
    } else {
        assert(!lex_less(x.ident(), s[0].ident()));
        lemma_place(s.drop_first(), x, p - 1);
        assert(s.insert(p, x) =~= seq![s[0]] + s.drop_first().insert(p - 1, x));
    }
}

/// Sorts nodes by identity, keeping the order of nodes of equal identity.
pub fn order_nodes(nodes: Vec<Node>) -> (r: Vec<Node>)
    ensures
        r@ == arrange(nodes@),
{
    let mut out: Vec<Node> = Vec::new();
    let mut i: usize = 0;
    proof {
        assert(nodes@.take(0) =~= Seq::<Node>::empty());
    }
    while i < nodes.len()
        invariant
            i <= nodes@.len(),
            out@ == arrange(nodes@.take(i as int)),
        decreases nodes@.len() - i,
    {
        let x = nodes[i].duplicate();
        let id = x.identity();
        let mut p: usize = 0;
        while p < out.len() && !less(id.as_str(), out[p].identity().as_str())
            invariant
                p <= out@.len(),
                id@ == x.ident(),
                forall|j: int| 0 <= j < p ==> !lex_less(x.ident(), #[trigger] out@[j].ident()),
            decreases out@.len() - p,
        {
            p = p + 1;
        }
        proof {
            lemma_place(out@, x, p as int);
            let t = nodes@.take(i + 1);
            assert(t.drop_last() =~= nodes@.take(i as int));
            assert(t.last() == nodes@[i as int]);
        }
        out.insert(p, x);
        i = i + 1;
    }
    proof {
        assert(nodes@.take(nodes@.len() as int) =~= nodes@);
    }
    out
}

/// The stored Space row, as the world reads it.
#[derive(Clone, Debug, PartialEq, Eq)]
pub struct SpaceRow {
    pub key: i64,
    pub revision: Option<i64>,
}

/// A stored Domain row, as the world reads it.
#[derive(Clone, Debug, PartialEq, Eq)]
pub struct DomainRow {
    pub key: i64,
    pub space: Option<i64>,
    pub name: Option<String>,
    pub revision: Option<i64>,
}

/// A stored Task row, as the world reads it.
#[derive(Clone, Debug, PartialEq, Eq)]
pub struct TaskRow {
    pub key: i64,
    pub domain: Option<i64>,
    pub name: Option<String>,
    pub state: Option<String>,
    pub revision: Option<i64>,
}

/// A Domain of the estate.
#[derive(Clone, Debug, PartialEq, Eq)]
pub struct Realm {
    pub key: i64,
    pub name: String,
    pub revision: i64,
}

/// The estate as read: its Space and revision, its Domains in ascending key
/// order, and its Tasks in identity order.
#[derive(Clone, Debug)]
pub struct World {
    pub space: i64,
    pub revision: i64,
    pub domains: Vec<Realm>,
    pub nodes: Vec<Node>,
}

/// `s` lists the Domains of `m`: ascending keys, each the entry of `m` under
/// its key, and every key of `m` present.
pub open spec fn lists(s: Seq<Realm>, m: Map<i64, Realm>) -> bool {
    &&& forall|i: int, j: int| 0 <= i < j < s.len() ==> #[trigger] s[i].key < #[trigger] s[j].key
    &&& forall|i: int| 0 <= i < s.len() ==> m.contains_key(#[trigger] s[i].key) && m[s[i].key] == s[i]
    &&& forall|k: i64| #[trigger] m.contains_key(k) ==> exists|i: int| 0 <= i < s.len() && s[i].key == k
}

pub open spec fn malformed_fault(key: i64, field: Seq<char>) -> Fault {
    ("concord.estate.row"@, "Resource "@ + decimal(key as int) + " has malformed field "@ + field)
}

pub open spec fn realm_of(row: DomainRow) -> Realm {
    Realm { key: row.key, name: row.name->0, revision: row.revision->0 }
}

/// The first rule a Domain row breaks, if any.
pub open spec fn domain_row_fault(row: DomainRow, space: i64) -> Option<Fault> {
    match row.space {
        None => Some(malformed_fault(row.key, "space"@)),
        Some(s) => if s != space {
            Some(("concord.domain.space"@, "Domain "@ + decimal(row.key as int) + " has a foreign Space"@))
        } else if row.name is None {
            Some(malformed_fault(row.key, "name"@))
        } else if row.revision is None {
            Some(malformed_fault(row.key, "revision"@))
        } else {
            None
        },
    }
}

/// The Domains that the rows hold, a later row replacing an earlier one of
/// the same key, or the first fault.
pub open spec fn gather_realms(rows: Seq<DomainRow>, space: i64) -> Result<Map<i64, Realm>, Fault>
    decreases rows.len(),
{
    if rows.len() == 0 {
        Ok(Map::empty())
    } else {
        match gather_realms(rows.drop_last(), space) {
            Err(f) => Err(f),
            Ok(m) => match domain_row_fault(rows.last(), space) {
                Some(f) => Err(f),
                None => Ok(m.insert(rows.last().key, realm_of(rows.last()))),
            },
        }
    }
}

/// The first rule a Task row breaks, if any.
pub open spec fn task_row_fault(row: TaskRow, m: Map<i64, Realm>) -> Option<Fault> {
    match row.domain {
        None => Some(malformed_fault(row.key, "domain"@)),
        Some(d) => if !m.contains_key(d) {
            Some(("concord.task.domain"@, "Task "@ + decimal(row.key as int) + " has an unknown Domain"@))
        } else if row.name is None {
            Some(malformed_fault(row.key, "name"@))
        } else if row.state is None {
            Some(malformed_fault(row.key, "state"@))
        } else if Life::from_text(row.state->0@) is None {
            Some(("concord.task.life"@, "invalid task life "@ + row.state->0@))
        } else if row.revision is None {
            Some(malformed_fault(row.key, "revision"@))
        } else {
            None
        },
    }
}

pub open spec fn node_of(row: TaskRow, m: Map<i64, Realm>) -> Node {
    Node {
        key: row.key,
        domain: m[row.domain->0].name,
        name: row.name->0,
        life: Life::from_text(row.state->0@)->0,
        revision: row.revision->0,
    }
}

/// The Tasks that the rows hold, in row order, or the first fault.
pub open spec fn gather_nodes(rows: Seq<TaskRow>, m: Map<i64, Realm>) -> Result<Seq<Node>, Fault>
    decreases rows.len(),
{
    if rows.len() == 0 {
        Ok(Seq::empty())
    } else {
        match gather_nodes(rows.drop_last(), m) {
            Err(f) => Err(f),
            Ok(ns) => match task_row_fault(rows.last(), m) {
                Some(f) => Err(f),
                None => Ok(ns.push(node_of(rows.last(), m))),
            },
        }
    }
}

/// What reading the rows gives: the Space key, its revision, the Domains and
/// the Tasks in identity order, or the first fault.
pub open spec fn survey(spaces: Seq<SpaceRow>, domains: Seq<DomainRow>, tasks: Seq<TaskRow>) -> Result<(i64, i64, Map<i64, Realm>, Seq<Node>), Fault> {
    if spaces.len() != 1 {
        Err(("concord.estate.space"@, "Concord estate needs one Space, found "@ + decimal(spaces.len() as int)))
    } else if spaces[0].revision is None {
        Err(malformed_fault(spaces[0].key, "revision"@))
    } else {
        match gather_realms(domains, spaces[0].key) {
            Err(f) => Err(f),
            Ok(m) => if exists|k: i64| #[trigger] m.contains_key(k) && m[k].revision < 0 {
                Err(("concord.domain.revision"@, "Domain revision cannot be negative"@))
            } else {
                match gather_nodes(tasks, m) {
                    Err(f) => Err(f),
                    Ok(ns) => Ok((spaces[0].key, spaces[0].revision->0, m, arrange(ns))),
                }
            },
        }
    }
}

impl Realm {
    pub fn duplicate(&self) -> (r: Realm)
        ensures
            r == *self,
    {
        Realm { key: self.key, name: self.name.clone(), revision: self.revision }
    }
}

/// The error for a row whose field is missing or of the wrong kind.
pub fn malformed(key: i64, field: &str) -> (e: Error)
    ensures
        raises(e, malformed_fault(key, field@)),
{
    let a = join("Resource ", render_i64(key).as_str());
    let b = join(a.as_str(), " has malformed field ");
    Error::typed("concord.estate.row", join(b.as_str(), field))
}

/// Puts `x` into a key-ordered list of Domains, replacing the one of the
/// same key.
fn enter(held: &mut Vec<Realm>, x: Realm, Ghost(m): Ghost<Map<i64, Realm>>)
    requires
        lists(old(held)@, m),
    ensures
        lists(final(held)@, m.insert(x.key, x)),
{
    let mut j: usize = 0;
    while j < held.len() && held[j].key < x.key
        invariant
            j <= held@.len(),
            held@ == old(held)@,
            forall|t: int| 0 <= t < j ==> #[trigger] held@[t].key < x.key,
        decreases held@.len() - j,
    {
        j = j + 1;
    }
    let ghost s = held@;
    let ghost n = m.insert(x.key, x);
    if j < held.len() && held[j].key == x.key {
        held.set(j, x);
        proof {
            let t = s.update(j as int, x);
            assert(held@ == t);
            assert forall|a: int, b: int| 0 <= a < b < t.len() implies #[trigger] t[a].key < #[trigger] t[b].key by {
                assert(s[a].key < s[b].key);
            }
            assert forall|a: int| 0 <= a < t.len() implies n.contains_key(#[trigger] t[a].key) && n[t[a].key] == t[a] by {
                if a != j {
                    assert(s[a].key != x.key);
                }
            }
            assert forall|k: i64| #[trigger] n.contains_key(k) implies exists|a: int| 0 <= a < t.len() && t[a].key == k by {
                if k == x.key {
                    assert(t[j as int].key == k);
                } else {
                    let a = choose|a: int| 0 <= a < s.len() && s[a].key == k;
                    assert(t[a].key == k);
                }
            }
        }
    } else {
        held.insert(j, x);
        proof {
            let t = s.insert(j as int, x);
            assert(held@ == t);
            assert forall|a: int| 0 <= a < t.len() implies #[trigger] t[a] == (if a < j { s[a] } else if a == j { x } else { s[a - 1] }) by {}
            assert forall|a: int, b: int| 0 <= a < b < t.len() implies #[trigger] t[a].key < #[trigger] t[b].key by {
                if b < j {
                    assert(s[a].key < s[b].key);
                } else if b == j {
                    assert(s[a].key < x.key);
                } else if a < j {
                    assert(s[a].key < x.key);
                    assert(x.key <= s[j as int].key);
                    if b - 1 > j {
                        assert(s[j as int].key < s[b - 1].key);
                    }
                } else if a == j {
                    assert(x.key <= s[j as int].key);
                    assert(x.key != s[j as int].key);
                    if b - 1 > j {
                        assert(s[j as int].key < s[b - 1].key);
                    }
                } else {
                    assert(s[a - 1].key < s[b - 1].key);
                }
            }
            assert forall|a: int| 0 <= a < t.len() implies n.contains_key(#[trigger] t[a].key) && n[t[a].key] == t[a] by {
                if a < j {
                    assert(s[a].key < x.key);
                } else if a > j {
                    assert(x.key <= s[j as int].key);
                    assert(x.key != s[j as int].key);
                    if a - 1 > j {
                        assert(s[j as int].key < s[a - 1].key);
                    }
                }
            }
            assert forall|k: i64| #[trigger] n.contains_key(k) implies exists|a: int| 0 <= a < t.len() && t[a].key == k by {
                if k == x.key {
                    assert(t[j as int].key == k);
                } else {
                    let a = choose|a: int| 0 <= a < s.len() && s[a].key == k;
                    if a < j {
                        assert(t[a].key == k);
                    } else {
                        assert(t[a + 1].key == k);
                    }
                }
            }
        }
    }
}

proof fn lemma_realms_stay(rows: Seq<DomainRow>, space: i64, i: int)
    requires
        0 <= i <= rows.len(),
        gather_realms(rows.take(i), space) is Err,
    ensures
        gather_realms(rows, space) == gather_realms(rows.take(i), space),
    decreases rows.len() - i,
{
    if i == rows.len() {
        assert(rows.take(i) =~= rows);
    } else {
        assert(rows.drop_last().take(i) =~= rows.take(i));
        lemma_realms_stay(rows.drop_last(), space, i);
    }
}

proof fn lemma_nodes_stay(rows: Seq<TaskRow>, m: Map<i64, Realm>, i: int)
    requires
        0 <= i <= rows.len(),
        gather_nodes(rows.take(i), m) is Err,
    ensures
        gather_nodes(rows, m) == gather_nodes(rows.take(i), m),
    decreases rows.len() - i,
{
    if i == rows.len() {
        assert(rows.take(i) =~= rows);
    } else {
        assert(rows.drop_last().take(i) =~= rows.take(i));
        lemma_nodes_stay(rows.drop_last(), m, i);
    }
}

/// Reads one Domain row into the list, refusing a malformed or foreign one.
fn admit_domain(held: &mut Vec<Realm>, row: &DomainRow, space: i64, Ghost(m): Ghost<Map<i64, Realm>>) -> (r: Result<(), Error>)
    requires
        lists(old(held)@, m),
    ensures
        match domain_row_fault(*row, space) {
            Some(f) => r matches Err(e) && raises(e, f),
            None => r is Ok && lists(final(held)@, m.insert(row.key, realm_of(*row))),
        },
{
    let found = match row.space {
        None => {
            return Err(malformed(row.key, "space"));
        },
        Some(s) => s,
    };
    if found != space {
        let a = join("Domain ", render_i64(row.key).as_str());
        return Err(Error::typed("concord.domain.space", join(a.as_str(), " has a foreign Space")));
    }
    let name = match &row.name {
        None => {
            return Err(malformed(row.key, "name"));
        },
        Some(n) => n.clone(),
    };
    let revision = match row.revision {
        None => {
            return Err(malformed(row.key, "revision"));
        },
        Some(v) => v,
    };
    let realm = Realm { key: row.key, name, revision };
    enter(held, realm, Ghost(m));
    Ok(())
}

/// Finds the Domain of key `key` in a list of Domains.
fn realm_at(held: &Vec<Realm>, key: i64, Ghost(m): Ghost<Map<i64, Realm>>) -> (r: Option<usize>)
    requires
        lists(held@, m),
    ensures
        match r {
            Some(j) => j < held@.len() && held@[j as int].key == key && m.contains_key(key) && m[key] == held@[j as int],
            None => !m.contains_key(key),
        },
{
    let mut j: usize = 0;
    while j < held.len()
        invariant
            j <= held@.len(),
            lists(held@, m),
            forall|t: int| 0 <= t < j ==> #[trigger] held@[t].key != key,
        decreases held@.len() - j,
    {
        if held[j].key == key {
            return Some(j);
        }
        j = j + 1;
    }
    None
}

/// Reads one Task row into a node, refusing a malformed one.
fn admit_task(held: &Vec<Realm>, row: &TaskRow, Ghost(m): Ghost<Map<i64, Realm>>) -> (r: Result<Node, Error>)
    requires
        lists(held@, m),
    ensures
        match task_row_fault(*row, m) {
            Some(f) => r matches Err(e) && raises(e, f),
            None => r == Ok::<Node, Error>(node_of(*row, m)),
        },
{
    let domain = match row.domain {
        None => {
            return Err(malformed(row.key, "domain"));
        },
        Some(d) => d,
    };
    let j = match realm_at(held, domain, Ghost(m)) {
        None => {
            let a = join("Task ", render_i64(row.key).as_str());
            return Err(Error::typed("concord.task.domain", join(a.as_str(), " has an unknown Domain")));
        },
        Some(j) => j,
    };
    let name = match &row.name {
        None => {
            return Err(malformed(row.key, "name"));
        },
        Some(n) => n.clone(),
    };
    let state = match &row.state {
        None => {
            return Err(malformed(row.key, "state"));
        },
        Some(t) => t,
    };
    let life = match Life::parse(state.as_str()) {
        Err(e) => {
            return Err(e);
        },
        Ok(l) => l,
    };
    let revision = match row.revision {
        None => {
            return Err(malformed(row.key, "revision"));
        },
        Some(v) => v,
    };
    Ok(Node { key: row.key, domain: held[j].name.clone(), name, life, revision })
}

impl World {
    /// Reads the world from its stored rows: exactly one Space, Domains of
    /// that Space with nonnegative revisions, and Tasks of known Domains,
    /// listed in identity order.
    pub fn read(spaces: &[SpaceRow], domains: &[DomainRow], tasks: &[TaskRow]) -> (r: Result<World, Error>)
        ensures
            match survey(spaces@, domains@, tasks@) {
                Err(f) => r matches Err(e) && raises(e, f),
                Ok((space, revision, m, ns)) => r matches Ok(w) && w.space == space && w.revision == revision && lists(w.domains@, m) && w.nodes@ == ns,
            },
    {
        if spaces.len() != 1 {
            let n = render_usize(spaces.len());
            return Err(Error::typed("concord.estate.space", join("Concord estate needs one Space, found ", n.as_str())));
        }
        let space = spaces[0].key;
        let revision = match spaces[0].revision {
            None => {
                return Err(malformed(space, "revision"));
            },
            Some(v) => v,
        };
        let mut held: Vec<Realm> = Vec::new();
        let ghost mut m: Map<i64, Realm> = Map::empty();
        let mut i: usize = 0;
        proof {
            assert(domains@.take(0) =~= Seq::<DomainRow>::empty());
        }
        while i < domains.len()
            invariant
                i <= domains@.len(),
                spaces@.len() == 1,
                space == spaces@[0].key,
                spaces@[0].revision == Some(revision),
                gather_realms(domains@.take(i as int), space) == Ok::<Map<i64, Realm>, Fault>(m),
                lists(held@, m),
            decreases domains@.len() - i,
        {
            proof {
                let t = domains@.take(i + 1);
                assert(t.drop_last() =~= domains@.take(i as int));
                assert(t.last() == domains@[i as int]);
            }
            match admit_domain(&mut held, &domains[i], space, Ghost(m)) {
                Err(e) => {
                    proof {
                        lemma_realms_stay(domains@, space, i + 1);
                    }
                    return Err(e);
                },
                Ok(()) => {},
            }
            proof {
                m = m.insert(domains@[i as int].key, realm_of(domains@[i as int]));
            }
            i = i + 1;
        }
        proof {
            assert(domains@.take(domains@.len() as int) =~= domains@);
        }
        let mut j: usize = 0;
        while j < held.len()
            invariant
                j <= held@.len(),
                lists(held@, m),
                spaces@.len() == 1,
                space == spaces@[0].key,
                spaces@[0].revision == Some(revision),
                gather_realms(domains@, space) == Ok::<Map<i64, Realm>, Fault>(m),
                forall|t: int| 0 <= t < j ==> #[trigger] held@[t].revision >= 0,
            decreases held@.len() - j,
        {
            if held[j].revision < 0 {
                proof {
                    assert(m.contains_key(held@[j as int].key));
                }
                return Err(Error::said("concord.domain.revision", "Domain revision cannot be negative"));
            }
            j = j + 1;
        }
        proof {
            assert forall|k: i64| #[trigger] m.contains_key(k) implies m[k].revision >= 0 by {
                let a = choose|a: int| 0 <= a < held@.len() && held@[a].key == k;
                assert(held@[a].revision >= 0);
            }
        }
        let mut nodes: Vec<Node> = Vec::new();
        let mut i: usize = 0;
        proof {
            assert(tasks@.take(0) =~= Seq::<TaskRow>::empty());
        }
        while i < tasks.len()
            invariant
                i <= tasks@.len(),
                lists(held@, m),
                spaces@.len() == 1,
                space == spaces@[0].key,
                spaces@[0].revision == Some(revision),
                gather_realms(domains@, space) == Ok::<Map<i64, Realm>, Fault>(m),
                forall|k: i64| #[trigger] m.contains_key(k) ==> m[k].revision >= 0,
                gather_nodes(tasks@.take(i as int), m) == Ok::<Seq<Node>, Fault>(nodes@),
            decreases tasks@.len() - i,
        {
            proof {
                let t = tasks@.take(i + 1);
                assert(t.drop_last() =~= tasks@.take(i as int));
                assert(t.last() == tasks@[i as int]);
            }
            match admit_task(&held, &tasks[i], Ghost(m)) {
                Err(e) => {
                    proof {
                        lemma_nodes_stay(tasks@, m, i + 1);
                    }
                    return Err(e);
                },
                Ok(node) => {
                    nodes.push(node);
                },
            }
            i = i + 1;
        }
        proof {
            assert(tasks@.take(tasks@.len() as int) =~= tasks@);
        }
        let nodes = order_nodes(nodes);
        Ok(World { space, revision, domains: held, nodes })
    }
}

/// The first index at or after `i` that holds `/`, if any.
pub open spec fn slash_from(s: Seq<char>, i: int) -> Option<int>
    decreases s.len() - i,
{
    if i < 0 || i >= s.len() {
        None
    } else if s[i] == '/' {
        Some(i)
    } else {
        slash_from(s, i + 1)
    }
}

pub open spec fn missing_fault(identity: Seq<char>) -> Fault {
    ("concord.task.absent"@, "task not found: "@ + identity)
}

pub open spec fn ambiguous_fault(identity: Seq<char>) -> Fault {
    ("concord.task.ambiguous"@, "task name is ambiguous; use domain/"@ + identity)
}

/// A Task of the given Domain and name.
pub open spec fn pair_hit(domain: Seq<char>, name: Seq<char>) -> spec_fn(Node) -> bool {
    |n: Node| n.domain@ == domain && n.name@ == name
}

/// A Task of the given name.
pub open spec fn name_hit(name: Seq<char>) -> spec_fn(Node) -> bool {
    |n: Node| n.name@ == name
}

/// A Domain of the given name.
pub open spec fn realm_hit(name: Seq<char>) -> spec_fn(Realm) -> bool {
    |r: Realm| r.name@ == name
}

/// The Task that an identity names: `DOMAIN/NAME` names the first Task of
/// that Domain and name; a bare name must name exactly one Task.
pub open spec fn lookup(nodes: Seq<Node>, identity: Seq<char>) -> Result<Node, Fault> {
    match slash_from(identity, 0) {
        Some(p) => {
            let hits = nodes.filter(pair_hit(identity.take(p), identity.skip(p + 1)));
            if hits.len() == 0 {
                Err(missing_fault(identity))
            } else {
                Ok(hits[0])
            }
        },
        None => {
            let hits = nodes.filter(name_hit(identity));
            if hits.len() == 0 {
                Err(missing_fault(identity))
            } else if hits.len() == 1 {
                Ok(hits[0])
            } else {
                Err(ambiguous_fault(identity))
            }
        },
    }
}

/// The key of the first Domain, in key order, with the given name.
pub open spec fn named(domains: Seq<Realm>, name: Seq<char>) -> Option<i64> {
    let hits = domains.filter(realm_hit(name));
    if hits.len() == 0 {
        None
    } else {
        Some(hits[0].key)
    }
}

/// The error for an identity that names no Task.
pub fn missing(identity: &str) -> (e: Error)
    ensures
        raises(e, missing_fault(identity@)),
{
    Error::typed("concord.task.absent", join("task not found: ", identity))
}

/// Where the first `/` of a text stands, if anywhere.
pub fn find_slash(s: &str) -> (r: Option<usize>)
    ensures
        match r {
            Some(p) => slash_from(s@, 0) == Some(p as int) && p < s@.len(),
            None => slash_from(s@, 0) is None,
        },
{
    let n = s.unicode_len();
    let mut i: usize = 0;
    while i < n
        invariant
            n == s@.len(),
            i <= n,
            slash_from(s@, 0) == slash_from(s@, i as int),
        decreases n - i,
    {
        if s.get_char(i) == '/' {
            return Some(i);
        }
        i = i + 1;
    }
    None
}

impl World {
    /// The Task that an identity names.
    pub fn node(&self, identity: &str) -> (r: Result<&Node, Error>)
        ensures
            match lookup(self.nodes@, identity@) {
                Ok(n) => r matches Ok(m) && *m == n,
                Err(f) => r matches Err(e) && raises(e, f),
            },
    {
        let nodes = &self.nodes;
        match find_slash(identity) {
            Some(p) => {
                let len = identity.unicode_len();
                let domain = identity.substring_char(0, p);
                let name = identity.substring_char(p + 1, len);
                proof {
                    assert(domain@ =~= identity@.take(p as int));
                    assert(name@ =~= identity@.skip(p + 1));
                }
                let ghost hit = pair_hit(identity@.take(p as int), identity@.skip(p + 1));
                let mut i: usize = 0;
                while i < nodes.len()
                    invariant
                        i <= nodes@.len(),
                        nodes@ == self.nodes@,
                        slash_from(identity@, 0) == Some(p as int),
                        hit == pair_hit(identity@.take(p as int), identity@.skip(p + 1)),
                        domain@ == identity@.take(p as int),
                        name@ == identity@.skip(p + 1),
                        nodes@.take(i as int).filter(hit).len() == 0,
                    decreases nodes@.len() - i,
                {
                    proof {
                        assert(nodes@.take(i + 1) =~= nodes@.take(i as int).push(nodes@[i as int]));
                        nodes@.take(i as int).lemma_filter_push(nodes@[i as int], hit);
                    }
                    if same(nodes[i].domain.as_str(), domain) && same(nodes[i].name.as_str(), name) {
                        proof {
                            lemma_filter_first(nodes@, hit, i as int);
                        }
                        return Ok(&nodes[i]);
                    }
                    i = i + 1;
                }
                proof {
                    assert(nodes@.take(nodes@.len() as int) =~= nodes@);
                }
                Err(missing(identity))
            },
            None => {
                let ghost hit = name_hit(identity@);
                let mut count: usize = 0;
                let mut first: usize = 0;
                let mut i: usize = 0;
                while i < nodes.len()
                    invariant
                        i <= nodes@.len(),
                        nodes@ == self.nodes@,
                        slash_from(identity@, 0) is None,
                        hit == name_hit(identity@),
                        count == nodes@.take(i as int).filter(hit).len(),
                        count <= i,
                        count > 0 ==> first < nodes@.len() && nodes@.take(i as int).filter(hit)[0] == nodes@[first as int],
                    decreases nodes@.len() - i,
                {
                    proof {
                        assert(nodes@.take(i + 1) =~= nodes@.take(i as int).push(nodes@[i as int]));
                        nodes@.take(i as int).lemma_filter_push(nodes@[i as int], hit);
                    }
                    if same(nodes[i].name.as_str(), identity) {
                        if count == 0 {
                            first = i;
                        }
                        count = count + 1;
                    }
                    i = i + 1;
                }
                proof {
                    assert(nodes@.take(nodes@.len() as int) =~= nodes@);
                }
                if count == 0 {
                    Err(missing(identity))
                } else if count == 1 {
                    Ok(&nodes[first])
                } else {
                    Err(Error::typed("concord.task.ambiguous", join("task name is ambiguous; use domain/", identity)))
                }
            },
        }
    }

    /// The key of the first Domain, in key order, with the given name.
    pub fn domain(&self, name: &str) -> (r: Option<i64>)
        ensures
            r == named(self.domains@, name@),
    {
        let held = &self.domains;
        let ghost hit = realm_hit(name@);
        let mut i: usize = 0;
        while i < held.len()
            invariant
                i <= held@.len(),
                held@ == self.domains@,
                hit == realm_hit(name@),
                held@.take(i as int).filter(hit).len() == 0,
            decreases held@.len() - i,
        {
            proof {
                assert(held@.take(i + 1) =~= held@.take(i as int).push(held@[i as int]));
                held@.take(i as int).lemma_filter_push(held@[i as int], hit);
            }
            if same(held[i].name.as_str(), name) {
                proof {
                    lemma_filter_first(held@, hit, i as int);
                }
                return Some(held[i].key);
            }
            i = i + 1;
        }
        proof {
            assert(held@.take(held@.len() as int) =~= held@);
        }
        None
    }
}

/// When no element before `i` passes and element `i` does, the filter's
/// first element is element `i`.
pub proof fn lemma_filter_first<A>(s: Seq<A>, keep: spec_fn(A) -> bool, i: int)
    requires
        0 <= i < s.len(),
        s.take(i).filter(keep).len() == 0,
        keep(s[i]),
    ensures
        s.filter(keep).len() > 0,
        s.filter(keep)[0] == s[i],
    decreases s.len() - i,
{
    if i + 1 == s.len() {
        assert(s =~= s.take(i).push(s[i]));
        s.take(i).lemma_filter_push(s[i], keep);
    } else {
        let t = s.drop_last();
        assert(t.take(i) =~= s.take(i));
        lemma_filter_first(t, keep, i);
        assert(s =~= t.push(s.last()));
        t.lemma_filter_push(s.last(), keep);
    }
}

} // verus!
