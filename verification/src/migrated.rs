//! The checks that a migrated estate holds exactly what its legacy Space
//! held: the counts of the census, each Task's Phases and dependencies.
use crate::additions::{AdditionRow, check, differ, in_order, rows_held, wanted};
use crate::census::{Census, count_fault, exact, mismatch};
use crate::coordinate::RepositoryRow;
use crate::territory::{Boundary, boundary_proof, proofs_agree};
use crate::world::DomainRow;
use crate::change::{Entry, Fact, Phase, Role};
use crate::error::Error;
use crate::load::{entry_shape, fact_shape, text_of};
use crate::prepare::{Fault, raises};
use crate::state::{Edge, Graph, Node, Origin, Weight};
use crate::text::{join, same};
use vstd::prelude::*;

verus! {

/// The counts a migrated estate holds, as read from it.
#[derive(Clone, Copy, Debug, PartialEq, Eq, Structural)]
pub struct Found {
    pub repository: usize,
    pub task: usize,
    pub reservation: usize,
    pub member: usize,
    pub claim: usize,
    pub boundary: usize,
    pub dependency: usize,
    pub phase: usize,
}

/// The first count that differs from the census, in the order checked.
pub open spec fn count_outcome(c: Census, f: Found) -> Option<Fault> {
    if c.repository != f.repository {
        Some(count_fault("Repository"@, c.repository as int, f.repository as int))
    } else if c.task != f.task {
        Some(count_fault("Task"@, c.task as int, f.task as int))
    } else if c.task != f.reservation {
        Some(count_fault("Reservation"@, c.task as int, f.reservation as int))
    } else if c.member != f.member {
        Some(count_fault("Member"@, c.member as int, f.member as int))
    } else if c.claim != f.claim {
        Some(count_fault("Claim"@, c.claim as int, f.claim as int))
    } else if c.boundary != f.boundary {
        Some(count_fault("Boundary"@, c.boundary as int, f.boundary as int))
    } else if c.dependency != f.dependency {
        Some(count_fault("Dependency"@, c.dependency as int, f.dependency as int))
    } else if c.phase != f.phase {
        Some(count_fault("Phase"@, c.phase as int, f.phase as int))
    } else {
        None
    }
}

/// Checks the migrated counts against the census: repositories, Tasks and
/// their Reservations, Members, Claims, Boundaries, dependencies and Phases.
pub fn counts(census: &Census, found: &Found) -> (r: Result<(), Error>)
    ensures
        match count_outcome(*census, *found) {
            None => r is Ok,
            Some(f) => r matches Err(e) && raises(e, f),
        },
{
    exact("Repository", census.repository, found.repository)?;
    exact("Task", census.task, found.task)?;
    exact("Reservation", census.task, found.reservation)?;
    exact("Member", census.member, found.member)?;
    exact("Claim", census.claim, found.claim)?;
    exact("Boundary", census.boundary, found.boundary)?;
    exact("Dependency", census.dependency, found.dependency)?;
    exact("Phase", census.phase, found.phase)
}

/// A stored entry agrees with a wanted one: the wanted one has no key and
/// both say the same.
pub open spec fn entry_agrees(found: Entry, wanted: Entry) -> bool {
    wanted.key is None && entry_shape(found) == entry_shape(wanted)
}

pub open spec fn entries_agree(found: Seq<Entry>, wanted: Seq<Entry>) -> bool {
    found.len() == wanted.len() && forall|j: int| 0 <= j < found.len() ==> entry_agrees(#[trigger] found[j], wanted[j])
}

/// The first Phase, from `i` on, whose serial or entries differ.
pub open spec fn phase_from(identity: Seq<char>, wanted: Seq<Vec<Entry>>, found: Seq<Phase>, i: int) -> Option<Fault>
    decreases found.len() - i,
{
    if i < 0 || i >= found.len() {
        None
    } else if found[i].number != i + 1 {
        Some(("concord.migration.mismatch"@, "Phase serial differs for "@ + identity))
    } else if !entries_agree(found[i].entries@, wanted[i]@) {
        Some(("concord.migration.mismatch"@, "Phase facts differ for "@ + identity))
    } else {
        phase_from(identity, wanted, found, i + 1)
    }
}

/// What the Phase check decides: the Phase count, then each Phase's serial
/// (its place from 1) and entries, in order.
pub open spec fn phase_outcome(identity: Seq<char>, wanted: Seq<Vec<Entry>>, found: Seq<Phase>) -> Option<Fault> {
    if wanted.len() != found.len() {
        Some(count_fault("Task Phase"@, wanted.len() as int, found.len() as int))
    } else {
        phase_from(identity, wanted, found, 0)
    }
}

fn same_text(a: &Option<String>, b: &Option<String>) -> (r: bool)
    ensures
        r == (text_of(*a) == text_of(*b)),
{
    match (a, b) {
        (None, None) => true,
        (Some(x), Some(y)) => same(x.as_str(), y.as_str()),
        _ => false,
    }
}

fn entry_matches(found: &Entry, wanted: &Entry) -> (r: bool)
    ensures
        r == entry_agrees(*found, *wanted),
{
    wanted.key.is_none() && found.part == wanted.part && found.rank == wanted.rank && same_text(&found.title, &wanted.title) && same(found.body.as_str(), wanted.body.as_str()) && same_text(&found.origin, &wanted.origin)
}

fn entries_match(found: &Vec<Entry>, wanted: &Vec<Entry>) -> (r: bool)
    ensures
        r == entries_agree(found@, wanted@),
{
    if found.len() != wanted.len() {
        return false;
    }
    let mut j: usize = 0;
    while j < found.len()
        invariant
            j <= found@.len(),
            found@.len() == wanted@.len(),
            forall|k: int| 0 <= k < j ==> entry_agrees(#[trigger] found@[k], wanted@[k]),
        decreases found@.len() - j,
    {
        if !entry_matches(&found[j], &wanted[j]) {
            return false;
        }
        j = j + 1;
    }
    true
}

/// Checks a migrated Task's Phases against its legacy ones: as many, each
/// numbered by its place from 1 and holding the wanted entries.
pub fn phases(identity: &str, wanted: &Vec<Vec<Entry>>, found: &Vec<Phase>) -> (r: Result<(), Error>)
    requires
        found@.len() < i64::MAX,
    ensures
        match phase_outcome(identity@, wanted@, found@) {
            None => r is Ok,
            Some(f) => r matches Err(e) && raises(e, f),
        },
{
    exact("Task Phase", wanted.len(), found.len())?;
    let mut i: usize = 0;
    while i < found.len()
        invariant
            i <= found@.len(),
            found@.len() < i64::MAX,
            wanted@.len() == found@.len(),
            phase_outcome(identity@, wanted@, found@) == phase_from(identity@, wanted@, found@, i as int),
        decreases found@.len() - i,
    {
        if found[i].number != (i as i64) + 1 {
            return Err(mismatch(join("Phase serial differs for ", identity)));
        }
        if !entries_match(&found[i].entries, &wanted[i]) {
            return Err(mismatch(join("Phase facts differ for ", identity)));
        }
        i = i + 1;
    }
    Ok(())
}

/// The key the last Task of the given identity has, as a map from
/// identity to key built over the Tasks in order keeps it.
pub open spec fn key_of(nodes: Seq<Node>, identity: Seq<char>) -> Option<i64>
    decreases nodes.len(),
{
    if nodes.len() == 0 {
        None
    } else if nodes.last().ident() == identity {
        Some(nodes.last().key)
    } else {
        key_of(nodes.drop_last(), identity)
    }
}

fn find_key(nodes: &Vec<Node>, identity: &str) -> (r: Option<i64>)
    ensures
        r == key_of(nodes@, identity@),
{
    let mut i: usize = nodes.len();
    proof {
        assert(nodes@.take(i as int) =~= nodes@);
    }
    while i > 0
        invariant
            i <= nodes@.len(),
            key_of(nodes@, identity@) == key_of(nodes@.take(i as int), identity@),
        decreases i,
    {
        proof {
            let t = nodes@.take(i as int);
            assert(t.drop_last() =~= nodes@.take(i - 1));
            assert(t.last() == nodes@[i - 1]);
        }
        let id = nodes[i - 1].identity();
        if same(id.as_str(), identity) {
            return Some(nodes[i - 1].key);
        }
        i = i - 1;
    }
    proof {
        assert(nodes@.take(0) =~= Seq::<Node>::empty());
    }
    None
}

/// The first live edge from `source` to `target`, if any.
pub open spec fn edge_between(edges: Seq<Edge>, source: i64, target: i64) -> Option<Edge>
    decreases edges.len(),
{
    if edges.len() == 0 {
        None
    } else if edges[0].source == source && edges[0].target == target {
        Some(edges[0])
    } else {
        edge_between(edges.drop_first(), source, target)
    }
}

fn find_edge(edges: &Vec<Edge>, source: i64, target: i64) -> (r: Option<usize>)
    ensures
        match edge_between(edges@, source, target) {
            None => r is None,
            Some(e) => r matches Some(i) && i < edges@.len() && edges@[i as int] == e,
        },
{
    let mut i: usize = 0;
    proof {
        assert(edges@.skip(0) =~= edges@);
    }
    while i < edges.len()
        invariant
            i <= edges@.len(),
            edge_between(edges@, source, target) == edge_between(edges@.skip(i as int), source, target),
        decreases edges@.len() - i,
    {
        proof {
            assert(edges@.skip(i as int).drop_first() =~= edges@.skip(i + 1));
        }
        if edges[i].source == source && edges[i].target == target {
            return Some(i);
        }
        i = i + 1;
    }
    proof {
        assert(edges@.skip(i as int) =~= Seq::<Edge>::empty());
    }
    None
}

/// The first legacy dependency, from `i` on, that the migrated graph does
/// not carry as a legacy edge of unknown weight, or that the Task's
/// materialized closure (`reached`) misses.
pub open spec fn dependency_from(domain: Seq<char>, identity: Seq<char>, todo: Seq<Seq<char>>, graph: Graph, source: i64, reached: Seq<i64>, i: int) -> Option<Fault>
    decreases todo.len() - i,
{
    if i < 0 || i >= todo.len() {
        None
    } else {
        let target = domain + "/"@ + todo[i];
        let key = key_of(graph.nodes@, target)->0;
        match edge_between(graph.edges@, source, key) {
            None => Some(("concord.migration.mismatch"@, "missing dependency "@ + identity + " -> "@ + target)),
            Some(e) => if e.weight != Weight::Unknown || e.origin != Origin::Legacy {
                Some(("concord.migration.mismatch"@, "legacy dependency attributes differ: "@ + identity + " -> "@ + target))
            } else if !reached.contains(key) {
                Some(("concord.migration.mismatch"@, "closure misses "@ + identity + " -> "@ + target))
            } else {
                dependency_from(domain, identity, todo, graph, source, reached, i + 1)
            },
        }
    }
}

fn reaches(keys: &Vec<i64>, key: i64) -> (r: bool)
    ensures
        r == keys@.contains(key),
{
    let mut i: usize = 0;
    while i < keys.len()
        invariant
            i <= keys@.len(),
            forall|j: int| 0 <= j < i ==> keys@[j] != key,
        decreases keys@.len() - i,
    {
        if keys[i] == key {
            assert(keys@[i as int] == key);
            return true;
        }
        i = i + 1;
    }
    false
}

/// Checks a migrated Task's legacy dependencies (`todo`, Task names of its
/// Domain): each a legacy edge of unknown weight in the graph, and reached
/// by the Task's closure (`reached`, the keys it reaches).
pub fn dependencies(domain: &str, identity: &str, todo: &Vec<String>, graph: &Graph, reached: &Vec<i64>) -> (r: Result<(), Error>)
    requires
        key_of(graph.nodes@, identity@) is Some,
        forall|i: int| 0 <= i < todo@.len() ==> key_of(graph.nodes@, domain@ + "/"@ + (#[trigger] todo@[i])@) is Some,
    ensures
        match dependency_from(domain@, identity@, todo.deep_view(), *graph, key_of(graph.nodes@, identity@)->0, reached@, 0) {
            None => r is Ok,
            Some(f) => r matches Err(e) && raises(e, f),
        },
{
    let source = match find_key(&graph.nodes, identity) {
        Some(k) => k,
        None => {
            return Ok(());
        },
    };
    let ghost d = todo.deep_view();
    let mut i: usize = 0;
    while i < todo.len()
        invariant
            i <= todo@.len(),
            d == todo.deep_view(),
            d.len() == todo@.len(),
            source == key_of(graph.nodes@, identity@)->0,
            forall|j: int| 0 <= j < todo@.len() ==> key_of(graph.nodes@, domain@ + "/"@ + (#[trigger] todo@[j])@) is Some,
            dependency_from(domain@, identity@, d, *graph, source, reached@, 0) == dependency_from(domain@, identity@, d, *graph, source, reached@, i as int),
        decreases todo@.len() - i,
    {
        let a = join(domain, "/");
        let target = join(a.as_str(), todo[i].as_str());
        proof {
            assert(d[i as int] == todo@[i as int]@);
            assert(key_of(graph.nodes@, domain@ + "/"@ + todo@[i as int]@) is Some);
        }
        let key = match find_key(&graph.nodes, target.as_str()) {
            Some(k) => k,
            None => {
                return Ok(());
            },
        };
        let b = join(identity, " -> ");
        let pair = join(b.as_str(), target.as_str());
        let ghost t = domain@ + "/"@ + d[i as int];
        proof {
            assert(target@ =~= t);
            reveal_strlit("missing dependency ");
            reveal_strlit("legacy dependency attributes differ: ");
            reveal_strlit("closure misses ");
            assert("missing dependency "@ + pair@ =~= "missing dependency "@ + identity@ + " -> "@ + t);
            assert("legacy dependency attributes differ: "@ + pair@ =~= "legacy dependency attributes differ: "@ + identity@ + " -> "@ + t);
            assert("closure misses "@ + pair@ =~= "closure misses "@ + identity@ + " -> "@ + t);
        }
        let at = match find_edge(&graph.edges, source, key) {
            None => {
                return Err(mismatch(join("missing dependency ", pair.as_str())));
            },
            Some(k) => k,
        };
        let e = &graph.edges[at];
        if e.weight != Weight::Unknown || e.origin != Origin::Legacy {
            return Err(mismatch(join("legacy dependency attributes differ: ", pair.as_str())));
        }
        if !reaches(reached, key) {
            return Err(mismatch(join("closure misses ", pair.as_str())));
        }
        i = i + 1;
    }
    proof {
        assert(dependency_from(domain@, identity@, d, *graph, source, reached@, i as int) is None);
    }
    Ok(())
}

/// A live Member of the migrated estate, as the checks read it.
#[derive(Clone, Debug, PartialEq, Eq)]
pub struct Worktree {
    pub key: i64,
    pub task: String,
    pub name: String,
    pub source: String,
    pub branch: String,
    pub claims: Vec<String>,
    pub proof: Option<Boundary>,
}

/// A Member the legacy registry declared: its name, source, branch, write
/// Claims, Boundary and extra fields (in name order, values as text).
#[derive(Clone, Debug, PartialEq, Eq)]
pub struct MemberWant {
    pub name: String,
    pub source: String,
    pub branch: String,
    pub write: Vec<String>,
    pub boundary: Option<Boundary>,
    pub extra: Vec<(String, String)>,
}

/// The first live Member of the Task with the given name.
pub open spec fn worktree_of(members: Seq<Worktree>, identity: Seq<char>, name: Seq<char>) -> Option<Worktree>
    decreases members.len(),
{
    if members.len() == 0 {
        None
    } else if members[0].task@ == identity && members[0].name@ == name {
        Some(members[0])
    } else {
        worktree_of(members.drop_first(), identity, name)
    }
}

/// The first declared Member, from `i` on, that the estate lacks or holds
/// otherwise: its source, branch and Claims, its Boundary, its Additions.
pub open spec fn member_from(members: Seq<Worktree>, additions: Seq<AdditionRow>, identity: Seq<char>, declared: Seq<MemberWant>, i: int) -> Option<Fault>
    decreases declared.len() - i,
{
    if i < 0 || i >= declared.len() {
        None
    } else {
        let m = declared[i];
        match worktree_of(members, identity, m.name@) {
            None => Some(("concord.migration.mismatch"@, "missing Member "@ + identity + "/"@ + m.name@)),
            Some(w) => if !(w.source@ == m.source@ && w.branch@ == m.branch@ && w.claims.deep_view() == m.write.deep_view()) {
                Some(("concord.migration.mismatch"@, "Member differs: "@ + identity + "/"@ + m.name@))
            } else if !proofs_agree(m.boundary, w.proof) {
                Some(("concord.migration.mismatch"@, "Boundary differs: "@ + identity + "/"@ + m.name@))
            } else if in_order(rows_held(additions, w.key)) != wanted(m.extra@) {
                Some(differ("member"@, w.key))
            } else {
                member_from(members, additions, identity, declared, i + 1)
            },
        }
    }
}

fn find_worktree(members: &[Worktree], identity: &str, name: &str) -> (r: Option<usize>)
    ensures
        match worktree_of(members@, identity@, name@) {
            None => r is None,
            Some(w) => r matches Some(i) && i < members@.len() && members@[i as int] == w,
        },
{
    let mut i: usize = 0;
    proof {
        assert(members@.skip(0) =~= members@);
    }
    while i < members.len()
        invariant
            i <= members@.len(),
            worktree_of(members@, identity@, name@) == worktree_of(members@.skip(i as int), identity@, name@),
        decreases members@.len() - i,
    {
        proof {
            assert(members@.skip(i as int).drop_first() =~= members@.skip(i + 1));
        }
        if same(members[i].task.as_str(), identity) && same(members[i].name.as_str(), name) {
            return Some(i);
        }
        i = i + 1;
    }
    proof {
        assert(members@.skip(i as int) =~= Seq::<Worktree>::empty());
    }
    None
}

fn same_texts(a: &Vec<String>, b: &Vec<String>) -> (r: bool)
    ensures
        r == (a.deep_view() == b.deep_view()),
{
    let ghost da = a.deep_view();
    let ghost db = b.deep_view();
    if a.len() != b.len() {
        proof {
            assert(da.len() != db.len());
        }
        return false;
    }
    let mut i: usize = 0;
    while i < a.len()
        invariant
            i <= a@.len(),
            a@.len() == b@.len(),
            da == a.deep_view(),
            db == b.deep_view(),
            forall|j: int| 0 <= j < i ==> da[j] == db[j],
        decreases a@.len() - i,
    {
        if !same(a[i].as_str(), b[i].as_str()) {
            proof {
                assert(da[i as int] != db[i as int]);
            }
            return false;
        }
        i = i + 1;
    }
    proof {
        assert(da =~= db);
    }
    true
}

/// Checks the Members a legacy Task declared against the live Members of
/// the migrated one: each present, with its source, branch, Claims,
/// Boundary and Additions.
pub fn member_check(members: &[Worktree], additions: &[AdditionRow], identity: &str, declared: &Vec<MemberWant>) -> (r: Result<(), Error>)
    requires
        forall|i: int| 0 <= i < declared@.len() ==> (#[trigger] declared@[i]).extra@.len() < i64::MAX,
    ensures
        match member_from(members@, additions@, identity@, declared@, 0) {
            None => r is Ok,
            Some(f) => r matches Err(e) && raises(e, f),
        },
{
    let mut i: usize = 0;
    while i < declared.len()
        invariant
            i <= declared@.len(),
            forall|k: int| 0 <= k < declared@.len() ==> (#[trigger] declared@[k]).extra@.len() < i64::MAX,
            member_from(members@, additions@, identity@, declared@, 0) == member_from(members@, additions@, identity@, declared@, i as int),
        decreases declared@.len() - i,
    {
        let m = &declared[i];
        let a = join(identity, "/");
        let subject = join(a.as_str(), m.name.as_str());
        proof {
            reveal_strlit("missing Member ");
            reveal_strlit("Member differs: ");
            assert("missing Member "@ + subject@ =~= "missing Member "@ + identity@ + "/"@ + m.name@);
            assert("Member differs: "@ + subject@ =~= "Member differs: "@ + identity@ + "/"@ + m.name@);
        }
        let at = match find_worktree(members, identity, m.name.as_str()) {
            None => {
                return Err(mismatch(join("missing Member ", subject.as_str())));
            },
            Some(k) => k,
        };
        let w = &members[at];
        if !(same(w.source.as_str(), m.source.as_str()) && same(w.branch.as_str(), m.branch.as_str()) && same_texts(&w.claims, &m.write)) {
            return Err(mismatch(join("Member differs: ", subject.as_str())));
        }
        boundary_proof(identity, m.name.as_str(), &m.boundary, &w.proof)?;
        check(additions, "member", w.key, &m.extra)?;
        i = i + 1;
    }
    proof {
        assert(member_from(members@, additions@, identity@, declared@, i as int) is None);
    }
    Ok(())
}

/// A repository the legacy registry declared: its name, note and extra
/// fields.
#[derive(Clone, Debug, PartialEq, Eq)]
pub struct RepositoryWant {
    pub name: String,
    pub note: Option<String>,
    pub extra: Vec<(String, String)>,
}

/// A legacy Domain as its registry declared it: its name, extra fields and
/// repositories.
#[derive(Clone, Debug, PartialEq, Eq)]
pub struct RealmWant {
    pub name: String,
    pub extra: Vec<(String, String)>,
    pub repos: Vec<RepositoryWant>,
}

/// The first Domain row of the given name.
pub open spec fn domain_named(rows: Seq<DomainRow>, name: Seq<char>) -> Option<DomainRow>
    decreases rows.len(),
{
    if rows.len() == 0 {
        None
    } else if text_of(rows[0].name) == Some(name) {
        Some(rows[0])
    } else {
        domain_named(rows.drop_first(), name)
    }
}

/// The first repository row of the given Domain and name.
pub open spec fn repository_held(rows: Seq<RepositoryRow>, domain: i64, name: Seq<char>) -> Option<RepositoryRow>
    decreases rows.len(),
{
    if rows.len() == 0 {
        None
    } else if rows[0].domain == Some(domain) && text_of(rows[0].name) == Some(name) {
        Some(rows[0])
    } else {
        repository_held(rows.drop_first(), domain, name)
    }
}

/// The first declared repository, from `j` on, that the Domain lacks or
/// holds with another note or other Additions.
pub open spec fn repository_from(realm: Seq<char>, domain: i64, rows: Seq<RepositoryRow>, notes: Seq<AdditionRow>, repos: Seq<RepositoryWant>, j: int) -> Option<Fault>
    decreases repos.len() - j,
{
    if j < 0 || j >= repos.len() {
        None
    } else {
        let r = repos[j];
        match repository_held(rows, domain, r.name@) {
            None => Some(("concord.migration.mismatch"@, "missing Repository "@ + r.name@)),
            Some(h) => if text_of(h.note) != text_of(r.note) {
                Some(("concord.migration.mismatch"@, "Repository note differs: "@ + realm + "/"@ + r.name@))
            } else if in_order(rows_held(notes, h.key)) != wanted(r.extra@) {
                Some(differ("repository"@, h.key))
            } else {
                repository_from(realm, domain, rows, notes, repos, j + 1)
            },
        }
    }
}

/// The first legacy Domain, from `i` on, that the estate lacks or holds
/// otherwise: its Additions, then its repositories.
pub open spec fn domain_from(domains: Seq<DomainRow>, rows: Seq<RepositoryRow>, additions: Seq<AdditionRow>, notes: Seq<AdditionRow>, realms: Seq<RealmWant>, i: int) -> Option<Fault>
    decreases realms.len() - i,
{
    if i < 0 || i >= realms.len() {
        None
    } else {
        let realm = realms[i];
        match domain_named(domains, realm.name@) {
            None => Some(("concord.migration.mismatch"@, "missing Domain "@ + realm.name@)),
            Some(d) => if in_order(rows_held(additions, d.key)) != wanted(realm.extra@) {
                Some(differ("domain"@, d.key))
            } else {
                match repository_from(realm.name@, d.key, rows, notes, realm.repos@, 0) {
                    Some(f) => Some(f),
                    None => domain_from(domains, rows, additions, notes, realms, i + 1),
                }
            },
        }
    }
}

fn find_domain(rows: &[DomainRow], name: &str) -> (r: Option<usize>)
    ensures
        match domain_named(rows@, name@) {
            None => r is None,
            Some(d) => r matches Some(i) && i < rows@.len() && rows@[i as int] == d,
        },
{
    let mut i: usize = 0;
    proof {
        assert(rows@.skip(0) =~= rows@);
    }
    while i < rows.len()
        invariant
            i <= rows@.len(),
            domain_named(rows@, name@) == domain_named(rows@.skip(i as int), name@),
        decreases rows@.len() - i,
    {
        proof {
            assert(rows@.skip(i as int).drop_first() =~= rows@.skip(i + 1));
        }
        let hit = match &rows[i].name {
            Some(n) => same(n.as_str(), name),
            None => false,
        };
        if hit {
            return Some(i);
        }
        i = i + 1;
    }
    proof {
        assert(rows@.skip(i as int) =~= Seq::<DomainRow>::empty());
    }
    None
}

fn find_repository(rows: &[RepositoryRow], domain: i64, name: &str) -> (r: Option<usize>)
    ensures
        match repository_held(rows@, domain, name@) {
            None => r is None,
            Some(h) => r matches Some(i) && i < rows@.len() && rows@[i as int] == h,
        },
{
    let mut i: usize = 0;
    proof {
        assert(rows@.skip(0) =~= rows@);
    }
    while i < rows.len()
        invariant
            i <= rows@.len(),
            repository_held(rows@, domain, name@) == repository_held(rows@.skip(i as int), domain, name@),
        decreases rows@.len() - i,
    {
        proof {
            assert(rows@.skip(i as int).drop_first() =~= rows@.skip(i + 1));
        }
        let hit = match &rows[i].name {
            Some(n) => rows[i].domain == Some(domain) && same(n.as_str(), name),
            None => false,
        };
        if hit {
            return Some(i);
        }
        i = i + 1;
    }
    proof {
        assert(rows@.skip(i as int) =~= Seq::<RepositoryRow>::empty());
    }
    None
}

fn repositories(realm: &RealmWant, domain: i64, rows: &[RepositoryRow], notes: &[AdditionRow]) -> (r: Result<(), Error>)
    requires
        forall|j: int| 0 <= j < realm.repos@.len() ==> (#[trigger] realm.repos@[j]).extra@.len() < i64::MAX,
    ensures
        match repository_from(realm.name@, domain, rows@, notes@, realm.repos@, 0) {
            None => r is Ok,
            Some(f) => r matches Err(e) && raises(e, f),
        },
{
    let repos = &realm.repos;
    let mut j: usize = 0;
    while j < repos.len()
        invariant
            j <= repos@.len(),
            repos@ == realm.repos@,
            forall|k: int| 0 <= k < repos@.len() ==> (#[trigger] repos@[k]).extra@.len() < i64::MAX,
            repository_from(realm.name@, domain, rows@, notes@, repos@, 0) == repository_from(realm.name@, domain, rows@, notes@, repos@, j as int),
        decreases repos@.len() - j,
    {
        let want = &repos[j];
        let at = match find_repository(rows, domain, want.name.as_str()) {
            None => {
                return Err(mismatch(join("missing Repository ", want.name.as_str())));
            },
            Some(k) => k,
        };
        let held = &rows[at];
        if !same_text(&held.note, &want.note) {
            let a = join("Repository note differs: ", realm.name.as_str());
            let b = join(a.as_str(), "/");
            return Err(mismatch(join(b.as_str(), want.name.as_str())));
        }
        check(notes, "repository", held.key, &want.extra)?;
        j = j + 1;
    }
    proof {
        assert(repository_from(realm.name@, domain, rows@, notes@, repos@, j as int) is None);
    }
    Ok(())
}

/// Checks a migrated estate's Domains against the legacy registries: each
/// Domain present with its Additions, and each of its repositories present
/// with its note and Additions.
pub fn domain_check(domains: &[DomainRow], rows: &[RepositoryRow], additions: &[AdditionRow], notes: &[AdditionRow], realms: &Vec<RealmWant>) -> (r: Result<(), Error>)
    requires
        forall|i: int| 0 <= i < realms@.len() ==> (#[trigger] realms@[i]).extra@.len() < i64::MAX,
        forall|i: int, j: int| 0 <= i < realms@.len() && 0 <= j < realms@[i].repos@.len() ==> (#[trigger] realms@[i].repos@[j]).extra@.len() < i64::MAX,
    ensures
        match domain_from(domains@, rows@, additions@, notes@, realms@, 0) {
            None => r is Ok,
            Some(f) => r matches Err(e) && raises(e, f),
        },
{
    let mut i: usize = 0;
    while i < realms.len()
        invariant
            i <= realms@.len(),
            forall|k: int| 0 <= k < realms@.len() ==> (#[trigger] realms@[k]).extra@.len() < i64::MAX,
            forall|k: int, j: int| 0 <= k < realms@.len() && 0 <= j < realms@[k].repos@.len() ==> (#[trigger] realms@[k].repos@[j]).extra@.len() < i64::MAX,
            domain_from(domains@, rows@, additions@, notes@, realms@, 0) == domain_from(domains@, rows@, additions@, notes@, realms@, i as int),
        decreases realms@.len() - i,
    {
        let realm = &realms[i];
        let at = match find_domain(domains, realm.name.as_str()) {
            None => {
                return Err(mismatch(join("missing Domain ", realm.name.as_str())));
            },
            Some(k) => k,
        };
        let key = domains[at].key;
        check(additions, "domain", key, &realm.extra)?;
        proof {
            assert forall|j: int| 0 <= j < realm.repos@.len() implies (#[trigger] realm.repos@[j]).extra@.len() < i64::MAX by {
                assert(realms@[i as int].repos@[j].extra@.len() < i64::MAX);
            }
        }
        repositories(realm, key, rows, notes)?;
        i = i + 1;
    }
    proof {
        assert(domain_from(domains@, rows@, additions@, notes@, realms@, i as int) is None);
    }
    Ok(())
}

/// A role's place in the declared order of roles.
pub open spec fn role_place(r: Role) -> int {
    match r {
        Role::Goal => 0,
        Role::Constraint => 1,
        Role::Decision => 2,
        Role::Focus => 3,
        Role::Question => 4,
        Role::Next => 5,
        Role::Addition => 6,
    }
}

fn place_of(r: Role) -> (n: u8)
    ensures
        n == role_place(r),
{
    match r {
        Role::Goal => 0,
        Role::Constraint => 1,
        Role::Decision => 2,
        Role::Focus => 3,
        Role::Question => 4,
        Role::Next => 5,
        Role::Addition => 6,
    }
}

pub open spec fn rank_or_zero(f: Fact) -> int {
    match f.rank {
        Some(k) => k as int,
        None => 0,
    }
}

/// Fact order: by role, then by rank (a missing rank counts as 0).
pub open spec fn fact_before(a: Fact, b: Fact) -> bool {
    role_place(a.role) < role_place(b.role) || (role_place(a.role) == role_place(b.role) && rank_or_zero(a) < rank_or_zero(b))
}

pub open spec fn fact_slot(s: Seq<Fact>, x: Fact) -> Seq<Fact>
    decreases s.len(),
{
    if s.len() == 0 {
        seq![x]
    } else if fact_before(x, s[0]) {
        seq![x] + s
    } else {
        seq![s[0]] + fact_slot(s.drop_first(), x)
    }
}

/// The facts by role and rank, equal ones keeping their order.
pub open spec fn fact_order(s: Seq<Fact>) -> Seq<Fact>
    decreases s.len(),
{
    if s.len() == 0 {
        Seq::empty()
    } else {
        fact_slot(fact_order(s.drop_last()), s.last())
    }
}

proof fn lemma_fact_slot(s: Seq<Fact>, x: Fact, p: int)
    requires
        0 <= p <= s.len(),
        forall|j: int| 0 <= j < p ==> !fact_before(x, #[trigger] s[j]),
        p == s.len() || fact_before(x, s[p]),
    ensures
        fact_slot(s, x) == s.insert(p, x),
    decreases p,
{
    if p == 0 {
        if s.len() == 0 {
            assert(s.insert(0, x) =~= seq![x]);
        } else {
            assert(s.insert(0, x) =~= seq![x] + s);
        }
    } else {
        lemma_fact_slot(s.drop_first(), x, p - 1);
        assert(s.insert(p, x) =~= seq![s[0]] + s.drop_first().insert(p - 1, x));
    }
}

fn ahead(a: &Fact, b: &Fact) -> (r: bool)
    ensures
        r == fact_before(*a, *b),
{
    let pa = place_of(a.role);
    let pb = place_of(b.role);
    let ra: i64 = match a.rank {
        Some(k) => k,
        None => 0,
    };
    let rb: i64 = match b.rank {
        Some(k) => k,
        None => 0,
    };
    pa < pb || (pa == pb && ra < rb)
}

/// Sorts facts by role and rank, keeping the order of equal ones.
pub fn sort_facts(v: &Vec<Fact>) -> (r: Vec<Fact>)
    ensures
        r@ == fact_order(v@),
{
    let mut out: Vec<Fact> = Vec::new();
    let mut i: usize = 0;
    proof {
        assert(v@.take(0) =~= Seq::<Fact>::empty());
    }
    while i < v.len()
        invariant
            i <= v@.len(),
            out@ == fact_order(v@.take(i as int)),
        decreases v@.len() - i,
    {
        let x = v[i].duplicate();
        let mut p: usize = 0;
        while p < out.len() && !ahead(&x, &out[p])
            invariant
                p <= out@.len(),
                forall|j: int| 0 <= j < p ==> !fact_before(x, #[trigger] out@[j]),
            decreases out@.len() - p,
        {
            p = p + 1;
        }
        proof {
            lemma_fact_slot(out@, x, p as int);
            let t = v@.take(i + 1);
            assert(t.drop_last() =~= v@.take(i as int));
            assert(t.last() == v@[i as int]);
        }
        out.insert(p, x);
        i = i + 1;
    }
    proof {
        assert(v@.take(v@.len() as int) =~= v@);
    }
    out
}

/// A stored fact agrees with a wanted one: the wanted one has no key and
/// both say the same.
pub open spec fn fact_agrees(found: Fact, wanted: Fact) -> bool {
    wanted.key is None && fact_shape(found) == fact_shape(wanted)
}

/// The current facts of a migrated Task agree with the wanted ones: in
/// role and rank order, one for one.
pub open spec fn facts_agree(found: Seq<Fact>, wanted: Seq<Fact>) -> bool {
    let f = fact_order(found);
    let w = fact_order(wanted);
    f.len() == w.len() && forall|j: int| 0 <= j < f.len() ==> fact_agrees(#[trigger] f[j], w[j])
}

fn fact_matches(found: &Fact, wanted: &Fact) -> (r: bool)
    ensures
        r == fact_agrees(*found, *wanted),
{
    wanted.key.is_none() && found.role == wanted.role && found.rank == wanted.rank && same_text(&found.title, &wanted.title) && same(found.body.as_str(), wanted.body.as_str()) && same_text(&found.origin, &wanted.origin)
}

/// Checks the current facts of a migrated Task against the wanted ones,
/// each set in role and rank order, keys aside.
pub fn current_facts(identity: &str, wanted: &Vec<Fact>, found: &Vec<Fact>) -> (r: Result<(), Error>)
    ensures
        facts_agree(found@, wanted@) ==> r is Ok,
        !facts_agree(found@, wanted@) ==> (r matches Err(e) && raises(e, ("concord.migration.mismatch"@, "current facts differ for "@ + identity@))),
{
    let w = sort_facts(wanted);
    let f = sort_facts(found);
    if f.len() != w.len() {
        return Err(mismatch(join("current facts differ for ", identity)));
    }
    let mut j: usize = 0;
    while j < f.len()
        invariant
            j <= f@.len(),
            f@ == fact_order(found@),
            w@ == fact_order(wanted@),
            f@.len() == w@.len(),
            forall|k: int| 0 <= k < j ==> fact_agrees(#[trigger] f@[k], w@[k]),
        decreases f@.len() - j,
    {
        if !fact_matches(&f[j], &w[j]) {
            return Err(mismatch(join("current facts differ for ", identity)));
        }
        j = j + 1;
    }
    Ok(())
}

/// Refuses a legacy Task the migrated graph does not hold.
pub fn present(graph: &Graph, identity: &str) -> (r: Result<(), Error>)
    ensures
        key_of(graph.nodes@, identity@) is Some ==> r is Ok,
        key_of(graph.nodes@, identity@) is None ==> (r matches Err(e) && raises(e, ("concord.migration.mismatch"@, "missing Task "@ + identity@))),
{
    if find_key(&graph.nodes, identity).is_none() {
        return Err(mismatch(join("missing Task ", identity)));
    }
    Ok(())
}

} // verus!
