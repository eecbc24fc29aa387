//! Agreement: whether the estate's stored state agrees with itself.  Each
//! Task keeps a lifetime Reservation, live dependencies join live Tasks,
//! the direct graph is acyclic, and each materialized closure equals the
//! closure of the direct graph.
use crate::error::Error;
use crate::prepare::{Fault, raises};
use crate::state::{Edge, Flow, Graph, Life, Node, Weight};
use crate::text::{decimal, join, render_i64, render_usize, same};
use crate::world::{World, Realm, lookup, named, realm_hit, lex_less, less};
use crate::brief::key_hit;
use crate::change::{Fact, Part, Phase, Role};
use vstd::prelude::*;

verus! {

/// One finding of an agreement inspection.
#[derive(Clone, Debug, PartialEq, Eq)]
pub struct Finding {
    pub code: String,
    pub subject: String,
    pub message: String,
}

/// What an agreement inspection found.
#[derive(Clone, Debug)]
pub struct Agreement {
    pub target: String,
    pub revision: i64,
    pub faults: Vec<Finding>,
    pub observations: Vec<Finding>,
}

/// A finding as text: code, subject, message.
pub type Said = (Seq<char>, Seq<char>, Seq<char>);

pub open spec fn says(f: Finding) -> Said {
    (f.code@, f.subject@, f.message@)
}

pub open spec fn said(fs: Seq<Finding>) -> Seq<Said> {
    fs.map_values(|f: Finding| says(f))
}

impl Agreement {
    /// Whether the inspection found no fault.
    pub fn agrees(&self) -> (r: bool)
        ensures
            r == (self.faults@.len() == 0),
    {
        self.faults.len() == 0
    }

    /// Records a fault.
    pub fn fault(&mut self, code: &str, subject: String, message: String)
        ensures
            final(self).target == old(self).target,
            final(self).revision == old(self).revision,
            final(self).observations == old(self).observations,
            said(final(self).faults@) == said(old(self).faults@).push((code@, subject@, message@)),
    {
        let ghost before = self.faults@;
        self.faults.push(Finding { code: String::from_str(code), subject, message });
        proof {
            assert(said(self.faults@) =~= said(before).push((code@, subject@, message@)));
        }
    }

    /// Records an observation.
    pub fn observe(&mut self, code: &str, subject: String, message: String)
        ensures
            final(self).target == old(self).target,
            final(self).revision == old(self).revision,
            final(self).faults == old(self).faults,
            said(final(self).observations@) == said(old(self).observations@).push((code@, subject@, message@)),
    {
        let ghost before = self.observations@;
        self.observations.push(Finding { code: String::from_str(code), subject, message });
        proof {
            assert(said(self.observations@) =~= said(before).push((code@, subject@, message@)));
        }
    }
}

pub open spec fn refusal(count: int) -> Fault {
    ("concord.audit.refused"@, "estate has "@ + decimal(count) + " agreement fault(s)"@)
}

/// Refuses a write while the estate disagrees with itself.
pub fn ensure(report: &Agreement) -> (r: Result<(), Error>)
    ensures
        report.faults@.len() == 0 ==> r is Ok,
        report.faults@.len() > 0 ==> (r matches Err(e) && raises(e, refusal(report.faults@.len() as int))),
{
    if report.agrees() {
        return Ok(());
    }
    let a = join("estate has ", render_usize(report.faults.len()).as_str());
    Err(Error::typed("concord.audit.refused", join(a.as_str(), " agreement fault(s)")))
}

/// Refuses an inspection scoped to both a Task and a Domain.
pub fn scope(task: Option<&str>, domain: Option<&str>) -> (r: Result<(), Error>)
    ensures
        task is Some && domain is Some ==> (r matches Err(e) && raises(e, ("concord.audit.scope"@, "audit accepts a Task or Domain, not both"@))),
        !(task is Some && domain is Some) ==> r is Ok,
{
    if task.is_some() && domain.is_some() {
        return Err(Error::said("concord.audit.scope", "audit accepts a Task or Domain, not both"));
    }
    Ok(())
}

/// A Task of the given Domain.
pub open spec fn of_domain(domain: Seq<char>) -> spec_fn(Node) -> bool {
    |n: Node| n.domain@ == domain
}

/// The Tasks an inspection covers: the one a Task identity names, those of
/// a Domain, or all.
pub fn select(world: &World, task: Option<&str>, domain: Option<&str>) -> (r: Result<Vec<Node>, Error>)
    ensures
        match task {
            Some(t) => match lookup(world.nodes@, t@) {
                Ok(n) => r matches Ok(v) && v@ == seq![n],
                Err(f) => r matches Err(e) && raises(e, f),
            },
            None => match domain {
                Some(d) => if named(world.domains@, d@) is None {
                    r matches Err(e) && raises(e, ("concord.domain.absent"@, "unknown managed domain "@ + d@))
                } else {
                    r matches Ok(v) && v@ == world.nodes@.filter(of_domain(d@))
                },
                None => r matches Ok(v) && v@ == world.nodes@,
            },
        },
{
    if let Some(t) = task {
        return match world.node(t) {
            Ok(n) => {
                let mut v = Vec::new();
                v.push(n.duplicate());
                Ok(v)
            },
            Err(e) => Err(e),
        };
    }
    let nodes = &world.nodes;
    if let Some(d) = domain {
        if world.domain(d).is_none() {
            return Err(Error::typed("concord.domain.absent", join("unknown managed domain ", d)));
        }
        let ghost hit = of_domain(d@);
        let mut out: Vec<Node> = Vec::new();
        let mut i: usize = 0;
        while i < nodes.len()
            invariant
                i <= nodes@.len(),
                nodes@ == world.nodes@,
                hit == of_domain(d@),
                out@ == nodes@.take(i as int).filter(hit),
            decreases nodes@.len() - i,
        {
            proof {
                assert(nodes@.take(i + 1) =~= nodes@.take(i as int).push(nodes@[i as int]));
                nodes@.take(i as int).lemma_filter_push(nodes@[i as int], hit);
            }
            if same(nodes[i].domain.as_str(), d) {
                out.push(nodes[i].duplicate());
            }
            i = i + 1;
        }
        proof {
            assert(nodes@.take(nodes@.len() as int) =~= nodes@);
        }
        return Ok(out);
    }
    let mut out: Vec<Node> = Vec::new();
    let mut i: usize = 0;
    while i < nodes.len()
        invariant
            i <= nodes@.len(),
            nodes@ == world.nodes@,
            out@ == nodes@.take(i as int),
        decreases nodes@.len() - i,
    {
        out.push(nodes[i].duplicate());
        proof {
            assert(nodes@.take(i + 1) =~= nodes@.take(i as int).push(nodes@[i as int]));
        }
        i = i + 1;
    }
    proof {
        assert(nodes@.take(nodes@.len() as int) =~= nodes@);
    }
    Ok(out)
}

/// A stored Reservation row, as the inspection reads it.
#[derive(Clone, Debug, PartialEq, Eq)]
pub struct ReservationRow {
    pub key: i64,
    pub domain: Option<i64>,
    pub name: Option<String>,
}

/// A row reserves the Task `name` in Domain `domain`.
pub open spec fn reserves(row: ReservationRow, domain: i64, name: Seq<char>) -> bool {
    row.domain == Some(domain) && row.name is Some && row.name->0@ == name
}

/// A Domain of the given key is loaded.
pub open spec fn loaded(domains: Seq<Realm>, key: i64) -> bool {
    exists|i: int| 0 <= i < domains.len() && (#[trigger] domains[i]).key == key
}

/// The faults for Tasks without a Reservation, in Task order.
pub open spec fn unreserved(nodes: Seq<Node>, domains: Seq<Realm>, rows: Seq<ReservationRow>) -> Seq<Said>
    decreases nodes.len(),
{
    if nodes.len() == 0 {
        Seq::empty()
    } else {
        let n = nodes.last();
        let d = named(domains, n.domain@)->0;
        unreserved(nodes.drop_last(), domains, rows) + if exists|j: int| 0 <= j < rows.len() && reserves(#[trigger] rows[j], d, n.name@) {
            Seq::<Said>::empty()
        } else {
            seq![("reservation.missing"@, n.ident(), "current Task coordinate has no lifetime Reservation"@)]
        }
    }
}

/// The faults for malformed Reservation rows, in row order.
pub open spec fn malformed_rows(rows: Seq<ReservationRow>, domains: Seq<Realm>) -> Seq<Said>
    decreases rows.len(),
{
    if rows.len() == 0 {
        Seq::empty()
    } else {
        let r = rows.last();
        malformed_rows(rows.drop_last(), domains) + if r.name is None || !loaded(domains, match r.domain { Some(d) => d, None => -1i64 }) {
            seq![("reservation.malformed"@, "Reservation#"@ + decimal(r.key as int), "Reservation has malformed name or Domain"@)]
        } else {
            Seq::<Said>::empty()
        }
    }
}

fn is_loaded(domains: &Vec<Realm>, key: i64) -> (r: bool)
    ensures
        r == loaded(domains@, key),
{
    let mut i: usize = 0;
    while i < domains.len()
        invariant
            i <= domains@.len(),
            forall|j: int| 0 <= j < i ==> (#[trigger] domains@[j]).key != key,
        decreases domains@.len() - i,
    {
        if domains[i].key == key {
            return true;
        }
        i = i + 1;
    }
    false
}

fn is_reserved(rows: &[ReservationRow], domain: i64, name: &str) -> (r: bool)
    ensures
        r == exists|j: int| 0 <= j < rows@.len() && reserves(#[trigger] rows@[j], domain, name@),
{
    let mut j: usize = 0;
    while j < rows.len()
        invariant
            j <= rows@.len(),
            forall|k: int| 0 <= k < j ==> !reserves(#[trigger] rows@[k], domain, name@),
        decreases rows@.len() - j,
    {
        let hit = match &rows[j].name {
            Some(n) => rows[j].domain == Some(domain) && same(n.as_str(), name),
            None => false,
        };
        if hit {
            return true;
        }
        j = j + 1;
    }
    false
}

/// Every Task keeps a lifetime Reservation, and every Reservation row names
/// a Task in a loaded Domain.
pub fn reservations(world: &World, rows: &[ReservationRow], report: &mut Agreement)
    requires
        forall|i: int| 0 <= i < world.nodes@.len() ==> named(world.domains@, (#[trigger] world.nodes@[i]).domain@) is Some,
    ensures
        final(report).target == old(report).target,
        final(report).revision == old(report).revision,
        final(report).observations == old(report).observations,
        said(final(report).faults@) == said(old(report).faults@) + unreserved(world.nodes@, world.domains@, rows@) + malformed_rows(rows@, world.domains@),
{
    let nodes = &world.nodes;
    let ghost base = said(report.faults@);
    let mut i: usize = 0;
    proof {
        assert(nodes@.take(0) =~= Seq::<Node>::empty());
        assert(base + Seq::<Said>::empty() =~= base);
    }
    while i < nodes.len()
        invariant
            i <= nodes@.len(),
            nodes@ == world.nodes@,
            forall|k: int| 0 <= k < world.nodes@.len() ==> named(world.domains@, (#[trigger] world.nodes@[k]).domain@) is Some,
            report.target == old(report).target,
            report.revision == old(report).revision,
            report.observations == old(report).observations,
            base == said(old(report).faults@),
            said(report.faults@) == base + unreserved(nodes@.take(i as int), world.domains@, rows@),
        decreases nodes@.len() - i,
    {
        proof {
            let t = nodes@.take(i + 1);
            assert(t.drop_last() =~= nodes@.take(i as int));
            assert(t.last() == nodes@[i as int]);
        }
        let ghost prior = unreserved(nodes@.take(i as int), world.domains@, rows@);
        let node = &nodes[i];
        let d = match world.domain(node.domain.as_str()) {
            Some(d) => d,
            None => 0,
        };
        if !is_reserved(rows, d, node.name.as_str()) {
            report.fault("reservation.missing", node.identity(), String::from_str("current Task coordinate has no lifetime Reservation"));
            proof {
                assert(base + prior + seq![("reservation.missing"@, node.ident(), "current Task coordinate has no lifetime Reservation"@)] =~= (base + prior).push(("reservation.missing"@, node.ident(), "current Task coordinate has no lifetime Reservation"@)));
            }
        } else {
            proof {
                assert(base + prior + Seq::<Said>::empty() =~= base + prior);
            }
        }
        i = i + 1;
    }
    proof {
        assert(nodes@.take(nodes@.len() as int) =~= nodes@);
    }
    let ghost mid = said(report.faults@);
    let mut j: usize = 0;
    proof {
        assert(rows@.take(0) =~= Seq::<ReservationRow>::empty());
        assert(mid + Seq::<Said>::empty() =~= mid);
    }
    while j < rows.len()
        invariant
            j <= rows@.len(),
            report.target == old(report).target,
            report.revision == old(report).revision,
            report.observations == old(report).observations,
            said(report.faults@) == mid + malformed_rows(rows@.take(j as int), world.domains@),
        decreases rows@.len() - j,
    {
        proof {
            let t = rows@.take(j + 1);
            assert(t.drop_last() =~= rows@.take(j as int));
            assert(t.last() == rows@[j as int]);
        }
        let ghost prior = malformed_rows(rows@.take(j as int), world.domains@);
        let row = &rows[j];
        let d = match row.domain {
            Some(d) => d,
            None => -1,
        };
        if row.name.is_none() || !is_loaded(&world.domains, d) {
            let subject = join("Reservation#", render_i64(row.key).as_str());
            report.fault("reservation.malformed", subject, String::from_str("Reservation has malformed name or Domain"));
            proof {
                let x = ("reservation.malformed"@, "Reservation#"@ + decimal(row.key as int), "Reservation has malformed name or Domain"@);
                assert(mid + prior + seq![x] =~= (mid + prior).push(x));
            }
        } else {
            proof {
                assert(mid + prior + Seq::<Said>::empty() =~= mid + prior);
            }
        }
        j = j + 1;
    }
    proof {
        assert(rows@.take(rows@.len() as int) =~= rows@);
    }
}

/// The first node of the given key, if any.
pub open spec fn endpoint_of(nodes: Seq<Node>, key: i64) -> Option<Node> {
    let hits = nodes.filter(key_hit(key));
    if hits.len() == 0 {
        None
    } else {
        Some(hits[0])
    }
}

/// An endpoint that is absent or retired.
pub open spec fn dead(n: Option<Node>) -> bool {
    n is None || n->0.life == Life::Retired
}

pub open spec fn edge_subject(e: Edge) -> Seq<char> {
    "Dependency#"@ + decimal(e.key as int)
}

/// The fault a live dependency raises.
pub open spec fn edge_faults(nodes: Seq<Node>, e: Edge) -> Seq<Said> {
    if dead(endpoint_of(nodes, e.source)) || dead(endpoint_of(nodes, e.target)) {
        seq![("dependency.retired"@, edge_subject(e), "live dependency endpoint is absent or retired"@)]
    } else {
        Seq::empty()
    }
}

/// The observations a live dependency raises.
pub open spec fn edge_notes(nodes: Seq<Node>, e: Edge) -> Seq<Said> {
    let src = endpoint_of(nodes, e.source);
    let tgt = endpoint_of(nodes, e.target);
    (if e.weight == Weight::Unknown {
        seq![("dependency.unknown"@, edge_subject(e), "dependency weight is unknown"@)]
    } else {
        Seq::<Said>::empty()
    }) + (if src is Some && tgt is Some && src->0.domain@ != tgt->0.domain@ {
        seq![("dependency.cross_domain"@, src->0.ident() + " -> "@ + tgt->0.ident(), "dependency crosses Domain boundaries"@)]
    } else {
        Seq::<Said>::empty()
    })
}

pub open spec fn all_edge_faults(nodes: Seq<Node>, edges: Seq<Edge>) -> Seq<Said>
    decreases edges.len(),
{
    if edges.len() == 0 {
        Seq::empty()
    } else {
        all_edge_faults(nodes, edges.drop_last()) + edge_faults(nodes, edges.last())
    }
}

pub open spec fn all_edge_notes(nodes: Seq<Node>, edges: Seq<Edge>) -> Seq<Said>
    decreases edges.len(),
{
    if edges.len() == 0 {
        Seq::empty()
    } else {
        all_edge_notes(nodes, edges.drop_last()) + edge_notes(nodes, edges.last())
    }
}

/// The place of the first Task of the given key, if any.
pub fn first_node(nodes: &Vec<Node>, key: i64) -> (r: Option<usize>)
    ensures
        match endpoint_of(nodes@, key) {
            None => r is None,
            Some(n) => r matches Some(i) && i < nodes@.len() && nodes@[i as int] == n,
        },
{
    let ghost hit = key_hit(key);
    let mut i: usize = 0;
    while i < nodes.len()
        invariant
            i <= nodes@.len(),
            hit == key_hit(key),
            nodes@.take(i as int).filter(hit).len() == 0,
        decreases nodes@.len() - i,
    {
        proof {
            assert(nodes@.take(i + 1) =~= nodes@.take(i as int).push(nodes@[i as int]));
            nodes@.take(i as int).lemma_filter_push(nodes@[i as int], hit);
        }
        if nodes[i].key == key {
            proof {
                crate::world::lemma_filter_first(nodes@, hit, i as int);
            }
            return Some(i);
        }
        i = i + 1;
    }
    proof {
        assert(nodes@.take(nodes@.len() as int) =~= nodes@);
    }
    None
}

fn check_edge(graph: &Graph, e: &Edge, report: &mut Agreement)
    ensures
        final(report).target == old(report).target,
        final(report).revision == old(report).revision,
        said(final(report).faults@) == said(old(report).faults@) + edge_faults(graph.nodes@, *e),
        said(final(report).observations@) == said(old(report).observations@) + edge_notes(graph.nodes@, *e),
{
    let nodes = &graph.nodes;
    let src = first_node(nodes, e.source);
    let tgt = first_node(nodes, e.target);
    let dead_src = match src {
        None => true,
        Some(i) => nodes[i].life == Life::Retired,
    };
    let dead_tgt = match tgt {
        None => true,
        Some(i) => nodes[i].life == Life::Retired,
    };
    let ghost f0 = said(report.faults@);
    let ghost o0 = said(report.observations@);
    let subject = join("Dependency#", render_i64(e.key).as_str());
    if dead_src || dead_tgt {
        report.fault("dependency.retired", subject.clone(), String::from_str("live dependency endpoint is absent or retired"));
        proof {
            let x = ("dependency.retired"@, edge_subject(*e), "live dependency endpoint is absent or retired"@);
            assert(f0 + seq![x] =~= f0.push(x));
        }
    } else {
        proof {
            assert(f0 + Seq::<Said>::empty() =~= f0);
        }
    }
    let ghost o1 = said(report.observations@);
    let ghost unknown: Seq<Said> = if e.weight == Weight::Unknown {
        seq![("dependency.unknown"@, edge_subject(*e), "dependency weight is unknown"@)]
    } else {
        Seq::<Said>::empty()
    };
    if e.weight == Weight::Unknown {
        report.observe("dependency.unknown", subject, String::from_str("dependency weight is unknown"));
        proof {
            assert(o1 + unknown =~= o1.push(unknown[0]));
        }
    } else {
        proof {
            assert(o1 + unknown =~= o1);
        }
    }
    let ghost o2 = said(report.observations@);
    match (src, tgt) {
        (Some(a), Some(b)) => {
            if !same(nodes[a].domain.as_str(), nodes[b].domain.as_str()) {
                let left = join(nodes[a].identity().as_str(), " -> ");
                let subject = join(left.as_str(), nodes[b].identity().as_str());
                report.observe("dependency.cross_domain", subject, String::from_str("dependency crosses Domain boundaries"));
                proof {
                    let x = ("dependency.cross_domain"@, nodes@[a as int].ident() + " -> "@ + nodes@[b as int].ident(), "dependency crosses Domain boundaries"@);
                    assert(o2 + seq![x] =~= o2.push(x));
                    assert(o0 + (unknown + seq![x]) =~= o0 + unknown + seq![x]);
                }
            } else {
                proof {
                    assert(o0 + (unknown + Seq::<Said>::empty()) =~= o0 + unknown);
                }
            }
        },
        _ => {
            proof {
                assert(o0 + (unknown + Seq::<Said>::empty()) =~= o0 + unknown);
            }
        },
    }
}

/// The dependency checks over every live edge: endpoints present and
/// active, weight known, and the Domain boundaries it crosses.
pub fn check_edges(graph: &Graph, report: &mut Agreement)
    ensures
        final(report).target == old(report).target,
        final(report).revision == old(report).revision,
        said(final(report).faults@) == said(old(report).faults@) + all_edge_faults(graph.nodes@, graph.edges@),
        said(final(report).observations@) == said(old(report).observations@) + all_edge_notes(graph.nodes@, graph.edges@),
{
    let edges = &graph.edges;
    let ghost f0 = said(report.faults@);
    let ghost o0 = said(report.observations@);
    let mut i: usize = 0;
    proof {
        assert(edges@.take(0) =~= Seq::<Edge>::empty());
        assert(f0 + Seq::<Said>::empty() =~= f0);
        assert(o0 + Seq::<Said>::empty() =~= o0);
    }
    while i < edges.len()
        invariant
            i <= edges@.len(),
            edges@ == graph.edges@,
            report.target == old(report).target,
            report.revision == old(report).revision,
            f0 == said(old(report).faults@),
            o0 == said(old(report).observations@),
            said(report.faults@) == f0 + all_edge_faults(graph.nodes@, edges@.take(i as int)),
            said(report.observations@) == o0 + all_edge_notes(graph.nodes@, edges@.take(i as int)),
        decreases edges@.len() - i,
    {
        proof {
            let t = edges@.take(i + 1);
            assert(t.drop_last() =~= edges@.take(i as int));
            assert(t.last() == edges@[i as int]);
        }
        let ghost pf = all_edge_faults(graph.nodes@, edges@.take(i as int));
        let ghost po = all_edge_notes(graph.nodes@, edges@.take(i as int));
        check_edge(graph, &edges[i], report);
        proof {
            let e = edges@[i as int];
            assert(f0 + pf + edge_faults(graph.nodes@, e) =~= f0 + (pf + edge_faults(graph.nodes@, e)));
            assert(o0 + po + edge_notes(graph.nodes@, e) =~= o0 + (po + edge_notes(graph.nodes@, e)));
        }
        i = i + 1;
    }
    proof {
        assert(edges@.take(edges@.len() as int) =~= edges@);
    }
}

/// The items of a list of keys as `Debug` writes them, joined by ", ".
pub open spec fn items(s: Seq<i64>) -> Seq<char>
    decreases s.len(),
{
    if s.len() == 0 {
        Seq::empty()
    } else if s.len() == 1 {
        decimal(s[0] as int)
    } else {
        items(s.drop_last()) + ", "@ + decimal(s.last() as int)
    }
}

/// A list of keys as `Debug` writes it.
pub open spec fn list_text(s: Seq<i64>) -> Seq<char> {
    "["@ + items(s) + "]"@
}

/// Writes a list of keys as `Debug` does.
pub fn render_list(s: &Vec<i64>) -> (r: String)
    ensures
        r@ == list_text(s@),
{
    let mut acc = String::new();
    let mut i: usize = 0;
    proof {
        assert(s@.take(0) =~= Seq::<i64>::empty());
    }
    while i < s.len()
        invariant
            i <= s@.len(),
            acc@ == items(s@.take(i as int)),
        decreases s@.len() - i,
    {
        proof {
            let t = s@.take(i + 1);
            assert(t.drop_last() =~= s@.take(i as int));
            assert(t.last() == s@[i as int]);
        }
        let digits = render_i64(s[i]);
        if i == 0 {
            acc = digits;
        } else {
            let a = join(acc.as_str(), ", ");
            acc = join(a.as_str(), digits.as_str());
        }
        i = i + 1;
    }
    proof {
        assert(s@.take(s@.len() as int) =~= s@);
    }
    let a = join("[", acc.as_str());
    join(a.as_str(), "]")
}

/// The faults that direct dependency cycles raise, one per cycle.
pub open spec fn cycle_said(cycles: Seq<Seq<i64>>) -> Seq<Said>
    decreases cycles.len(),
{
    if cycles.len() == 0 {
        Seq::empty()
    } else {
        cycle_said(cycles.drop_last()).push(("dependency.cycle"@, "graph"@, "direct dependency cycle: "@ + list_text(cycles.last())))
    }
}

/// Records a fault for each direct dependency cycle.
pub fn cycle_faults(cycles: &Vec<Vec<i64>>, report: &mut Agreement)
    ensures
        final(report).target == old(report).target,
        final(report).revision == old(report).revision,
        final(report).observations == old(report).observations,
        said(final(report).faults@) == said(old(report).faults@) + cycle_said(cycles.deep_view()),
{
    let ghost f0 = said(report.faults@);
    let ghost d = cycles.deep_view();
    let mut i: usize = 0;
    proof {
        assert(d.take(0) =~= Seq::<Seq<i64>>::empty());
        assert(f0 + Seq::<Said>::empty() =~= f0);
    }
    while i < cycles.len()
        invariant
            i <= cycles@.len(),
            d == cycles.deep_view(),
            d.len() == cycles@.len(),
            report.target == old(report).target,
            report.revision == old(report).revision,
            report.observations == old(report).observations,
            f0 == said(old(report).faults@),
            said(report.faults@) == f0 + cycle_said(d.take(i as int)),
        decreases cycles@.len() - i,
    {
        proof {
            let t = d.take(i + 1);
            assert(t.drop_last() =~= d.take(i as int));
            assert(t.last() == cycles@[i as int]@);
        }
        let ghost prior = cycle_said(d.take(i as int));
        let text = render_list(&cycles[i]);
        report.fault("dependency.cycle", String::from_str("graph"), join("direct dependency cycle: ", text.as_str()));
        proof {
            let x = ("dependency.cycle"@, "graph"@, "direct dependency cycle: "@ + list_text(cycles@[i as int]@));
            assert(f0 + prior.push(x) =~= (f0 + prior).push(x));
        }
        i = i + 1;
    }
    proof {
        assert(d.take(d.len() as int) =~= d);
    }
}

/// A materialized closure disagrees with the direct graph: it is not the
/// list, in graph order, of the Tasks that `key` reaches.
pub open spec fn drifts(graph: Graph, key: i64, found: Seq<i64>) -> bool {
    !(graph.arranged(found) && forall|y: i64| #[trigger] found.contains(y) <==> (y != key && graph.reachable(key, Flow::Out, Weight::Unknown, y)))
}

/// The faults that drifted closures raise, in node order.
pub open spec fn closure_said(graph: Graph, nodes: Seq<Node>, found: Seq<Seq<i64>>) -> Seq<Said>
    decreases nodes.len(),
{
    if nodes.len() == 0 {
        Seq::empty()
    } else {
        closure_said(graph, nodes.drop_last(), found.drop_last()) + if drifts(graph, nodes.last().key, found.last()) {
            seq![("dependency.closure"@, nodes.last().ident(), "materialized closure differs from the direct graph"@)]
        } else {
            Seq::<Said>::empty()
        }
    }
}

fn same_keys(a: &Vec<i64>, b: &Vec<i64>) -> (r: bool)
    ensures
        r == (a@ == b@),
{
    if a.len() != b.len() {
        return false;
    }
    let mut i: usize = 0;
    while i < a.len()
        invariant
            i <= a@.len(),
            a@.len() == b@.len(),
            forall|j: int| 0 <= j < i ==> a@[j] == b@[j],
        decreases a@.len() - i,
    {
        if a[i] != b[i] {
            return false;
        }
        i = i + 1;
    }
    assert(a@ =~= b@);
    true
}

/// Records a fault for each Task whose materialized closure differs from
/// the closure of the direct graph; `found` holds the materialized closures
/// in node order.
pub fn closure_faults(graph: &Graph, found: &Vec<Vec<i64>>, report: &mut Agreement)
    requires
        found@.len() == graph.nodes@.len(),
    ensures
        final(report).target == old(report).target,
        final(report).revision == old(report).revision,
        final(report).observations == old(report).observations,
        said(final(report).faults@) == said(old(report).faults@) + closure_said(*graph, graph.nodes@, found.deep_view()),
{
    let nodes = &graph.nodes;
    let ghost d = found.deep_view();
    let ghost f0 = said(report.faults@);
    let mut i: usize = 0;
    proof {
        assert(nodes@.take(0) =~= Seq::<Node>::empty());
        assert(f0 + Seq::<Said>::empty() =~= f0);
    }
    while i < nodes.len()
        invariant
            i <= nodes@.len(),
            nodes@ == graph.nodes@,
            found@.len() == nodes@.len(),
            d == found.deep_view(),
            d.len() == found@.len(),
            report.target == old(report).target,
            report.revision == old(report).revision,
            report.observations == old(report).observations,
            f0 == said(old(report).faults@),
            said(report.faults@) == f0 + closure_said(*graph, nodes@.take(i as int), d.take(i as int)),
        decreases nodes@.len() - i,
    {
        proof {
            let t = nodes@.take(i + 1);
            assert(t.drop_last() =~= nodes@.take(i as int));
            assert(t.last() == nodes@[i as int]);
            let u = d.take(i + 1);
            assert(u.drop_last() =~= d.take(i as int));
            assert(u.last() == found@[i as int]@);
        }
        let ghost prior = closure_said(*graph, nodes@.take(i as int), d.take(i as int));
        let key = nodes[i].key;
        let wanted = graph.reach(key, Flow::Out, Weight::Unknown);
        let agree = same_keys(&wanted, &found[i]);
        proof {
            let f = found@[i as int]@;
            if !drifts(*graph, key, f) {
                graph.lemma_arranged_unique(wanted@, f);
            }
        }
        if !agree {
            report.fault("dependency.closure", nodes[i].identity(), String::from_str("materialized closure differs from the direct graph"));
            proof {
                let x = ("dependency.closure"@, nodes@[i as int].ident(), "materialized closure differs from the direct graph"@);
                assert(f0 + prior + seq![x] =~= (f0 + prior).push(x));
            }
        } else {
            proof {
                assert(f0 + prior + Seq::<Said>::empty() =~= f0 + prior);
            }
        }
        i = i + 1;
    }
    proof {
        assert(nodes@.take(nodes@.len() as int) =~= nodes@);
        assert(d.take(d.len() as int) =~= d);
    }
}

/// The graph checks of an inspection: every live edge, every direct
/// dependency cycle, and every Task's materialized closure (`found`, in node
/// order) against the closure of the direct graph.
pub fn network(graph: &Graph, found: &Vec<Vec<i64>>, report: &mut Agreement)
    requires
        found@.len() == graph.nodes@.len(),
    ensures
        final(report).target == old(report).target,
        final(report).revision == old(report).revision,
        said(final(report).observations@) == said(old(report).observations@) + all_edge_notes(graph.nodes@, graph.edges@),
        exists|cs: Seq<Seq<i64>>| {
            &&& (exists|groups: Seq<Seq<i64>>| graph.components(groups) && graph.circuits(groups, cs))
            &&& said(final(report).faults@) == said(old(report).faults@) + all_edge_faults(graph.nodes@, graph.edges@) + cycle_said(cs) + closure_said(*graph, graph.nodes@, found.deep_view())
        },
{
    check_edges(graph, report);
    let cycles = graph.cycles();
    cycle_faults(&cycles, report);
    closure_faults(graph, found, report);
    proof {
        let cs = cycles.deep_view();
        assert(exists|groups: Seq<Seq<i64>>| graph.components(groups) && graph.circuits(groups, cs));
    }
}

/// The roles an active Task must hold a fact of, with their names.
pub open spec fn required_roles() -> Seq<(Role, Seq<char>)> {
    seq![(Role::Goal, "Goal"@), (Role::Focus, "Focus"@), (Role::Next, "Next"@)]
}

/// The observations for the required roles an active Task holds no fact of.
pub open spec fn missing_said(identity: Seq<char>, facts: Seq<Fact>, roles: Seq<(Role, Seq<char>)>) -> Seq<Said>
    decreases roles.len(),
{
    if roles.len() == 0 {
        Seq::empty()
    } else {
        missing_said(identity, facts, roles.drop_last()) + if exists|k: int| 0 <= k < facts.len() && (#[trigger] facts[k]).role == roles.last().0 {
            Seq::<Said>::empty()
        } else {
            seq![("task.missing_fact"@, identity, "active Task has no "@ + roles.last().1)]
        }
    }
}

fn holds_role(facts: &[Fact], role: Role) -> (r: bool)
    ensures
        r == exists|k: int| 0 <= k < facts@.len() && (#[trigger] facts@[k]).role == role,
{
    let mut k: usize = 0;
    while k < facts.len()
        invariant
            k <= facts@.len(),
            forall|j: int| 0 <= j < k ==> (#[trigger] facts@[j]).role != role,
        decreases facts@.len() - k,
    {
        if facts[k].role == role {
            return true;
        }
        k = k + 1;
    }
    false
}

/// Observes each of Goal, Focus and Next that an active Task holds no fact
/// of; a retired Task needs none.
pub fn missing_facts(task: &Node, facts: &[Fact], report: &mut Agreement)
    ensures
        final(report).target == old(report).target,
        final(report).revision == old(report).revision,
        final(report).faults == old(report).faults,
        task.life != Life::Active ==> final(report).observations == old(report).observations,
        task.life == Life::Active ==> said(final(report).observations@) == said(old(report).observations@) + missing_said(task.ident(), facts@, required_roles()),
{
    if task.life != Life::Active {
        return;
    }
    let ghost o0 = said(report.observations@);
    let ghost roles = required_roles();
    let mut i: usize = 0;
    proof {
        assert(roles.take(0) =~= Seq::<(Role, Seq<char>)>::empty());
        assert(o0 + Seq::<Said>::empty() =~= o0);
        reveal_strlit("Goal");
        reveal_strlit("Focus");
        reveal_strlit("Next");
    }
    while i < 3
        invariant
            i <= 3,
            roles == required_roles(),
            report.target == old(report).target,
            report.revision == old(report).revision,
            report.faults == old(report).faults,
            o0 == said(old(report).observations@),
            said(report.observations@) == o0 + missing_said(task.ident(), facts@, roles.take(i as int)),
        decreases 3 - i,
    {
        let (role, name): (Role, &str) = if i == 0 {
            (Role::Goal, "Goal")
        } else if i == 1 {
            (Role::Focus, "Focus")
        } else {
            (Role::Next, "Next")
        };
        proof {
            reveal_strlit("Goal");
            reveal_strlit("Focus");
            reveal_strlit("Next");
            assert(roles[i as int] == (role, name@));
            let t = roles.take(i + 1);
            assert(t.drop_last() =~= roles.take(i as int));
            assert(t.last() == roles[i as int]);
        }
        let ghost prior = missing_said(task.ident(), facts@, roles.take(i as int));
        if !holds_role(facts, role) {
            report.observe("task.missing_fact", task.identity(), join("active Task has no ", name));
            proof {
                let x = ("task.missing_fact"@, task.ident(), "active Task has no "@ + name@);
                assert(o0 + prior + seq![x] =~= (o0 + prior).push(x));
            }
        } else {
            proof {
                assert(o0 + prior + Seq::<Said>::empty() =~= o0 + prior);
            }
        }
        i = i + 1;
    }
    proof {
        assert(roles.take(3) =~= roles);
    }
}

/// The observations for Phases without an Outcome, in the given order.
pub open spec fn outcome_said(identity: Seq<char>, phases: Seq<Phase>) -> Seq<Said>
    decreases phases.len(),
{
    if phases.len() == 0 {
        Seq::empty()
    } else {
        outcome_said(identity, phases.drop_last()) + if exists|k: int| 0 <= k < phases.last().entries@.len() && (#[trigger] phases.last().entries@[k]).part == Part::Outcome {
            Seq::<Said>::empty()
        } else {
            seq![("phase.missing_outcome"@, identity + "#"@ + decimal(phases.last().number as int), "migrated legacy Phase has no Outcome"@)]
        }
    }
}

fn has_outcome(phase: &Phase) -> (r: bool)
    ensures
        r == exists|k: int| 0 <= k < phase.entries@.len() && (#[trigger] phase.entries@[k]).part == Part::Outcome,
{
    let mut k: usize = 0;
    while k < phase.entries.len()
        invariant
            k <= phase.entries@.len(),
            forall|j: int| 0 <= j < k ==> (#[trigger] phase.entries@[j]).part != Part::Outcome,
        decreases phase.entries@.len() - k,
    {
        if phase.entries[k].part == Part::Outcome {
            return true;
        }
        k = k + 1;
    }
    false
}

/// Observes each Phase of a Task that has no Outcome.
pub fn missing_outcomes(identity: &str, phases: &[Phase], report: &mut Agreement)
    ensures
        final(report).target == old(report).target,
        final(report).revision == old(report).revision,
        final(report).faults == old(report).faults,
        said(final(report).observations@) == said(old(report).observations@) + outcome_said(identity@, phases@),
{
    let ghost o0 = said(report.observations@);
    let mut i: usize = 0;
    proof {
        assert(phases@.take(0) =~= Seq::<Phase>::empty());
        assert(o0 + Seq::<Said>::empty() =~= o0);
    }
    while i < phases.len()
        invariant
            i <= phases@.len(),
            report.target == old(report).target,
            report.revision == old(report).revision,
            report.faults == old(report).faults,
            o0 == said(old(report).observations@),
            said(report.observations@) == o0 + outcome_said(identity@, phases@.take(i as int)),
        decreases phases@.len() - i,
    {
        proof {
            let t = phases@.take(i + 1);
            assert(t.drop_last() =~= phases@.take(i as int));
            assert(t.last() == phases@[i as int]);
        }
        let ghost prior = outcome_said(identity@, phases@.take(i as int));
        if !has_outcome(&phases[i]) {
            let a = join(identity, "#");
            let subject = join(a.as_str(), render_i64(phases[i].number).as_str());
            report.observe("phase.missing_outcome", subject, String::from_str("migrated legacy Phase has no Outcome"));
            proof {
                let x = ("phase.missing_outcome"@, identity@ + "#"@ + decimal(phases@[i as int].number as int), "migrated legacy Phase has no Outcome"@);
                assert(o0 + prior + seq![x] =~= (o0 + prior).push(x));
            }
        } else {
            proof {
                assert(o0 + prior + Seq::<Said>::empty() =~= o0 + prior);
            }
        }
        i = i + 1;
    }
    proof {
        assert(phases@.take(phases@.len() as int) =~= phases@);
    }
}

/// Finding order: by code, then subject, then message.
pub open spec fn said_less(a: Said, b: Said) -> bool {
    ||| lex_less(a.0, b.0)
    ||| (a.0 == b.0 && lex_less(a.1, b.1))
    ||| (a.0 == b.0 && a.1 == b.1 && lex_less(a.2, b.2))
}

/// Inserts `x` after every finding that does not come after it.
pub open spec fn slot(s: Seq<Finding>, x: Finding) -> Seq<Finding>
    decreases s.len(),
{
    if s.len() == 0 {
        seq![x]
    } else if said_less(says(x), says(s[0])) {
        seq![x] + s
    } else {
        seq![s[0]] + slot(s.drop_first(), x)
    }
}

/// The findings in order, equal ones keeping their order, as a stable sort
/// by (code, subject, message) leaves them.
pub open spec fn sorted_findings(s: Seq<Finding>) -> Seq<Finding>
    decreases s.len(),
{
    if s.len() == 0 {
        Seq::empty()
    } else {
        slot(sorted_findings(s.drop_last()), s.last())
    }
}

proof fn lemma_slot(s: Seq<Finding>, x: Finding, p: int)
    requires
        0 <= p <= s.len(),
        forall|j: int| 0 <= j < p ==> !said_less(says(x), says(#[trigger] s[j])),
        p == s.len() || said_less(says(x), says(s[p])),
    ensures
        slot(s, x) == s.insert(p, x),
    decreases p,
{
    if p == 0 {
        if s.len() == 0 {
            assert(s.insert(0, x) =~= seq![x]);
        } else {
            assert(s.insert(0, x) =~= seq![x] + s);
        }
    } else {
        assert(!said_less(says(x), says(s[0])));
        lemma_slot(s.drop_first(), x, p - 1);
        assert(s.insert(p, x) =~= seq![s[0]] + s.drop_first().insert(p - 1, x));
    }
}

/// The key a finding sorts by.
pub fn order(finding: &Finding) -> (r: (String, String, String))
    ensures
        r.0 == finding.code,
        r.1 == finding.subject,
        r.2 == finding.message,
{
    (finding.code.clone(), finding.subject.clone(), finding.message.clone())
}

fn earlier(a: &Finding, b: &Finding) -> (r: bool)
    ensures
        r == said_less(says(*a), says(*b)),
{
    if less(a.code.as_str(), b.code.as_str()) {
        return true;
    }
    if !same(a.code.as_str(), b.code.as_str()) {
        return false;
    }
    if less(a.subject.as_str(), b.subject.as_str()) {
        return true;
    }
    if !same(a.subject.as_str(), b.subject.as_str()) {
        return false;
    }
    less(a.message.as_str(), b.message.as_str())
}

/// Sorts findings by (code, subject, message), keeping the order of equal
/// ones.
pub fn sort_findings(v: Vec<Finding>) -> (r: Vec<Finding>)
    ensures
        r@ == sorted_findings(v@),
{
    let mut out: Vec<Finding> = Vec::new();
    let mut i: usize = 0;
    proof {
        assert(v@.take(0) =~= Seq::<Finding>::empty());
    }
    while i < v.len()
        invariant
            i <= v@.len(),
            out@ == sorted_findings(v@.take(i as int)),
        decreases v@.len() - i,
    {
        let x = Finding { code: v[i].code.clone(), subject: v[i].subject.clone(), message: v[i].message.clone() };
        let mut p: usize = 0;
        while p < out.len() && !earlier(&x, &out[p])
            invariant
                p <= out@.len(),
                forall|j: int| 0 <= j < p ==> !said_less(says(x), says(#[trigger] out@[j])),
            decreases out@.len() - p,
        {
            p = p + 1;
        }
        proof {
            lemma_slot(out@, x, p as int);
            let t = v@.take(i + 1);
            assert(t.drop_last() =~= v@.take(i as int));
            assert(t.last() == v@[i as int]);
        }
        out.insert(p, x);
        i = i + 1;
    }
    proof {
        assert(v@.take(v@.len() as int) =~= v@);
    }
    out
}

/// An empty report on a target at a graph revision.
pub fn report(target: String, revision: i64) -> (r: Agreement)
    ensures
        r.target == target,
        r.revision == revision,
        r.faults@.len() == 0,
        r.observations@.len() == 0,
{
    Agreement { target, revision, faults: Vec::new(), observations: Vec::new() }
}

/// Puts a report's faults and observations in order.
pub fn settle_report(report: Agreement) -> (r: Agreement)
    ensures
        r.target == report.target,
        r.revision == report.revision,
        r.faults@ == sorted_findings(report.faults@),
        r.observations@ == sorted_findings(report.observations@),
{
    let Agreement { target, revision, faults, observations } = report;
    Agreement { target, revision, faults: sort_findings(faults), observations: sort_findings(observations) }
}

} // verus!
