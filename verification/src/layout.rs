//! How the estate lays out what it reads: the graph with its Tasks in
//! identity order and its edges in endpoint order, the closure of a Task as
//! Tasks, the Domains by name, and the Tasks a listing shows.
use crate::graph::place;
use crate::state::{Edge, Graph, Life, Node};
use crate::world::{Realm, World, arrange, lex_less, less, order_nodes};
use vstd::prelude::*;

verus! {

/// An active Task.
pub open spec fn live() -> spec_fn(Node) -> bool {
    |n: Node| n.life == Life::Active
}

/// A Task of the given key among the nodes.
pub open spec fn keyed(nodes: Seq<Node>, key: i64) -> bool {
    exists|i: int| 0 <= i < nodes.len() && (#[trigger] nodes[i]).key == key
}

/// An edge whose two endpoints are among the nodes.
pub open spec fn joins(nodes: Seq<Node>) -> spec_fn(Edge) -> bool {
    |e: Edge| keyed(nodes, e.source) && keyed(nodes, e.target)
}

/// Edge order: by the place of the source among the nodes, then of the
/// target, then by key.
pub open spec fn edge_less(nodes: Seq<Node>, a: Edge, b: Edge) -> bool {
    ||| place(nodes, a.source) < place(nodes, b.source)
    ||| (place(nodes, a.source) == place(nodes, b.source) && place(nodes, a.target) < place(nodes, b.target))
    ||| (place(nodes, a.source) == place(nodes, b.source) && place(nodes, a.target) == place(nodes, b.target) && a.key < b.key)
}

/// Inserts `x` after every edge that does not come after it.
pub open spec fn slot(nodes: Seq<Node>, s: Seq<Edge>, x: Edge) -> Seq<Edge>
    decreases s.len(),
{
    if s.len() == 0 {
        seq![x]
    } else if edge_less(nodes, x, s[0]) {
        seq![x] + s
    } else {
        seq![s[0]] + slot(nodes, s.drop_first(), x)
    }
}

/// The edges in endpoint order, equal ones keeping their order.
pub open spec fn by_endpoints(nodes: Seq<Node>, s: Seq<Edge>) -> Seq<Edge>
    decreases s.len(),
{
    if s.len() == 0 {
        Seq::empty()
    } else {
        slot(nodes, by_endpoints(nodes, s.drop_last()), s.last())
    }
}

proof fn lemma_slot(nodes: Seq<Node>, s: Seq<Edge>, x: Edge, p: int)
    requires
        0 <= p <= s.len(),
        forall|j: int| 0 <= j < p ==> !edge_less(nodes, x, #[trigger] s[j]),
        p == s.len() || edge_less(nodes, x, s[p]),
    ensures
        slot(nodes, s, x) == s.insert(p, x),
    decreases p,
{
    if p == 0 {
        if s.len() == 0 {
            assert(s.insert(0, x) =~= seq![x]);
        } else {
            assert(s.insert(0, x) =~= seq![x] + s);
        }
    } else {
        lemma_slot(nodes, s.drop_first(), x, p - 1);
        assert(s.insert(p, x) =~= seq![s[0]] + s.drop_first().insert(p - 1, x));
    }
}

fn position(g: &Graph, key: i64) -> (r: usize)
    ensures
        r == place(g.nodes@, key),
{
    match g.rank(key) {
        Some(i) => i,
        None => g.nodes.len(),
    }
}

fn earlier(g: &Graph, a: &Edge, b: &Edge) -> (r: bool)
    ensures
        r == edge_less(g.nodes@, *a, *b),
{
    let (sa, sb) = (position(g, a.source), position(g, b.source));
    if sa != sb {
        return sa < sb;
    }
    let (ta, tb) = (position(g, a.target), position(g, b.target));
    if ta != tb {
        return ta < tb;
    }
    a.key < b.key
}

fn keep_nodes(nodes: &Vec<Node>) -> (r: Vec<Node>)
    ensures
        r@ == nodes@.filter(live()),
{
    let ghost hit = live();
    let mut out: Vec<Node> = Vec::new();
    let mut i: usize = 0;
    while i < nodes.len()
        invariant
            i <= nodes@.len(),
            hit == live(),
            out@ == nodes@.take(i as int).filter(hit),
        decreases nodes@.len() - i,
    {
        proof {
            assert(nodes@.take(i + 1) =~= nodes@.take(i as int).push(nodes@[i as int]));
            nodes@.take(i as int).lemma_filter_push(nodes@[i as int], hit);
        }
        if nodes[i].life == Life::Active {
            out.push(nodes[i].duplicate());
        }
        i = i + 1;
    }
    proof {
        assert(nodes@.take(nodes@.len() as int) =~= nodes@);
    }
    out
}

fn has_key(nodes: &Vec<Node>, key: i64) -> (r: bool)
    ensures
        r == keyed(nodes@, key),
{
    let mut i: usize = 0;
    while i < nodes.len()
        invariant
            i <= nodes@.len(),
            forall|j: int| 0 <= j < i ==> (#[trigger] nodes@[j]).key != key,
        decreases nodes@.len() - i,
    {
        if nodes[i].key == key {
            return true;
        }
        i = i + 1;
    }
    false
}

fn keep_edges(edges: &Vec<Edge>, nodes: &Vec<Node>) -> (r: Vec<Edge>)
    ensures
        r@ == edges@.filter(joins(nodes@)),
{
    let ghost hit = joins(nodes@);
    let mut out: Vec<Edge> = Vec::new();
    let mut i: usize = 0;
    while i < edges.len()
        invariant
            i <= edges@.len(),
            hit == joins(nodes@),
            out@ == edges@.take(i as int).filter(hit),
        decreases edges@.len() - i,
    {
        proof {
            assert(edges@.take(i + 1) =~= edges@.take(i as int).push(edges@[i as int]));
            edges@.take(i as int).lemma_filter_push(edges@[i as int], hit);
        }
        if has_key(nodes, edges[i].source) && has_key(nodes, edges[i].target) {
            out.push(edges[i].duplicate());
        }
        i = i + 1;
    }
    proof {
        assert(edges@.take(edges@.len() as int) =~= edges@);
    }
    out
}

/// The graph the estate shows: its Tasks (only the active ones unless
/// `retired`) in identity order, and its edges (only those between shown
/// Tasks unless `retired`) ordered by the places of their source and target
/// among the shown Tasks, then by key.
pub fn assemble(revision: i64, nodes: Vec<Node>, edges: Vec<Edge>, retired: bool) -> (r: Graph)
    ensures
        r.revision == revision,
        retired ==> r.nodes@ == arrange(nodes@),
        !retired ==> r.nodes@ == arrange(nodes@.filter(live())),
        retired ==> r.edges@ == by_endpoints(r.nodes@, edges@),
        !retired ==> r.edges@ == by_endpoints(r.nodes@, edges@.filter(joins(nodes@.filter(live())))),
{
    let (kept, links) = if retired {
        (nodes, edges)
    } else {
        let kept = keep_nodes(&nodes);
        let links = keep_edges(&edges, &kept);
        (kept, links)
    };
    let shown = order_nodes(kept);
    let g = Graph { revision, nodes: shown, edges: Vec::new() };
    let mut out: Vec<Edge> = Vec::new();
    let mut i: usize = 0;
    proof {
        assert(links@.take(0) =~= Seq::<Edge>::empty());
    }
    while i < links.len()
        invariant
            i <= links@.len(),
            out@ == by_endpoints(g.nodes@, links@.take(i as int)),
        decreases links@.len() - i,
    {
        let x = links[i].duplicate();
        let mut p: usize = 0;
        while p < out.len() && !earlier(&g, &x, &out[p])
            invariant
                p <= out@.len(),
                forall|j: int| 0 <= j < p ==> !edge_less(g.nodes@, x, #[trigger] out@[j]),
            decreases out@.len() - p,
        {
            p = p + 1;
        }
        proof {
            lemma_slot(g.nodes@, out@, x, p as int);
            let t = links@.take(i + 1);
            assert(t.drop_last() =~= links@.take(i as int));
            assert(t.last() == links@[i as int]);
        }
        out.insert(p, x);
        i = i + 1;
    }
    proof {
        assert(links@.take(links@.len() as int) =~= links@);
    }
    Graph { revision, nodes: g.nodes, edges: out }
}

/// The first Task of the given key, if any.
pub open spec fn found(nodes: Seq<Node>, key: i64) -> Option<Node> {
    let hits = nodes.filter(crate::brief::key_hit(key));
    if hits.len() == 0 {
        None
    } else {
        Some(hits[0])
    }
}

/// The Tasks the keys name, in key order, skipping keys that name none.
pub open spec fn named_by(nodes: Seq<Node>, keys: Seq<i64>) -> Seq<Node>
    decreases keys.len(),
{
    if keys.len() == 0 {
        Seq::empty()
    } else {
        named_by(nodes, keys.drop_last()) + match found(nodes, keys.last()) {
            Some(n) => seq![n],
            None => Seq::<Node>::empty(),
        }
    }
}

/// The Tasks that a Task's materialized closure names, in identity order.
pub fn reach_nodes(world: &World, targets: &[i64]) -> (r: Vec<Node>)
    ensures
        r@ == arrange(named_by(world.nodes@, targets@)),
{
    let mut out: Vec<Node> = Vec::new();
    let mut i: usize = 0;
    proof {
        assert(targets@.take(0) =~= Seq::<i64>::empty());
    }
    while i < targets.len()
        invariant
            i <= targets@.len(),
            out@ == named_by(world.nodes@, targets@.take(i as int)),
        decreases targets@.len() - i,
    {
        proof {
            let t = targets@.take(i + 1);
            assert(t.drop_last() =~= targets@.take(i as int));
            assert(t.last() == targets@[i as int]);
        }
        let ghost prior = out@;
        match crate::agreement::first_node(&world.nodes, targets[i]) {
            Some(j) => {
                out.push(world.nodes[j].duplicate());
                proof {
                    assert(out@ =~= prior + seq![world.nodes@[j as int]]);
                }
            },
            None => {
                proof {
                    assert(out@ =~= prior + Seq::<Node>::empty());
                }
            },
        }
        i = i + 1;
    }
    proof {
        assert(targets@.take(targets@.len() as int) =~= targets@);
    }
    order_nodes(out)
}

/// The Tasks a listing shows: all of them with `retired`, else the active
/// ones, in the world's order.
pub fn listed(world: &World, retired: bool) -> (r: Vec<Node>)
    ensures
        retired ==> r@ == world.nodes@,
        !retired ==> r@ == world.nodes@.filter(live()),
{
    if retired {
        let mut out: Vec<Node> = Vec::new();
        let mut i: usize = 0;
        while i < world.nodes.len()
            invariant
                i <= world.nodes@.len(),
                out@ == world.nodes@.take(i as int),
            decreases world.nodes@.len() - i,
        {
            out.push(world.nodes[i].duplicate());
            proof {
                assert(world.nodes@.take(i + 1) =~= world.nodes@.take(i as int).push(world.nodes@[i as int]));
            }
            i = i + 1;
        }
        proof {
            assert(world.nodes@.take(world.nodes@.len() as int) =~= world.nodes@);
        }
        out
    } else {
        keep_nodes(&world.nodes)
    }
}

/// Domain order: by name, then key.
pub open spec fn realm_less(a: Realm, b: Realm) -> bool {
    lex_less(a.name@, b.name@) || (a.name@ == b.name@ && a.key < b.key)
}

pub open spec fn realm_slot(s: Seq<Realm>, x: Realm) -> Seq<Realm>
    decreases s.len(),
{
    if s.len() == 0 {
        seq![x]
    } else if realm_less(x, s[0]) {
        seq![x] + s
    } else {
        seq![s[0]] + realm_slot(s.drop_first(), x)
    }
}

/// The Domains by name, then key.
pub open spec fn by_name(s: Seq<Realm>) -> Seq<Realm>
    decreases s.len(),
{
    if s.len() == 0 {
        Seq::empty()
    } else {
        realm_slot(by_name(s.drop_last()), s.last())
    }
}

proof fn lemma_realm_slot(s: Seq<Realm>, x: Realm, p: int)
    requires
        0 <= p <= s.len(),
        forall|j: int| 0 <= j < p ==> !realm_less(x, #[trigger] s[j]),
        p == s.len() || realm_less(x, s[p]),
    ensures
        realm_slot(s, x) == s.insert(p, x),
    decreases p,
{
    if p == 0 {
        if s.len() == 0 {
            assert(s.insert(0, x) =~= seq![x]);
        } else {
            assert(s.insert(0, x) =~= seq![x] + s);
        }
    } else {
        lemma_realm_slot(s.drop_first(), x, p - 1);
        assert(s.insert(p, x) =~= seq![s[0]] + s.drop_first().insert(p - 1, x));
    }
}

/// The estate's Domains, by name and then key.
pub fn realms(world: &World) -> (r: Vec<Realm>)
    ensures
        r@ == by_name(world.domains@),
{
    let v = &world.domains;
    let mut out: Vec<Realm> = Vec::new();
    let mut i: usize = 0;
    proof {
        assert(v@.take(0) =~= Seq::<Realm>::empty());
    }
    while i < v.len()
        invariant
            i <= v@.len(),
            v@ == world.domains@,
            out@ == by_name(v@.take(i as int)),
        decreases v@.len() - i,
    {
        let x = v[i].duplicate();
        let mut p: usize = 0;
        while p < out.len() && !(less(x.name.as_str(), out[p].name.as_str()) || (crate::text::same(x.name.as_str(), out[p].name.as_str()) && x.key < out[p].key))
            invariant
                p <= out@.len(),
                forall|j: int| 0 <= j < p ==> !realm_less(x, #[trigger] out@[j]),
            decreases out@.len() - p,
        {
            p = p + 1;
        }
        proof {
            lemma_realm_slot(out@, x, p as int);
            let t = v@.take(i + 1);
            assert(t.drop_last() =~= v@.take(i as int));
            assert(t.last() == v@[i as int]);
        }
        out.insert(p, x);
        i = i + 1;
    }
    proof {
        assert(v@.take(v@.len() as int) =~= v@);
    }
    out
}

/// Edge order by plain keys: source, target, then key.
pub open spec fn key_less(a: Edge, b: Edge) -> bool {
    a.source < b.source || (a.source == b.source && (a.target < b.target || (a.target == b.target && a.key < b.key)))
}

pub open spec fn key_slot(s: Seq<Edge>, x: Edge) -> Seq<Edge>
    decreases s.len(),
{
    if s.len() == 0 {
        seq![x]
    } else if key_less(x, s[0]) {
        seq![x] + s
    } else {
        seq![s[0]] + key_slot(s.drop_first(), x)
    }
}

/// The edges by (source, target, key).
pub open spec fn by_keys(s: Seq<Edge>) -> Seq<Edge>
    decreases s.len(),
{
    if s.len() == 0 {
        Seq::empty()
    } else {
        key_slot(by_keys(s.drop_last()), s.last())
    }
}

proof fn lemma_key_slot(s: Seq<Edge>, x: Edge, p: int)
    requires
        0 <= p <= s.len(),
        forall|j: int| 0 <= j < p ==> !key_less(x, #[trigger] s[j]),
        p == s.len() || key_less(x, s[p]),
    ensures
        key_slot(s, x) == s.insert(p, x),
    decreases p,
{
    if p == 0 {
        if s.len() == 0 {
            assert(s.insert(0, x) =~= seq![x]);
        } else {
            assert(s.insert(0, x) =~= seq![x] + s);
        }
    } else {
        lemma_key_slot(s.drop_first(), x, p - 1);
        assert(s.insert(p, x) =~= seq![s[0]] + s.drop_first().insert(p - 1, x));
    }
}

/// The live dependencies as the estate lists them: by source, target and
/// key.
pub fn order_edges(edges: &[Edge]) -> (r: Vec<Edge>)
    ensures
        r@ == by_keys(edges@),
{
    let mut out: Vec<Edge> = Vec::new();
    let mut i: usize = 0;
    proof {
        assert(edges@.take(0) =~= Seq::<Edge>::empty());
    }
    while i < edges.len()
        invariant
            i <= edges@.len(),
            out@ == by_keys(edges@.take(i as int)),
        decreases edges@.len() - i,
    {
        let x = edges[i].duplicate();
        let mut p: usize = 0;
        while p < out.len() && !(x.source < out[p].source || (x.source == out[p].source && (x.target < out[p].target || (x.target == out[p].target && x.key < out[p].key))))
            invariant
                p <= out@.len(),
                forall|j: int| 0 <= j < p ==> !key_less(x, #[trigger] out@[j]),
            decreases out@.len() - p,
        {
            p = p + 1;
        }
        proof {
            lemma_key_slot(out@, x, p as int);
            let t = edges@.take(i + 1);
            assert(t.drop_last() =~= edges@.take(i as int));
            assert(t.last() == edges@[i as int]);
        }
        out.insert(p, x);
        i = i + 1;
    }
    proof {
        assert(edges@.take(edges@.len() as int) =~= edges@);
    }
    out
}

} // verus!
