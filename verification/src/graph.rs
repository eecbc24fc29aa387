//! Queries over the direct dependency graph: adjacency, degree,
//! depth-bounded neighborhoods and closures, shortest and simple paths,
//! strongly connected components and the cycles inside them.
//!
//! A node's order is its place in `nodes` (its first occurrence); keys that
//! name no node come after every node, in ascending key order.
use crate::error::Error;
use crate::keys::{ascend, ascending, member};
use crate::text::{decimal, join, render_usize};
use crate::state::{Degree, Edge, Flow, Graph, Node, Weight};
use std::collections::BTreeMap;
use vstd::prelude::*;

verus! {

/// The first index of `key` in `nodes`, or `nodes.len()` when absent.
pub open spec fn place(nodes: Seq<Node>, key: i64) -> int
    decreases nodes.len(),
{
    if nodes.len() == 0 {
        0
    } else if nodes[0].key == key {
        0
    } else {
        1 + place(nodes.drop_first(), key)
    }
}

/// Whether the edge counts at `minimum`.
pub open spec fn admits(edge: Edge, minimum: Weight) -> bool {
    edge.weight.level() >= minimum.level()
}

/// Edge `edge` leads from `x` to `y` under `flow` at `minimum`.
pub open spec fn carries(edge: Edge, x: i64, y: i64, flow: Flow, minimum: Weight) -> bool {
    &&& admits(edge, minimum)
    &&& {
        ||| (flow != Flow::In && edge.source == x && edge.target == y)
        ||| (flow != Flow::Out && edge.target == x && edge.source == y)
    }
}

/// `y` may be entered: no fence, or a key the fence admits.
pub open spec fn permits(fenced: bool, allowed: Seq<i64>, y: i64) -> bool {
    !fenced || allowed.contains(y)
}

/// The number of edges of `edges` that `keep` selects.
pub open spec fn tally(edges: Seq<Edge>, keep: spec_fn(Edge) -> bool) -> nat
    decreases edges.len(),
{
    if edges.len() == 0 {
        0
    } else {
        tally(edges.drop_last(), keep) + if keep(edges.last()) {
            1nat
        } else {
            0nat
        }
    }
}

/// Edges that leave `node` at `minimum`.
pub open spec fn leaving(node: i64, minimum: Weight) -> spec_fn(Edge) -> bool {
    |e: Edge| e.source == node && admits(e, minimum)
}

/// Edges that enter `node` at `minimum`.
pub open spec fn entering(node: i64, minimum: Weight) -> spec_fn(Edge) -> bool {
    |e: Edge| e.target == node && admits(e, minimum)
}

proof fn lemma_place(nodes: Seq<Node>, key: i64, i: int)
    requires
        0 <= i <= nodes.len(),
        forall|j: int| 0 <= j < i ==> nodes[j].key != key,
        i == nodes.len() || nodes[i].key == key,
    ensures
        place(nodes, key) == i,
    decreases i,
{
    if i > 0 {
        lemma_place(nodes.drop_first(), key, i - 1);
    }
}

proof fn lemma_place_bound(nodes: Seq<Node>, key: i64)
    ensures
        0 <= place(nodes, key) <= nodes.len(),
        place(nodes, key) < nodes.len() ==> nodes[place(nodes, key)].key == key,
        forall|j: int| 0 <= j < place(nodes, key) ==> nodes[j].key != key,
    decreases nodes.len(),
{
    if nodes.len() > 0 && nodes[0].key != key {
        lemma_place_bound(nodes.drop_first(), key);
        assert forall|j: int| 0 <= j < place(nodes, key) implies nodes[j].key != key by {
            if j > 0 {
                assert(nodes[j] == nodes.drop_first()[j - 1]);
            }
        }
        if place(nodes, key) < nodes.len() {
            assert(nodes[place(nodes, key)] == nodes.drop_first()[place(nodes, key) - 1]);
        }
    }
}

/// Keys with the same place are one node.
proof fn lemma_place_unique(nodes: Seq<Node>, a: i64, b: i64)
    requires
        place(nodes, a) == place(nodes, b),
        place(nodes, a) < nodes.len(),
    ensures
        a == b,
{
    lemma_place_bound(nodes, a);
    lemma_place_bound(nodes, b);
}

proof fn lemma_tally_push(edges: Seq<Edge>, keep: spec_fn(Edge) -> bool, e: Edge)
    ensures
        tally(edges.push(e), keep) == tally(edges, keep) + if keep(e) {
            1nat
        } else {
            0nat
        },
{
    assert(edges.push(e).drop_last() =~= edges);
}

proof fn lemma_tally_bound(edges: Seq<Edge>, keep: spec_fn(Edge) -> bool)
    ensures
        tally(edges, keep) <= edges.len(),
    decreases edges.len(),
{
    if edges.len() > 0 {
        lemma_tally_bound(edges.drop_last(), keep);
    }
}

/// `q` begins with `prefix`.
pub open spec fn extends(q: Seq<i64>, prefix: Seq<i64>) -> bool {
    q.len() >= prefix.len() && q.take(prefix.len() as int) == prefix
}

/// `q` goes on past `prefix` to one of the first `j` successors.
pub open spec fn branch(q: Seq<i64>, prefix: Seq<i64>, next: Seq<i64>, j: int) -> bool {
    q.len() > prefix.len() && exists|u: int| 0 <= u < j && next[u] == #[trigger] q[prefix.len() as int]
}

proof fn lemma_push_contains(s: Seq<Seq<i64>>, x: Seq<i64>, q: Seq<i64>)
    ensures
        s.push(x).contains(q) == (s.contains(q) || q == x),
{
    if s.push(x).contains(q) {
        let w = choose|w: int| 0 <= w < s.push(x).len() && s.push(x)[w] == q;
        if w < s.len() {
            assert(s[w] == q);
        }
    }
    if s.contains(q) {
        let w = choose|w: int| 0 <= w < s.len() && s[w] == q;
        assert(s.push(x)[w] == q);
    }
    if q == x {
        assert(s.push(x)[s.len() as int] == x);
    }
}

proof fn lemma_extends_push(q: Seq<i64>, base: Seq<i64>, n: i64)
    ensures
        extends(q, base.push(n)) == (extends(q, base) && q.len() > base.len() && q[base.len() as int] == n),
{
    let ext = base.push(n);
    if extends(q, ext) {
        assert(q.take(base.len() as int) =~= base) by {
            assert forall|i: int| 0 <= i < base.len() implies q.take(base.len() as int)[i] == base[i] by {
                assert(q.take(ext.len() as int)[i] == ext[i]);
            }
        }
        assert(q.take(ext.len() as int)[base.len() as int] == n);
    }
    if extends(q, base) && q.len() > base.len() && q[base.len() as int] == n {
        assert(q.take(ext.len() as int) =~= ext) by {
            assert forall|i: int| 0 <= i < ext.len() implies q.take(ext.len() as int)[i] == ext[i] by {
                if i < base.len() {
                    assert(q.take(base.len() as int)[i] == base[i]);
                }
            }
        }
    }
}

proof fn lemma_branch_step(q: Seq<i64>, base: Seq<i64>, next: Seq<i64>, j: int)
    requires
        0 <= j < next.len(),
    ensures
        branch(q, base, next, j + 1) == (branch(q, base, next, j) || (q.len() > base.len() && q[base.len() as int] == next[j])),
{
    if branch(q, base, next, j + 1) {
        let u = choose|u: int| 0 <= u < j + 1 && next[u] == #[trigger] q[base.len() as int];
        if u < j {
            assert(branch(q, base, next, j));
        }
    }
    if branch(q, base, next, j) {
        let u = choose|u: int| 0 <= u < j && next[u] == #[trigger] q[base.len() as int];
        assert(0 <= u < j + 1);
    }
}

impl Graph {
    /// The order of `key`: its node's place, or past every node.
    pub open spec fn order(&self, key: i64) -> int {
        place(self.nodes@, key)
    }

    /// `a` comes strictly before `b`.
    pub open spec fn before(&self, a: i64, b: i64) -> bool {
        ||| self.order(a) < self.order(b)
        ||| (self.order(a) == self.order(b) && a < b)
    }

    /// Strictly increasing in graph order.
    pub open spec fn arranged(&self, s: Seq<i64>) -> bool {
        forall|i: int, j: int| 0 <= i < j < s.len() ==> self.before(s[i], s[j])
    }

    /// One step from `x` to `y` under `flow` at `minimum`.
    pub open spec fn hop(&self, x: i64, y: i64, flow: Flow, minimum: Weight) -> bool {
        exists|i: int| 0 <= i < self.edges@.len() && carries(#[trigger] self.edges@[i], x, y, flow, minimum)
    }

    /// A key that names a node.
    pub open spec fn holds(&self, key: i64) -> bool {
        exists|i: int| 0 <= i < self.nodes@.len() && #[trigger] self.nodes@[i].key == key
    }

    proof fn lemma_before_total(&self, a: i64, b: i64)
        ensures
            a != b ==> (self.before(a, b) || self.before(b, a)),
            !(self.before(a, b) && self.before(b, a)),
            !self.before(a, a),
    {
        if a != b && self.order(a) == self.order(b) && self.order(a) < self.nodes@.len() {
            lemma_place_unique(self.nodes@, a, b);
        }
    }

    /// The place of `key` among the nodes, if it names one.
    pub(crate) fn rank(&self, key: i64) -> (r: Option<usize>)
        ensures
            match r {
                Some(i) => i == self.order(key) && i < self.nodes@.len(),
                None => self.order(key) == self.nodes@.len(),
            },
    {
        let mut i: usize = 0;
        while i < self.nodes.len()
            invariant
                i <= self.nodes@.len(),
                forall|j: int| 0 <= j < i ==> self.nodes@[j].key != key,
            decreases self.nodes@.len() - i,
        {
            if self.nodes[i].key == key {
                proof {
                    lemma_place(self.nodes@, key, i as int);
                }
                return Some(i);
            }
            i = i + 1;
        }
        proof {
            lemma_place(self.nodes@, key, i as int);
        }
        None
    }

    /// Whether `a` comes before `b`.
    fn precedes(&self, a: i64, b: i64) -> (r: bool)
        ensures
            r == self.before(a, b),
    {
        let ra = self.rank(a);
        let rb = self.rank(b);
        match (ra, rb) {
            (Some(x), Some(y)) => x < y || (x == y && a < b),
            (Some(_), None) => true,
            (None, Some(_)) => false,
            (None, None) => a < b,
        }
    }

    /// Distinct keys in graph order.
    fn sorted(&self, keys: Vec<i64>) -> (r: Vec<i64>)
        requires
            keys@.no_duplicates(),
        ensures
            self.arranged(r@),
            r@.to_set() == keys@.to_set(),
            r@.len() == keys@.len(),
            r@.no_duplicates(),
    {
        let mut out: Vec<i64> = Vec::new();
        let mut i: usize = 0;
        while i < keys.len()
            invariant
                i <= keys@.len(),
                keys@.no_duplicates(),
                self.arranged(out@),
                out@.len() == i,
                forall|x: i64| out@.contains(x) <==> keys@.take(i as int).contains(x),
            decreases keys@.len() - i,
        {
            let k = keys[i];
            let mut j: usize = 0;
            while j < out.len() && self.precedes(out[j], k)
                invariant
                    j <= out@.len(),
                    forall|t: int| 0 <= t < j ==> self.before(out@[t], k),
                decreases out@.len() - j,
            {
                j = j + 1;
            }
            proof {
                assert(!keys@.take(i as int).contains(k)) by {
                    if keys@.take(i as int).contains(k) {
                        let t = choose|t: int| 0 <= t < i && keys@.take(i as int)[t] == k;
                        assert(keys@[t] == keys@[i as int]);
                    }
                }
                assert forall|t: int| j <= t < out@.len() implies self.before(k, out@[t]) by {
                    self.lemma_before_total(k, out@[t]);
                    self.lemma_before_total(k, out@[j as int]);
                    self.lemma_before_total(out@[j as int], out@[t]);
                    assert(out@.contains(out@[t]));
                    if t > j {
                        assert(self.before(out@[j as int], out@[t]));
                    }
                }
            }
            let ghost before = out@;
            out.insert(j, k);
            proof {
                assert(keys@.take(i + 1) =~= keys@.take(i as int).push(k));
                assert forall|x: i64| out@.contains(x) <==> keys@.take(i + 1).contains(x) by {
                    if out@.contains(x) {
                        let t = choose|t: int| 0 <= t < out@.len() && out@[t] == x;
                        if t < j {
                            assert(before[t] == x);
                            assert(before.contains(x));
                        } else if t > j {
                            assert(before[t - 1] == x);
                            assert(before.contains(x));
                        }
                    }
                    if keys@.take(i as int).contains(x) {
                        assert(before.contains(x));
                        let t = choose|t: int| 0 <= t < before.len() && before[t] == x;
                        if t < j {
                            assert(out@[t] == x);
                        } else {
                            assert(out@[t + 1] == x);
                        }
                    }
                    if x == k {
                        assert(out@[j as int] == k);
                        assert(keys@.take(i + 1)[i as int] == k);
                    }
                    if keys@.take(i + 1).contains(x) {
                        let t = choose|t: int| 0 <= t < i + 1 && #[trigger] keys@.take(i + 1)[t] == x;
                        if t < i {
                            assert(keys@.take(i as int)[t] == x);
                            assert(keys@.take(i as int).contains(x));
                        }
                    }
                    if keys@.take(i as int).contains(x) {
                        let t = choose|t: int| 0 <= t < i && keys@.take(i as int)[t] == x;
                        assert(keys@.take(i + 1)[t] == x);
                    }
                }
                assert forall|a: int, b: int| 0 <= a < b < out@.len() implies self.before(out@[a], out@[b]) by {
                    if b < j {
                        assert(out@[a] == before[a] && out@[b] == before[b]);
                    } else if a > j {
                        assert(out@[a] == before[a - 1] && out@[b] == before[b - 1]);
                    } else if a == j {
                        assert(out@[b] == before[b - 1]);
                    } else if b == j {
                        assert(out@[a] == before[a]);
                    } else {
                        assert(out@[a] == before[a] && out@[b] == before[b - 1]);
                        self.lemma_before_total(out@[a], k);
                        self.lemma_before_total(k, out@[b]);
                    }
                }
            }
            i = i + 1;
        }
        proof {
            assert(keys@.take(keys@.len() as int) =~= keys@);
            assert(out@.no_duplicates()) by {
                assert forall|a: int, b: int| 0 <= a < out@.len() && 0 <= b < out@.len() && a != b implies out@[a] != out@[b] by {
                    if a < b {
                        self.lemma_before_total(out@[a], out@[b]);
                    } else {
                        self.lemma_before_total(out@[b], out@[a]);
                    }
                }
            }
            assert(out@.to_set() =~= keys@.to_set());
        }
        out
    }

    /// The number of edges leaving and entering `node` at `minimum`.
    pub fn degree(&self, node: i64, minimum: Weight) -> (r: Degree)
        ensures
            r.out == tally(self.edges@, leaving(node, minimum)),
            r.inbound == tally(self.edges@, entering(node, minimum)),
    {
        let mut out: usize = 0;
        let mut inbound: usize = 0;
        let mut i: usize = 0;
        while i < self.edges.len()
            invariant
                i <= self.edges@.len(),
                out == tally(self.edges@.take(i as int), leaving(node, minimum)),
                inbound == tally(self.edges@.take(i as int), entering(node, minimum)),
            decreases self.edges@.len() - i,
        {
            let edge = &self.edges[i];
            proof {
                assert(self.edges@.take(i + 1) =~= self.edges@.take(i as int).push(self.edges@[i as int]));
                lemma_tally_push(self.edges@.take(i as int), leaving(node, minimum), self.edges@[i as int]);
                lemma_tally_push(self.edges@.take(i as int), entering(node, minimum), self.edges@[i as int]);
                lemma_tally_bound(self.edges@.take(i + 1), leaving(node, minimum));
                lemma_tally_bound(self.edges@.take(i + 1), entering(node, minimum));
            }
            let counted = edge.weight.reaches(minimum);
            assert(*edge == self.edges@[i as int]);
            assert(leaving(node, minimum)(self.edges@[i as int]) == (edge.source == node && counted));
            assert(entering(node, minimum)(self.edges@[i as int]) == (edge.target == node && counted));
            if edge.source == node && counted {
                out = out + 1;
            }
            if edge.target == node && counted {
                inbound = inbound + 1;
            }
            i = i + 1;
        }
        proof {
            assert(self.edges@.take(self.edges@.len() as int) =~= self.edges@);
        }
        Degree { out, inbound }
    }

    /// Nondecreasing in node order.
    pub open spec fn graded(&self, s: Seq<i64>) -> bool {
        forall|a: int, b: int| 0 <= a < b < s.len() ==> self.order(s[a]) <= self.order(s[b])
    }

    /// `order(a) <= order(b)`.
    fn no_later(&self, a: i64, b: i64) -> (r: bool)
        ensures
            r == (self.order(a) <= self.order(b)),
    {
        match (self.rank(a), self.rank(b)) {
            (Some(x), Some(y)) => x <= y,
            (Some(_), None) => true,
            (None, Some(_)) => false,
            (None, None) => true,
        }
    }

    /// Adds `y` to a graded list of distinct keys after every key of no
    /// later order.
    fn enlist(&self, out: &mut Vec<i64>, y: i64)
        requires
            old(out)@.no_duplicates(),
            self.graded(old(out)@),
        ensures
            final(out)@.no_duplicates(),
            self.graded(final(out)@),
            final(out)@.contains(y),
            forall|x: i64| #[trigger] old(out)@.contains(x) ==> final(out)@.contains(x),
            forall|x: i64| #[trigger] final(out)@.contains(x) ==> (old(out)@.contains(x) || x == y),
    {
        if member(out, y) {
            return;
        }
        let mut j: usize = 0;
        while j < out.len() && self.no_later(out[j], y)
            invariant
                j <= out@.len(),
                out@ == old(out)@,
                forall|t: int| 0 <= t < j ==> self.order(out@[t]) <= self.order(y),
            decreases out@.len() - j,
        {
            j = j + 1;
        }
        let ghost before = out@;
        out.insert(j, y);
        proof {
            assert forall|a: int, b: int| 0 <= a < b < out@.len() implies self.order(out@[a]) <= self.order(out@[b]) by {
                if b < j {
                    assert(out@[a] == before[a] && out@[b] == before[b]);
                } else if a > j {
                    assert(out@[a] == before[a - 1] && out@[b] == before[b - 1]);
                } else if a == j {
                    assert(out@[b] == before[b - 1]);
                    assert(self.order(before[j as int]) > self.order(y));
                } else {
                    assert(out@[a] == before[a]);
                }
            }
            assert forall|a: int, b: int| 0 <= a < out@.len() && 0 <= b < out@.len() && a != b implies out@[a] != out@[b] by {
                if a != j && b != j {
                    let a2 = if a < j { a } else { a - 1 };
                    let b2 = if b < j { b } else { b - 1 };
                    assert(out@[a] == before[a2] && out@[b] == before[b2]);
                } else if a == j {
                    let b2 = if b < j { b } else { b - 1 };
                    assert(out@[b] == before[b2]);
                } else {
                    let a2 = if a < j { a } else { a - 1 };
                    assert(out@[a] == before[a2]);
                }
            }
            assert forall|x: i64| #[trigger] before.contains(x) implies out@.contains(x) by {
                let t = choose|t: int| 0 <= t < before.len() && before[t] == x;
                if t < j {
                    assert(out@[t] == x);
                } else {
                    assert(out@[t + 1] == x);
                }
            }
            assert forall|x: i64| #[trigger] out@.contains(x) implies (before.contains(x) || x == y) by {
                let t = choose|t: int| 0 <= t < out@.len() && out@[t] == x;
                if t < j {
                    assert(before[t] == x);
                } else if t > j {
                    assert(before[t - 1] == x);
                }
            }
        }
        assert(out@[j as int] == y);
    }

    /// The keys one step from `node` under `flow` at `minimum`, each once,
    /// in node order.
    fn steps(&self, node: i64, flow: Flow, minimum: Weight) -> (r: Vec<i64>)
        ensures
            forall|y: i64| #[trigger] r@.contains(y) <==> self.hop(node, y, flow, minimum),
            r@.no_duplicates(),
            self.graded(r@),
    {
        let mut out: Vec<i64> = Vec::new();
        let mut i: usize = 0;
        while i < self.edges.len()
            invariant
                i <= self.edges@.len(),
                out@.no_duplicates(),
                self.graded(out@),
                forall|y: i64| #[trigger] out@.contains(y) ==> self.hop(node, y, flow, minimum),
                forall|t: int, y: i64| 0 <= t < i && #[trigger] carries(self.edges@[t], node, y, flow, minimum) ==> out@.contains(y),
            decreases self.edges@.len() - i,
        {
            let edge = &self.edges[i];
            assert(*edge == self.edges@[i as int]);
            if edge.weight.reaches(minimum) {
                if flow != Flow::In && edge.source == node {
                    proof {
                        assert(carries(self.edges@[i as int], node, edge.target, flow, minimum));
                    }
                    self.enlist(&mut out, edge.target);
                }
                if flow != Flow::Out && edge.target == node {
                    proof {
                        assert(carries(self.edges@[i as int], node, edge.source, flow, minimum));
                    }
                    self.enlist(&mut out, edge.source);
                }
            }
            i = i + 1;
        }
        out
    }

    /// Whether some edge leads from `x` to `y`, whatever its weight.
    pub open spec fn links(&self, x: i64, y: i64) -> bool {
        exists|i: int| 0 <= i < self.edges@.len() && #[trigger] self.edges@[i].source == x && self.edges@[i].target == y
    }

    /// The targets and the sources of the edges at `key`, each ascending
    /// and free of repeats.
    fn sides(&self, key: i64) -> (r: (Vec<i64>, Vec<i64>))
        ensures
            ascending(r.0@),
            ascending(r.1@),
            forall|y: i64| #[trigger] r.0@.contains(y) <==> self.links(key, y),
            forall|y: i64| #[trigger] r.1@.contains(y) <==> self.links(y, key),
    {
        let mut out: Vec<i64> = Vec::new();
        let mut inbound: Vec<i64> = Vec::new();
        let mut i: usize = 0;
        while i < self.edges.len()
            invariant
                i <= self.edges@.len(),
                ascending(out@),
                ascending(inbound@),
                forall|y: i64| #[trigger] out@.contains(y) ==> self.links(key, y),
                forall|y: i64| #[trigger] inbound@.contains(y) ==> self.links(y, key),
                forall|t: int| 0 <= t < i && #[trigger] self.edges@[t].source == key ==> out@.contains(self.edges@[t].target),
                forall|t: int| 0 <= t < i && #[trigger] self.edges@[t].target == key ==> inbound@.contains(self.edges@[t].source),
            decreases self.edges@.len() - i,
        {
            let edge = &self.edges[i];
            assert(*edge == self.edges@[i as int]);
            if edge.source == key {
                ascend(&mut out, edge.target);
            }
            if edge.target == key {
                ascend(&mut inbound, edge.source);
            }
            i = i + 1;
        }
        (out, inbound)
    }

    /// For each node, the ascending distinct targets of its outgoing edges
    /// and sources of its incoming edges, whatever their weight.
    pub fn adjacency(&self) -> (r: BTreeMap<i64, (Vec<i64>, Vec<i64>)>)
        ensures
            forall|k: i64| #[trigger] r@.contains_key(k) <==> self.holds(k),
            forall|k: i64| #[trigger] r@.contains_key(k) ==> {
                &&& ascending(r@[k].0@)
                &&& ascending(r@[k].1@)
                &&& forall|y: i64| #[trigger] r@[k].0@.contains(y) <==> self.links(k, y)
                &&& forall|y: i64| #[trigger] r@[k].1@.contains(y) <==> self.links(y, k)
            },
    {
        let mut map: BTreeMap<i64, (Vec<i64>, Vec<i64>)> = BTreeMap::new();
        let mut i: usize = 0;
        while i < self.nodes.len()
            invariant
                i <= self.nodes@.len(),
                forall|k: i64| #[trigger] map@.contains_key(k) <==> exists|t: int| 0 <= t < i && #[trigger] self.nodes@[t].key == k,
                forall|k: i64| #[trigger] map@.contains_key(k) ==> {
                    &&& ascending(map@[k].0@)
                    &&& ascending(map@[k].1@)
                    &&& forall|y: i64| #[trigger] map@[k].0@.contains(y) <==> self.links(k, y)
                    &&& forall|y: i64| #[trigger] map@[k].1@.contains(y) <==> self.links(y, k)
                },
            decreases self.nodes@.len() - i,
        {
            let key = self.nodes[i].key;
            let pair = self.sides(key);
            map.insert(key, pair);
            proof {
                assert forall|k: i64| #[trigger] map@.contains_key(k) <==> exists|t: int| 0 <= t < i + 1 && #[trigger] self.nodes@[t].key == k by {
                    if k == key {
                        assert(self.nodes@[i as int].key == k);
                    }
                }
            }
            i = i + 1;
        }
        map
    }

    /// `y` lies at most `depth` steps from `source` under `flow` at `minimum`.
    pub open spec fn within(&self, source: i64, flow: Flow, minimum: Weight, depth: nat, y: i64) -> bool
        decreases depth,
    {
        if depth == 0 {
            y == source
        } else {
            ||| self.within(source, flow, minimum, (depth - 1) as nat, y)
            ||| exists|x: i64| #![trigger self.hop(x, y, flow, minimum)] self.within(source, flow, minimum, (depth - 1) as nat, x) && self.hop(x, y, flow, minimum)
        }
    }

    proof fn lemma_within_grows(&self, source: i64, flow: Flow, minimum: Weight, a: nat, b: nat, y: i64)
        requires
            a <= b,
            self.within(source, flow, minimum, a, y),
        ensures
            self.within(source, flow, minimum, b, y),
        decreases b - a,
    {
        if a < b {
            self.lemma_within_grows(source, flow, minimum, a, (b - 1) as nat, y);
        }
    }

    proof fn lemma_within_source(&self, source: i64, flow: Flow, minimum: Weight, depth: nat)
        ensures
            self.within(source, flow, minimum, depth, source),
    {
        self.lemma_within_grows(source, flow, minimum, 0, depth, source);
    }

    /// Once a level adds nothing, no later level adds anything.
    proof fn lemma_within_settles(&self, source: i64, flow: Flow, minimum: Weight, level: nat, depth: nat)
        requires
            level <= depth,
            forall|y: i64| #[trigger] self.within(source, flow, minimum, level + 1, y) ==> self.within(source, flow, minimum, level, y),
        ensures
            forall|y: i64| #[trigger] self.within(source, flow, minimum, depth, y) == self.within(source, flow, minimum, level, y),
        decreases depth - level,
    {
        if depth > level {
            self.lemma_within_settles(source, flow, minimum, level, (depth - 1) as nat);
            assert forall|y: i64| #[trigger] self.within(source, flow, minimum, depth, y) == self.within(source, flow, minimum, level, y) by {
                let prior = (depth - 1) as nat;
                if self.within(source, flow, minimum, depth, y) && !self.within(source, flow, minimum, prior, y) {
                    let x = choose|x: i64| #![trigger self.hop(x, y, flow, minimum)] self.within(source, flow, minimum, prior, x) && self.hop(x, y, flow, minimum);
                    assert(self.within(source, flow, minimum, level, x));
                    assert(self.within(source, flow, minimum, level + 1, y));
                }
                if self.within(source, flow, minimum, level, y) {
                    self.lemma_within_grows(source, flow, minimum, level, depth, y);
                }
            }
        }
    }

    /// Explores one level: every key one step from the frontier that is
    /// neither `source` nor already reached joins `reached` and the next
    /// frontier.
    fn spread(&self, frontier: &Vec<i64>, reached: &mut Vec<i64>, source: i64, flow: Flow, minimum: Weight) -> (next: Vec<i64>)
        requires
            old(reached)@.no_duplicates(),
            !old(reached)@.contains(source),
        ensures
            final(reached)@ == old(reached)@ + next@,
            final(reached)@.no_duplicates(),
            next@.no_duplicates(),
            forall|y: i64| #[trigger] next@.contains(y) <==> (y != source && !old(reached)@.contains(y) && exists|t: int| 0 <= t < frontier@.len() && self.hop(#[trigger] frontier@[t], y, flow, minimum)),
    {
        let mut next: Vec<i64> = Vec::new();
        let mut i: usize = 0;
        while i < frontier.len()
            invariant
                i <= frontier@.len(),
                reached@ == old(reached)@ + next@,
                reached@.no_duplicates(),
                next@.no_duplicates(),
                !old(reached)@.contains(source),
                forall|y: i64| #[trigger] next@.contains(y) ==> (y != source && !old(reached)@.contains(y) && exists|t: int| 0 <= t < frontier@.len() && self.hop(#[trigger] frontier@[t], y, flow, minimum)),
                forall|t: int, y: i64| 0 <= t < i && y != source && #[trigger] self.hop(frontier@[t], y, flow, minimum) ==> reached@.contains(y),
            decreases frontier@.len() - i,
        {
            let x = frontier[i];
            let around = self.steps(x, flow, minimum);
            let mut j: usize = 0;
            while j < around.len()
                invariant
                    i < frontier@.len(),
                    x == frontier@[i as int],
                    j <= around@.len(),
                    forall|y: i64| #[trigger] around@.contains(y) <==> self.hop(x, y, flow, minimum),
                    reached@ == old(reached)@ + next@,
                    reached@.no_duplicates(),
                    next@.no_duplicates(),
                    !old(reached)@.contains(source),
                    forall|y: i64| #[trigger] next@.contains(y) ==> (y != source && !old(reached)@.contains(y) && exists|t: int| 0 <= t < frontier@.len() && self.hop(#[trigger] frontier@[t], y, flow, minimum)),
                    forall|t: int, y: i64| 0 <= t < i && y != source && #[trigger] self.hop(frontier@[t], y, flow, minimum) ==> reached@.contains(y),
                    forall|u: int| 0 <= u < j && around@[u] != source ==> reached@.contains(#[trigger] around@[u]),
                decreases around@.len() - j,
            {
                let y = around[j];
                assert(around@.contains(y));
                if y != source && !member(reached, y) {
                    let ghost prior = reached@;
                    let ghost prior_next = next@;
                    reached.push(y);
                    next.push(y);
                    proof {
                        assert(reached@ =~= old(reached)@ + next@);
                        assert(!old(reached)@.contains(y)) by {
                            if old(reached)@.contains(y) {
                                let t = choose|t: int| 0 <= t < old(reached)@.len() && old(reached)@[t] == y;
                                assert(prior[t] == y);
                            }
                        }
                        assert(!prior_next.contains(y)) by {
                            if prior_next.contains(y) {
                                let t = choose|t: int| 0 <= t < prior_next.len() && prior_next[t] == y;
                                assert(prior[old(reached)@.len() + t] == y);
                            }
                        }
                        assert forall|z: i64| #[trigger] next@.contains(z) implies (z != source && !old(reached)@.contains(z) && exists|t: int| 0 <= t < frontier@.len() && self.hop(#[trigger] frontier@[t], z, flow, minimum)) by {
                            if z == y {
                                assert(self.hop(frontier@[i as int], z, flow, minimum));
                            } else {
                                let t = choose|t: int| 0 <= t < next@.len() && next@[t] == z;
                                assert(prior_next[t] == z);
                                assert(prior_next.contains(z));
                            }
                        }
                        assert forall|t: int, z: i64| 0 <= t < i && z != source && #[trigger] self.hop(frontier@[t], z, flow, minimum) implies reached@.contains(z) by {
                            assert(prior.contains(z));
                            let w = choose|w: int| 0 <= w < prior.len() && prior[w] == z;
                            assert(reached@[w] == z);
                        }
                        assert forall|u: int| 0 <= u < j + 1 && around@[u] != source implies reached@.contains(#[trigger] around@[u]) by {
                            if u < j {
                                assert(prior.contains(around@[u]));
                                let w = choose|w: int| 0 <= w < prior.len() && prior[w] == around@[u];
                                assert(reached@[w] == around@[u]);
                            } else {
                                assert(reached@[reached@.len() - 1] == y);
                            }
                        }
                    }
                }
                j = j + 1;
            }
            proof {
                assert forall|t: int, y: i64| 0 <= t < i + 1 && y != source && #[trigger] self.hop(frontier@[t], y, flow, minimum) implies reached@.contains(y) by {
                    if t == i {
                        assert(around@.contains(y));
                        let u = choose|u: int| 0 <= u < around@.len() && around@[u] == y;
                    }
                }
            }
            i = i + 1;
        }
        proof {
            assert forall|y: i64| (y != source && !old(reached)@.contains(y) && exists|t: int| 0 <= t < frontier@.len() && self.hop(#[trigger] frontier@[t], y, flow, minimum)) implies #[trigger] next@.contains(y) by {
                let t = choose|t: int| 0 <= t < frontier@.len() && self.hop(#[trigger] frontier@[t], y, flow, minimum);
                assert(reached@.contains(y));
                let w = choose|w: int| 0 <= w < reached@.len() && reached@[w] == y;
                if w < old(reached)@.len() {
                    assert(old(reached)@[w] == y);
                } else {
                    assert(next@[w - old(reached)@.len()] == y);
                }
            }
        }
        next
    }

    /// The keys other than `source` that lie at most `depth` steps from it,
    /// in graph order.
    pub fn neighbors(&self, source: i64, flow: Flow, depth: usize, minimum: Weight) -> (r: Vec<i64>)
        ensures
            forall|y: i64| #[trigger] r@.contains(y) <==> (y != source && self.within(source, flow, minimum, depth as nat, y)),
            self.arranged(r@),
    {
        let mut reached: Vec<i64> = Vec::new();
        let mut frontier: Vec<i64> = Vec::new();
        frontier.push(source);
        let mut level: usize = 0;
        proof {
            assert forall|y: i64| #[trigger] self.within(source, flow, minimum, 0, y) implies frontier@.contains(y) by {
                assert(frontier@[0] == source);
            }
        }
        while level < depth && frontier.len() > 0
            invariant
                level <= depth,
                reached@.no_duplicates(),
                forall|y: i64| #[trigger] reached@.contains(y) <==> (y != source && self.within(source, flow, minimum, level as nat, y)),
                forall|y: i64| #[trigger] frontier@.contains(y) ==> self.within(source, flow, minimum, level as nat, y),
                forall|y: i64| #[trigger] self.within(source, flow, minimum, level as nat, y) ==> (frontier@.contains(y) || (level > 0 && self.within(source, flow, minimum, (level - 1) as nat, y))),
            decreases depth - level,
        {
            let ghost prior = reached@;
            let ghost lv = level as nat;
            let next = self.spread(&frontier, &mut reached, source, flow, minimum);
            proof {
                assert forall|y: i64| #[trigger] reached@.contains(y) <==> (y != source && self.within(source, flow, minimum, lv + 1, y)) by {
                    self.lemma_within_source(source, flow, minimum, lv);
                    if reached@.contains(y) {
                        let w = choose|w: int| 0 <= w < reached@.len() && reached@[w] == y;
                        if w < prior.len() {
                            assert(prior[w] == y);
                            assert(prior.contains(y));
                        } else {
                            assert(next@[w - prior.len()] == y);
                            assert(next@.contains(y));
                            let t = choose|t: int| 0 <= t < frontier@.len() && self.hop(#[trigger] frontier@[t], y, flow, minimum);
                            assert(frontier@.contains(frontier@[t]));
                        }
                    }
                    if y != source && self.within(source, flow, minimum, lv + 1, y) {
                        if !self.within(source, flow, minimum, lv, y) {
                            let x = choose|x: i64| #![trigger self.hop(x, y, flow, minimum)] self.within(source, flow, minimum, lv, x) && self.hop(x, y, flow, minimum);
                            if frontier@.contains(x) {
                                let t = choose|t: int| 0 <= t < frontier@.len() && frontier@[t] == x;
                                assert(self.hop(frontier@[t], y, flow, minimum));
                                assert(!prior.contains(y));
                                assert(next@.contains(y));
                                let u = choose|u: int| 0 <= u < next@.len() && next@[u] == y;
                                assert(reached@[prior.len() + u] == y);
                            } else {
                                assert(lv > 0 && self.within(source, flow, minimum, (lv - 1) as nat, x));
                                assert(self.within(source, flow, minimum, lv, y));
                            }
                        } else {
                            assert(prior.contains(y));
                            let w = choose|w: int| 0 <= w < prior.len() && prior[w] == y;
                            assert(reached@[w] == y);
                        }
                    }
                }
                assert forall|y: i64| #[trigger] next@.contains(y) implies self.within(source, flow, minimum, lv + 1, y) by {
                    let t = choose|t: int| 0 <= t < frontier@.len() && self.hop(#[trigger] frontier@[t], y, flow, minimum);
                    assert(frontier@.contains(frontier@[t]));
                    assert(self.within(source, flow, minimum, lv, frontier@[t]));
                }
                assert forall|y: i64| #[trigger] self.within(source, flow, minimum, lv + 1, y) implies (next@.contains(y) || self.within(source, flow, minimum, lv, y)) by {
                    if !self.within(source, flow, minimum, lv, y) {
                        self.lemma_within_source(source, flow, minimum, lv);
                        let x = choose|x: i64| #![trigger self.hop(x, y, flow, minimum)] self.within(source, flow, minimum, lv, x) && self.hop(x, y, flow, minimum);
                        if frontier@.contains(x) {
                            let t = choose|t: int| 0 <= t < frontier@.len() && frontier@[t] == x;
                            assert(self.hop(frontier@[t], y, flow, minimum));
                            assert(!prior.contains(y));
                        } else {
                            assert(self.within(source, flow, minimum, (lv - 1) as nat, x));
                        }
                    }
                }
            }
            frontier = next;
            level = level + 1;
        }
        proof {
            if level < depth {
                assert forall|y: i64| #[trigger] self.within(source, flow, minimum, level as nat + 1, y) implies self.within(source, flow, minimum, level as nat, y) by {
                    if !self.within(source, flow, minimum, level as nat, y) {
                        let x = choose|x: i64| #![trigger self.hop(x, y, flow, minimum)] self.within(source, flow, minimum, level as nat, x) && self.hop(x, y, flow, minimum);
                        assert(!frontier@.contains(x));
                        assert(self.within(source, flow, minimum, (level - 1) as nat, x));
                    }
                }
                self.lemma_within_settles(source, flow, minimum, level as nat, depth as nat);
            }
        }
        let r = self.sorted(reached);
        proof {
            assert forall|y: i64| #[trigger] r@.contains(y) <==> reached@.contains(y) by {
                assert(r@.to_set().contains(y) == reached@.to_set().contains(y));
            }
        }
        r
    }

    /// An end of an edge: even marks name targets, odd marks sources.
    pub open spec fn endpoint(&self, w: int) -> i64 {
        if w % 2 == 0 {
            self.edges@[w / 2].target
        } else {
            self.edges@[w / 2].source
        }
    }

    /// Some end of some edge is `y`.
    pub open spec fn marked(&self, y: i64) -> bool {
        exists|w: int| 0 <= w < 2 * self.edges@.len() && #[trigger] self.endpoint(w) == y
    }

    proof fn lemma_hop_marked(&self, x: i64, y: i64, flow: Flow, minimum: Weight)
        requires
            self.hop(x, y, flow, minimum),
        ensures
            self.marked(y),
    {
        let e = choose|e: int| 0 <= e < self.edges@.len() && carries(#[trigger] self.edges@[e], x, y, flow, minimum);
        if flow != Flow::In && self.edges@[e].source == x && self.edges@[e].target == y {
            assert(self.endpoint(2 * e) == y);
        } else {
            assert(self.endpoint(2 * e + 1) == y);
        }
    }

    /// Distinct keys, each an end of some edge, number at most twice the
    /// edges.
    proof fn lemma_marked_bound(&self, keys: Seq<i64>)
        requires
            keys.no_duplicates(),
            forall|t: int| 0 <= t < keys.len() ==> self.marked(#[trigger] keys[t]),
        ensures
            keys.len() <= 2 * self.edges@.len(),
    {
        let n = 2 * self.edges@.len() as int;
        let wit = Seq::new(keys.len(), |t: int| choose|w: int| 0 <= w < n && #[trigger] self.endpoint(w) == keys[t]);
        assert forall|t: int| 0 <= t < keys.len() implies 0 <= #[trigger] wit[t] < n && self.endpoint(wit[t]) == keys[t] by {
            assert(self.marked(keys[t]));
        }
        assert(wit.no_duplicates()) by {
            assert forall|a: int, b: int| 0 <= a < wit.len() && 0 <= b < wit.len() && a != b implies wit[a] != wit[b] by {
                assert(self.endpoint(wit[a]) == keys[a]);
                assert(self.endpoint(wit[b]) == keys[b]);
            }
        }
        wit.unique_seq_to_set();
        vstd::set_lib::lemma_int_range(0, n);
        assert forall|x: int| wit.to_set().contains(x) implies vstd::set_lib::set_int_range(0, n).contains(x) by {
            let a = choose|a: int| 0 <= a < wit.len() && wit[a] == x;
            assert(0 <= wit[a] < n);
        }
        vstd::set_lib::lemma_len_subset(wit.to_set(), vstd::set_lib::set_int_range(0, n));
    }

    /// `y` lies some number of steps from `source` under `flow` at `minimum`.
    pub open spec fn reachable(&self, source: i64, flow: Flow, minimum: Weight, y: i64) -> bool {
        exists|depth: nat| #[trigger] self.within(source, flow, minimum, depth, y)
    }

    /// The keys other than `source` that some number of steps reach, in the
    /// order a breadth-first search finds them.
    fn closure(&self, source: i64, flow: Flow, minimum: Weight) -> (r: Vec<i64>)
        ensures
            r@.no_duplicates(),
            forall|y: i64| #[trigger] r@.contains(y) <==> (y != source && self.reachable(source, flow, minimum, y)),
    {
        let mut reached: Vec<i64> = Vec::new();
        let mut frontier: Vec<i64> = Vec::new();
        frontier.push(source);
        let ghost mut level: nat = 0;
        proof {
            assert forall|y: i64| #[trigger] self.within(source, flow, minimum, 0, y) implies frontier@.contains(y) by {
                assert(frontier@[0] == source);
            }
        }
        while frontier.len() > 0
            invariant
                reached@.no_duplicates(),
                forall|t: int| 0 <= t < reached@.len() ==> self.marked(#[trigger] reached@[t]),
                forall|y: i64| #[trigger] reached@.contains(y) <==> (y != source && self.within(source, flow, minimum, level, y)),
                forall|y: i64| #[trigger] frontier@.contains(y) ==> self.within(source, flow, minimum, level, y),
                forall|y: i64| #[trigger] self.within(source, flow, minimum, level, y) ==> (frontier@.contains(y) || (level > 0 && self.within(source, flow, minimum, (level - 1) as nat, y))),
            decreases 2 * (2 * self.edges@.len() - reached@.len()) + if frontier@.len() > 0 { 1int } else { 0int },
        {
            proof {
                self.lemma_marked_bound(reached@);
            }
            let ghost prior = reached@;
            let ghost lv = level;
            let next = self.spread(&frontier, &mut reached, source, flow, minimum);
            proof {
                assert forall|y: i64| #[trigger] reached@.contains(y) <==> (y != source && self.within(source, flow, minimum, lv + 1, y)) by {
                    self.lemma_within_source(source, flow, minimum, lv);
                    if reached@.contains(y) {
                        let w = choose|w: int| 0 <= w < reached@.len() && reached@[w] == y;
                        if w < prior.len() {
                            assert(prior[w] == y);
                            assert(prior.contains(y));
                        } else {
                            assert(next@[w - prior.len()] == y);
                            assert(next@.contains(y));
                            let t = choose|t: int| 0 <= t < frontier@.len() && self.hop(#[trigger] frontier@[t], y, flow, minimum);
                            assert(frontier@.contains(frontier@[t]));
                        }
                    }
                    if y != source && self.within(source, flow, minimum, lv + 1, y) {
                        if !self.within(source, flow, minimum, lv, y) {
                            let x = choose|x: i64| #![trigger self.hop(x, y, flow, minimum)] self.within(source, flow, minimum, lv, x) && self.hop(x, y, flow, minimum);
                            if frontier@.contains(x) {
                                let t = choose|t: int| 0 <= t < frontier@.len() && frontier@[t] == x;
                                assert(self.hop(frontier@[t], y, flow, minimum));
                                assert(!prior.contains(y));
                                assert(next@.contains(y));
                                let u = choose|u: int| 0 <= u < next@.len() && next@[u] == y;
                                assert(reached@[prior.len() + u] == y);
                            } else {
                                assert(lv > 0 && self.within(source, flow, minimum, (lv - 1) as nat, x));
                                assert(self.within(source, flow, minimum, lv, y));
                            }
                        } else {
                            assert(prior.contains(y));
                            let w = choose|w: int| 0 <= w < prior.len() && prior[w] == y;
                            assert(reached@[w] == y);
                        }
                    }
                }
                assert forall|y: i64| #[trigger] next@.contains(y) implies self.within(source, flow, minimum, lv + 1, y) by {
                    let t = choose|t: int| 0 <= t < frontier@.len() && self.hop(#[trigger] frontier@[t], y, flow, minimum);
                    assert(frontier@.contains(frontier@[t]));
                    assert(self.within(source, flow, minimum, lv, frontier@[t]));
                }
                assert forall|y: i64| #[trigger] self.within(source, flow, minimum, lv + 1, y) implies (next@.contains(y) || self.within(source, flow, minimum, lv, y)) by {
                    if !self.within(source, flow, minimum, lv, y) {
                        self.lemma_within_source(source, flow, minimum, lv);
                        let x = choose|x: i64| #![trigger self.hop(x, y, flow, minimum)] self.within(source, flow, minimum, lv, x) && self.hop(x, y, flow, minimum);
                        if frontier@.contains(x) {
                            let t = choose|t: int| 0 <= t < frontier@.len() && frontier@[t] == x;
                            assert(self.hop(frontier@[t], y, flow, minimum));
                            assert(!prior.contains(y));
                        } else {
                            assert(self.within(source, flow, minimum, (lv - 1) as nat, x));
                        }
                    }
                }
                assert forall|t: int| 0 <= t < reached@.len() implies self.marked(#[trigger] reached@[t]) by {
                    if t < prior.len() {
                        assert(reached@[t] == prior[t]);
                    } else {
                        let y = reached@[t];
                        assert(next@[t - prior.len()] == y);
                        assert(next@.contains(y));
                        let u = choose|u: int| 0 <= u < frontier@.len() && self.hop(#[trigger] frontier@[u], y, flow, minimum);
                        self.lemma_hop_marked(frontier@[u], y, flow, minimum);
                    }
                }
                self.lemma_marked_bound(reached@);
                level = lv + 1;
            }
            frontier = next;
        }
        proof {
            assert forall|y: i64| #[trigger] self.within(source, flow, minimum, level + 1, y) implies self.within(source, flow, minimum, level, y) by {
                if !self.within(source, flow, minimum, level, y) {
                    let x = choose|x: i64| #![trigger self.hop(x, y, flow, minimum)] self.within(source, flow, minimum, level, x) && self.hop(x, y, flow, minimum);
                    assert(!frontier@.contains(x));
                    assert(self.within(source, flow, minimum, (level - 1) as nat, x));
                }
            }
            assert forall|y: i64| #[trigger] reached@.contains(y) <==> (y != source && self.reachable(source, flow, minimum, y)) by {
                if y != source && self.reachable(source, flow, minimum, y) {
                    let k = choose|k: nat| #[trigger] self.within(source, flow, minimum, k, y);
                    if k >= level {
                        self.lemma_within_settles(source, flow, minimum, level, k);
                    } else {
                        self.lemma_within_grows(source, flow, minimum, k, level, y);
                    }
                }
                if reached@.contains(y) {
                    assert(self.within(source, flow, minimum, level, y));
                }
            }
        }
        reached
    }

    /// Every key other than `source` that some number of steps reach, in
    /// graph order.
    pub fn reach(&self, source: i64, flow: Flow, minimum: Weight) -> (r: Vec<i64>)
        ensures
            forall|y: i64| #[trigger] r@.contains(y) <==> (y != source && self.reachable(source, flow, minimum, y)),
            self.arranged(r@),
    {
        let found = self.closure(source, flow, minimum);
        let r = self.sorted(found);
        proof {
            assert forall|y: i64| #[trigger] r@.contains(y) <==> found@.contains(y) by {
                assert(r@.to_set().contains(y) == found@.to_set().contains(y));
            }
        }
        r
    }

    proof fn lemma_hop_turn(&self, x: i64, y: i64, minimum: Weight)
        ensures
            self.hop(x, y, Flow::In, minimum) == self.hop(y, x, Flow::Out, minimum),
    {
        if self.hop(x, y, Flow::In, minimum) {
            let e = choose|e: int| 0 <= e < self.edges@.len() && carries(#[trigger] self.edges@[e], x, y, Flow::In, minimum);
            assert(carries(self.edges@[e], y, x, Flow::Out, minimum));
        }
        if self.hop(y, x, Flow::Out, minimum) {
            let e = choose|e: int| 0 <= e < self.edges@.len() && carries(#[trigger] self.edges@[e], y, x, Flow::Out, minimum);
            assert(carries(self.edges@[e], x, y, Flow::In, minimum));
        }
    }

    /// A step before a walk is a longer walk.
    proof fn lemma_prepend(&self, s: i64, x: i64, flow: Flow, minimum: Weight, k: nat, y: i64)
        requires
            self.hop(s, x, flow, minimum),
            self.within(x, flow, minimum, k, y),
        ensures
            self.within(s, flow, minimum, k + 1, y),
        decreases k,
    {
        if k == 0 {
            assert(self.within(s, flow, minimum, 0, s));
        } else {
            let prior = (k - 1) as nat;
            if self.within(x, flow, minimum, prior, y) {
                self.lemma_prepend(s, x, flow, minimum, prior, y);
            } else {
                let z = choose|z: i64| #![trigger self.hop(z, y, flow, minimum)] self.within(x, flow, minimum, prior, z) && self.hop(z, y, flow, minimum);
                self.lemma_prepend(s, x, flow, minimum, prior, z);
                assert(self.within(s, flow, minimum, k, z));
            }
        }
    }

    /// Walking in along edges is walking out along them backwards.
    proof fn lemma_reverse(&self, a: i64, b: i64, minimum: Weight, k: nat)
        ensures
            self.within(a, Flow::In, minimum, k, b) == self.within(b, Flow::Out, minimum, k, a),
        decreases k,
    {
        if k > 0 {
            let prior = (k - 1) as nat;
            self.lemma_reverse(a, b, minimum, prior);
            if self.within(a, Flow::In, minimum, k, b) && !self.within(a, Flow::In, minimum, prior, b) {
                let x = choose|x: i64| #![trigger self.hop(x, b, Flow::In, minimum)] self.within(a, Flow::In, minimum, prior, x) && self.hop(x, b, Flow::In, minimum);
                self.lemma_reverse(a, x, minimum, prior);
                self.lemma_hop_turn(x, b, minimum);
                self.lemma_prepend(b, x, Flow::Out, minimum, prior, a);
            }
            if self.within(b, Flow::Out, minimum, k, a) && !self.within(b, Flow::Out, minimum, prior, a) {
                let x = choose|x: i64| #![trigger self.hop(x, a, Flow::Out, minimum)] self.within(b, Flow::Out, minimum, prior, x) && self.hop(x, a, Flow::Out, minimum);
                self.lemma_reverse(x, b, minimum, prior);
                self.lemma_hop_turn(a, x, minimum);
                self.lemma_prepend(a, x, Flow::In, minimum, prior, b);
            }
            if self.within(a, Flow::In, minimum, prior, b) {
                self.lemma_within_grows(b, Flow::Out, minimum, prior, k, a);
            }
            if self.within(b, Flow::Out, minimum, prior, a) {
                self.lemma_within_grows(a, Flow::In, minimum, prior, k, b);
            }
        }
    }

    /// Walks join.
    proof fn lemma_join(&self, a: i64, b: i64, c: i64, flow: Flow, minimum: Weight, i: nat, j: nat)
        requires
            self.within(a, flow, minimum, i, b),
            self.within(b, flow, minimum, j, c),
        ensures
            self.within(a, flow, minimum, i + j, c),
        decreases j,
    {
        if j > 0 {
            let prior = (j - 1) as nat;
            if self.within(b, flow, minimum, prior, c) {
                self.lemma_join(a, b, c, flow, minimum, i, prior);
                self.lemma_within_grows(a, flow, minimum, i + prior, i + j, c);
            } else {
                let x = choose|x: i64| #![trigger self.hop(x, c, flow, minimum)] self.within(b, flow, minimum, prior, x) && self.hop(x, c, flow, minimum);
                self.lemma_join(a, b, x, flow, minimum, i, prior);
                assert(self.within(a, flow, minimum, (i + j - 1) as nat, x));
            }
        }
    }

    proof fn lemma_reach_join(&self, a: i64, b: i64, c: i64, flow: Flow, minimum: Weight)
        requires
            self.reachable(a, flow, minimum, b),
            self.reachable(b, flow, minimum, c),
        ensures
            self.reachable(a, flow, minimum, c),
    {
        let i = choose|i: nat| #[trigger] self.within(a, flow, minimum, i, b);
        let j = choose|j: nat| #[trigger] self.within(b, flow, minimum, j, c);
        self.lemma_join(a, b, c, flow, minimum, i, j);
    }

    proof fn lemma_reach_reverse(&self, a: i64, b: i64, minimum: Weight)
        ensures
            self.reachable(a, Flow::In, minimum, b) == self.reachable(b, Flow::Out, minimum, a),
    {
        if self.reachable(a, Flow::In, minimum, b) {
            let k = choose|k: nat| #[trigger] self.within(a, Flow::In, minimum, k, b);
            self.lemma_reverse(a, b, minimum, k);
        }
        if self.reachable(b, Flow::Out, minimum, a) {
            let k = choose|k: nat| #[trigger] self.within(b, Flow::Out, minimum, k, a);
            self.lemma_reverse(a, b, minimum, k);
        }
    }

    /// `a` and `b` reach each other along edges of any weight.
    pub open spec fn mutual(&self, a: i64, b: i64) -> bool {
        ||| a == b
        ||| (self.reachable(a, Flow::Out, Weight::Unknown, b) && self.reachable(b, Flow::Out, Weight::Unknown, a))
    }

    proof fn lemma_mutual_join(&self, a: i64, b: i64, c: i64)
        requires
            self.mutual(a, b),
            self.mutual(b, c),
        ensures
            self.mutual(a, c),
    {
        if a != b && b != c && a != c {
            self.lemma_reach_join(a, b, c, Flow::Out, Weight::Unknown);
            self.lemma_reach_join(c, b, a, Flow::Out, Weight::Unknown);
        }
    }

    /// The strongly connected components: each group is the class of keys
    /// that its first key reaches and is reached by, in graph order; every
    /// node lies in exactly one group; groups come in the order of their
    /// first keys, each a node.
    pub open spec fn components(&self, groups: Seq<Seq<i64>>) -> bool {
        &&& forall|g: int| 0 <= g < groups.len() ==> {
            &&& #[trigger] groups[g].len() >= 1
            &&& self.arranged(groups[g])
            &&& self.holds(groups[g][0])
            &&& forall|y: i64| #[trigger] groups[g].contains(y) <==> self.mutual(groups[g][0], y)
        }
        &&& forall|g: int, h: int| 0 <= g < h < groups.len() ==> self.before(#[trigger] groups[g][0], #[trigger] groups[h][0])
        &&& forall|g: int, h: int, y: i64| 0 <= g < groups.len() && 0 <= h < groups.len() && g != h && #[trigger] groups[g].contains(y) ==> !#[trigger] groups[h].contains(y)
        &&& forall|k: i64| #[trigger] self.holds(k) ==> exists|g: int| 0 <= g < groups.len() && #[trigger] groups[g].contains(k)
    }

    /// The strongly connected components of the graph, over edges of every
    /// weight.
    pub fn scc(&self) -> (r: Vec<Vec<i64>>)
        ensures
            self.components(r.deep_view()),
    {
        let mut groups: Vec<Vec<i64>> = Vec::new();
        let mut assigned: Vec<i64> = Vec::new();
        let mut i: usize = 0;
        while i < self.nodes.len()
            invariant
                i <= self.nodes@.len(),
                forall|g: int| 0 <= g < groups@.len() ==> {
                    &&& #[trigger] groups@[g]@.len() >= 1
                    &&& self.arranged(groups@[g]@)
                    &&& self.holds(groups@[g]@[0])
                    &&& self.order(groups@[g]@[0]) < i
                    &&& forall|y: i64| #[trigger] groups@[g]@.contains(y) <==> self.mutual(groups@[g]@[0], y)
                },
                forall|g: int, h: int| 0 <= g < h < groups@.len() ==> self.before(#[trigger] groups@[g]@[0], #[trigger] groups@[h]@[0]),
                forall|g: int, h: int, y: i64| 0 <= g < groups@.len() && 0 <= h < groups@.len() && g != h && #[trigger] groups@[g]@.contains(y) ==> !#[trigger] groups@[h]@.contains(y),
                forall|y: i64| #[trigger] assigned@.contains(y) <==> exists|g: int| 0 <= g < groups@.len() && #[trigger] groups@[g]@.contains(y),
                forall|t: int| 0 <= t < i ==> assigned@.contains(#[trigger] self.nodes@[t].key),
            decreases self.nodes@.len() - i,
        {
            let n = self.nodes[i].key;
            if !member(&assigned, n) {
                let fwd = self.reach(n, Flow::Out, Weight::Unknown);
                let bwd = self.reach(n, Flow::In, Weight::Unknown);
                let mut members: Vec<i64> = Vec::new();
                members.push(n);
                proof {
                    assert forall|y: i64| #[trigger] members@.contains(y) <==> (y == n || (fwd@.take(0).contains(y) && bwd@.contains(y))) by {
                        if members@.contains(y) {
                            let u = choose|u: int| 0 <= u < members@.len() && members@[u] == y;
                        }
                        if y == n {
                            assert(members@[0] == n);
                        }
                    }
                }
                let mut j: usize = 0;
                while j < fwd.len()
                    invariant
                        j <= fwd@.len(),
                        self.arranged(fwd@),
                        forall|y: i64| #[trigger] fwd@.contains(y) <==> (y != n && self.reachable(n, Flow::Out, Weight::Unknown, y)),
                        forall|y: i64| #[trigger] bwd@.contains(y) <==> (y != n && self.reachable(n, Flow::In, Weight::Unknown, y)),
                        members@.no_duplicates(),
                        members@.len() >= 1,
                        members@[0] == n,
                        forall|y: i64| #[trigger] members@.contains(y) <==> (y == n || (fwd@.take(j as int).contains(y) && bwd@.contains(y))),
                    decreases fwd@.len() - j,
                {
                    let y = fwd[j];
                    let ghost prior = members@;
                    assert(fwd@.take(j + 1) =~= fwd@.take(j as int).push(y));
                    if member(&bwd, y) {
                        proof {
                            assert(fwd@.contains(y));
                            assert(!prior.contains(y)) by {
                                if prior.contains(y) {
                                    assert(fwd@.take(j as int).contains(y));
                                    let u = choose|u: int| 0 <= u < j && fwd@.take(j as int)[u] == y;
                                    self.lemma_arranged_distinct(fwd@);
                                    assert(fwd@[u] == fwd@[j as int]);
                                }
                            }
                        }
                        members.push(y);
                        proof {
                            assert(members@[0] == prior[0]);
                            assert forall|z: i64| #[trigger] members@.contains(z) <==> (z == n || (fwd@.take(j + 1).contains(z) && bwd@.contains(z))) by {
                                if members@.contains(z) {
                                    let u = choose|u: int| 0 <= u < members@.len() && members@[u] == z;
                                    if u < prior.len() {
                                        assert(prior[u] == z);
                                        assert(prior.contains(z));
                                        if z != n {
                                            let w = choose|w: int| 0 <= w < j && fwd@.take(j as int)[w] == z;
                                            assert(fwd@.take(j + 1)[w] == z);
                                        }
                                    } else {
                                        assert(fwd@.take(j + 1)[j as int] == y);
                                    }
                                }
                                if z == n {
                                    assert(members@[0] == n);
                                } else if fwd@.take(j + 1).contains(z) && bwd@.contains(z) {
                                    let w = choose|w: int| 0 <= w < j + 1 && #[trigger] fwd@.take(j + 1)[w] == z;
                                    if w < j {
                                        assert(fwd@.take(j as int)[w] == z);
                                        assert(prior.contains(z));
                                        let u = choose|u: int| 0 <= u < prior.len() && prior[u] == z;
                                        assert(members@[u] == z);
                                    } else {
                                        assert(members@[prior.len() as int] == z);
                                    }
                                }
                            }
                        }
                    } else {
                        proof {
                            assert forall|z: i64| #[trigger] members@.contains(z) <==> (z == n || (fwd@.take(j + 1).contains(z) && bwd@.contains(z))) by {
                                if z != n && fwd@.take(j + 1).contains(z) && bwd@.contains(z) {
                                    let w = choose|w: int| 0 <= w < j + 1 && #[trigger] fwd@.take(j + 1)[w] == z;
                                    assert(w < j);
                                    assert(fwd@.take(j as int)[w] == z);
                                }
                                if members@.contains(z) && z != n {
                                    let w = choose|w: int| 0 <= w < j && fwd@.take(j as int)[w] == z;
                                    assert(fwd@.take(j + 1)[w] == z);
                                }
                            }
                        }
                    }
                    j = j + 1;
                }
                proof {
                    assert(fwd@.take(fwd@.len() as int) =~= fwd@);
                    assert forall|y: i64| #[trigger] members@.contains(y) <==> self.mutual(n, y) by {
                        self.lemma_reach_reverse(n, y, Weight::Unknown);
                    }
                    // n's place is i: every earlier node is already assigned.
                    assert(self.nodes@[i as int].key == n);
                    lemma_place_bound(self.nodes@, n);
                    assert(self.order(n) == i) by {
                        if self.order(n) < i {
                            assert(assigned@.contains(self.nodes@[self.order(n)].key));
                        } else if self.order(n) > i {
                            assert(self.nodes@[i as int].key == n);
                        }
                    }
                    assert forall|y: i64| #[trigger] self.mutual(n, y) && y != n implies self.before(n, y) by {
                        lemma_place_bound(self.nodes@, y);
                        if self.order(y) < i {
                            let m = self.nodes@[self.order(y)].key;
                            assert(m == y);
                            assert(assigned@.contains(y));
                            let g = choose|g: int| 0 <= g < groups@.len() && #[trigger] groups@[g]@.contains(y);
                            self.lemma_mutual_join(groups@[g]@[0], y, n);
                            assert(groups@[g]@.contains(n));
                            assert(assigned@.contains(n));
                        } else if self.order(y) == i {
                            lemma_place_unique(self.nodes@, y, n);
                        }
                    }
                }
                let group = self.sorted(members);
                proof {
                    assert forall|y: i64| #[trigger] group@.contains(y) <==> self.mutual(n, y) by {
                        assert(group@.to_set().contains(y) == members@.to_set().contains(y));
                    }
                    assert(group@[0] == n) by {
                        assert(group@.contains(n));
                        let u = choose|u: int| 0 <= u < group@.len() && group@[u] == n;
                        if u > 0 {
                            assert(self.before(group@[0], n));
                            assert(group@.contains(group@[0]));
                            self.lemma_before_total(group@[0], n);
                        }
                    }
                    assert(self.holds(n)) by {
                        assert(self.nodes@[i as int].key == n);
                    }
                }
                let ghost prior_groups = groups@;
                let ghost prior_assigned = assigned@;
                let mut k: usize = 0;
                while k < group.len()
                    invariant
                        k <= group@.len(),
                        assigned@ == prior_assigned + group@.take(k as int),
                    decreases group@.len() - k,
                {
                    assigned.push(group[k]);
                    proof {
                        assert(group@.take(k + 1) =~= group@.take(k as int).push(group@[k as int]));
                    }
                    k = k + 1;
                }
                groups.push(group);
                proof {
                    assert(group@.take(group@.len() as int) =~= group@);
                    assert(groups@[groups@.len() - 1] == group);
                    assert forall|g: int| 0 <= g < groups@.len() implies {
                        &&& #[trigger] groups@[g]@.len() >= 1
                        &&& self.arranged(groups@[g]@)
                        &&& self.holds(groups@[g]@[0])
                        &&& self.order(groups@[g]@[0]) < i + 1
                        &&& forall|y: i64| #[trigger] groups@[g]@.contains(y) <==> self.mutual(groups@[g]@[0], y)
                    } by {
                        if g < prior_groups.len() {
                            assert(groups@[g] == prior_groups[g]);
                            assert(prior_groups[g]@.len() >= 1);
                        } else {
                            assert(groups@[g]@ == group@);
                        }
                    }
                    assert forall|g: int, h: int| 0 <= g < h < groups@.len() implies self.before(#[trigger] groups@[g]@[0], #[trigger] groups@[h]@[0]) by {
                        assert(groups@[g] == prior_groups[g]);
                        if h < prior_groups.len() {
                            assert(groups@[h] == prior_groups[h]);
                        } else {
                            assert(prior_groups[g]@.len() >= 1);
                            assert(self.order(prior_groups[g]@[0]) < i);
                            assert(groups@[h]@ == group@);
                        }
                    }
                    assert forall|g: int, h: int, y: i64| 0 <= g < groups@.len() && 0 <= h < groups@.len() && g != h && #[trigger] groups@[g]@.contains(y) implies !#[trigger] groups@[h]@.contains(y) by {
                        if g < prior_groups.len() && h < prior_groups.len() {
                            assert(groups@[g] == prior_groups[g]);
                            assert(groups@[h] == prior_groups[h]);
                        } else {
                            let old_g = if g < prior_groups.len() { g } else { h };
                            assert(groups@[old_g] == prior_groups[old_g]);
                            if prior_groups[old_g]@.contains(y) && group@.contains(y) {
                                self.lemma_mutual_join(prior_groups[old_g]@[0], y, n);
                                assert(prior_groups[old_g]@.contains(n));
                                assert(prior_assigned.contains(n));
                            }
                        }
                    }
                    assert forall|y: i64| #[trigger] assigned@.contains(y) <==> exists|g: int| 0 <= g < groups@.len() && #[trigger] groups@[g]@.contains(y) by {
                        if assigned@.contains(y) {
                            let u = choose|u: int| 0 <= u < assigned@.len() && assigned@[u] == y;
                            if u < prior_assigned.len() {
                                assert(prior_assigned[u] == y);
                                assert(prior_assigned.contains(y));
                                let g = choose|g: int| 0 <= g < prior_groups.len() && #[trigger] prior_groups[g]@.contains(y);
                                assert(groups@[g] == prior_groups[g]);
                            } else {
                                assert(group@[u - prior_assigned.len()] == y);
                                assert(groups@[groups@.len() - 1]@.contains(y));
                            }
                        }
                        if exists|g: int| 0 <= g < groups@.len() && #[trigger] groups@[g]@.contains(y) {
                            let g = choose|g: int| 0 <= g < groups@.len() && #[trigger] groups@[g]@.contains(y);
                            if g < prior_groups.len() {
                                assert(groups@[g] == prior_groups[g]);
                                assert(prior_assigned.contains(y));
                                let u = choose|u: int| 0 <= u < prior_assigned.len() && prior_assigned[u] == y;
                                assert(assigned@[u] == y);
                            } else {
                                let u = choose|u: int| 0 <= u < group@.len() && group@[u] == y;
                                assert(assigned@[prior_assigned.len() + u] == y);
                            }
                        }
                    }
                    assert forall|t: int| 0 <= t < i + 1 implies assigned@.contains(#[trigger] self.nodes@[t].key) by {
                        if t < i {
                            let y = self.nodes@[t].key;
                            assert(prior_assigned.contains(y));
                            let u = choose|u: int| 0 <= u < prior_assigned.len() && prior_assigned[u] == y;
                            assert(assigned@[u] == y);
                        } else {
                            assert(group@[0] == n);
                            assert(assigned@[prior_assigned.len() as int] == n);
                        }
                    }
                }
            }
            i = i + 1;
        }
        proof {
            let d = groups.deep_view();
            assert(d.len() == groups@.len());
            assert forall|g: int| 0 <= g < d.len() implies #[trigger] d[g] == groups@[g]@ by {}
            assert forall|k: i64| #[trigger] self.holds(k) implies exists|g: int| 0 <= g < d.len() && #[trigger] d[g].contains(k) by {
                let t = choose|t: int| 0 <= t < self.nodes@.len() && #[trigger] self.nodes@[t].key == k;
                assert(assigned@.contains(self.nodes@[t].key));
                let g = choose|g: int| 0 <= g < groups@.len() && #[trigger] groups@[g]@.contains(k);
                assert(d[g] == groups@[g]@);
            }
        }
        groups
    }

    /// Some edge, of any weight, has both ends in the group.
    pub open spec fn looped(&self) -> spec_fn(Seq<i64>) -> bool {
        |g: Seq<i64>| exists|e: int| 0 <= e < self.edges@.len() && g.contains(#[trigger] self.edges@[e].source) && g.contains(self.edges@[e].target)
    }

    /// The first edge, in edge order, that leaves the group's first key for
    /// a key of the group.
    pub open spec fn first_inside(&self, g: Seq<i64>, e: int) -> bool {
        &&& 0 <= e < self.edges@.len()
        &&& self.edges@[e].source == g[0]
        &&& g.contains(self.edges@[e].target)
        &&& forall|f: int| 0 <= f < e ==> !(#[trigger] self.edges@[f].source == g[0] && g.contains(self.edges@[f].target))
    }

    /// The directed cycle shown for a group: from the group's first key
    /// along its first edge inside the group, then a shortest way back that
    /// never leaves the group; no key repeats before the walk closes.
    pub open spec fn circuit(&self, c: Seq<i64>, g: Seq<i64>) -> bool {
        &&& c.len() >= 2
        &&& c[0] == g[0]
        &&& c[0] == c.last()
        &&& self.walk(c, Weight::Unknown)
        &&& forall|i: int| 0 <= i < c.len() ==> g.contains(#[trigger] c[i])
        &&& c.subrange(0, c.len() - 1).no_duplicates()
        &&& exists|e: int| self.first_inside(g, e) && self.edges@[e].target == c[1]
        &&& forall|k: nat| k < c.len() - 2 ==> !#[trigger] self.along(c[1], Weight::Unknown, true, g, k, g[0])
    }

    /// One circuit for each component that has an edge inside it, in the
    /// order of the components.
    pub open spec fn circuits(&self, groups: Seq<Seq<i64>>, cycles: Seq<Seq<i64>>) -> bool {
        let looped = groups.filter(self.looped());
        &&& cycles.len() == looped.len()
        &&& forall|j: int| 0 <= j < cycles.len() ==> self.circuit(#[trigger] cycles[j], looped[j])
    }

    /// Inside a component, whatever a member reaches on the way to another
    /// member stays inside the component.
    proof fn lemma_fenced_walk(&self, g: Seq<i64>, t: i64, k: nat, z: i64)
        requires
            g.len() >= 1,
            forall|y: i64| #[trigger] g.contains(y) <==> self.mutual(g[0], y),
            g.contains(t),
            g.contains(z),
            self.within(t, Flow::Out, Weight::Unknown, k, z),
        ensures
            self.along(t, Weight::Unknown, true, g, k, z),
        decreases k,
    {
        if k > 0 {
            let prior = (k - 1) as nat;
            if self.within(t, Flow::Out, Weight::Unknown, prior, z) {
                self.lemma_fenced_walk(g, t, prior, z);
                self.lemma_along_grows(t, Weight::Unknown, true, g, prior, k, z);
            } else {
                let x = choose|x: i64| #![trigger self.hop(x, z, Flow::Out, Weight::Unknown)] self.within(t, Flow::Out, Weight::Unknown, prior, x) && self.hop(x, z, Flow::Out, Weight::Unknown);
                let g0 = g[0];
                assert(g.contains(g0));
                assert(self.within(x, Flow::Out, Weight::Unknown, 0, x));
                assert(self.within(x, Flow::Out, Weight::Unknown, 1, z));
                assert(self.reachable(t, Flow::Out, Weight::Unknown, x));
                assert(self.reachable(x, Flow::Out, Weight::Unknown, z));
                assert(self.mutual(g0, x)) by {
                    if g0 != x {
                        if g0 == t {
                        } else {
                            self.lemma_reach_join(g0, t, x, Flow::Out, Weight::Unknown);
                        }
                        if z == g0 {
                        } else {
                            self.lemma_reach_join(x, z, g0, Flow::Out, Weight::Unknown);
                        }
                    }
                }
                assert(g.contains(x));
                self.lemma_fenced_walk(g, t, prior, x);
            }
        }
    }

    /// The first step of a walk that goes anywhere.
    proof fn lemma_first_hop(&self, a: i64, b: i64, k: nat)
        requires
            self.within(a, Flow::Out, Weight::Unknown, k, b),
            a != b,
        ensures
            k >= 1,
            exists|x: i64| #[trigger] self.hop(a, x, Flow::Out, Weight::Unknown) && self.within(x, Flow::Out, Weight::Unknown, (k - 1) as nat, b),
        decreases k,
    {
        let prior = (k - 1) as nat;
        if self.within(a, Flow::Out, Weight::Unknown, prior, b) {
            self.lemma_first_hop(a, b, prior);
            let x = choose|x: i64| #[trigger] self.hop(a, x, Flow::Out, Weight::Unknown) && self.within(x, Flow::Out, Weight::Unknown, (prior - 1) as nat, b);
            self.lemma_within_grows(x, Flow::Out, Weight::Unknown, (prior - 1) as nat, prior, b);
        } else {
            let y = choose|y: i64| #![trigger self.hop(y, b, Flow::Out, Weight::Unknown)] self.within(a, Flow::Out, Weight::Unknown, prior, y) && self.hop(y, b, Flow::Out, Weight::Unknown);
            if y == a {
                assert(self.within(b, Flow::Out, Weight::Unknown, 0, b));
                self.lemma_within_grows(b, Flow::Out, Weight::Unknown, 0, prior, b);
            } else {
                self.lemma_first_hop(a, y, prior);
                let x = choose|x: i64| #[trigger] self.hop(a, x, Flow::Out, Weight::Unknown) && self.within(x, Flow::Out, Weight::Unknown, (prior - 1) as nat, y);
                assert(self.within(x, Flow::Out, Weight::Unknown, prior, b));
            }
        }
    }

    /// A group with an edge inside it has one that leaves its first key.
    proof fn lemma_first_inside(&self, g: Seq<i64>)
        requires
            g.len() >= 1,
            forall|y: i64| #[trigger] g.contains(y) <==> self.mutual(g[0], y),
            (self.looped())(g),
        ensures
            exists|e: int| 0 <= e < self.edges@.len() && self.edges@[e].source == g[0] && #[trigger] g.contains(self.edges@[e].target),
    {
        let g0 = g[0];
        assert(g.contains(g0));
        let e = choose|e: int| 0 <= e < self.edges@.len() && g.contains(#[trigger] self.edges@[e].source) && g.contains(self.edges@[e].target);
        let s = self.edges@[e].source;
        let t = self.edges@[e].target;
        if s == g0 {
            assert(g.contains(self.edges@[e].target));
        } else {
            assert(self.mutual(g0, s));
            let k = choose|k: nat| #[trigger] self.within(g0, Flow::Out, Weight::Unknown, k, s);
            self.lemma_first_hop(g0, s, k);
            let x = choose|x: i64| #[trigger] self.hop(g0, x, Flow::Out, Weight::Unknown) && self.within(x, Flow::Out, Weight::Unknown, (k - 1) as nat, s);
            let f = choose|f: int| 0 <= f < self.edges@.len() && carries(#[trigger] self.edges@[f], g0, x, Flow::Out, Weight::Unknown);
            assert(self.within(g0, Flow::Out, Weight::Unknown, 0, g0));
            assert(self.within(g0, Flow::Out, Weight::Unknown, 1, x));
            assert(self.reachable(g0, Flow::Out, Weight::Unknown, x));
            assert(self.reachable(x, Flow::Out, Weight::Unknown, s));
            assert(self.reachable(s, Flow::Out, Weight::Unknown, g0));
            assert(self.mutual(g0, x)) by {
                if x != g0 {
                    self.lemma_reach_join(x, s, g0, Flow::Out, Weight::Unknown);
                }
            }
            assert(g.contains(x));
            assert(self.edges@[f].source == g0 && self.edges@[f].target == x);
        }
    }

    /// A fenced walk of `n` steps reaches its end within `n` steps.
    proof fn lemma_walk_along(&self, p: Seq<i64>, allowed: Seq<i64>)
        requires
            p.len() >= 1,
            self.walk(p, Weight::Unknown),
            forall|i: int| 1 <= i < p.len() ==> permits(true, allowed, #[trigger] p[i]),
        ensures
            self.along(p[0], Weight::Unknown, true, allowed, (p.len() - 1) as nat, p.last()),
        decreases p.len(),
    {
        if p.len() > 1 {
            let q = p.drop_last();
            assert forall|i: int| 0 <= i < q.len() - 1 implies #[trigger] self.hop(q[i], q[i + 1], Flow::Out, Weight::Unknown) by {
                assert(self.hop(p[i], p[i + 1], Flow::Out, Weight::Unknown));
            }
            assert forall|i: int| 1 <= i < q.len() implies permits(true, allowed, #[trigger] q[i]) by {
                assert(permits(true, allowed, p[i]));
            }
            self.lemma_walk_along(q, allowed);
            let n = (p.len() - 1) as nat;
            assert(self.hop(p[p.len() - 2], p[p.len() - 2 + 1], Flow::Out, Weight::Unknown));
            assert(permits(true, allowed, p[p.len() - 1]));
            assert(self.along(p[0], Weight::Unknown, true, allowed, (n - 1) as nat, q.last()));
        }
    }

    /// A shortest fenced walk visits no key twice.
    proof fn lemma_shortest_simple(&self, p: Seq<i64>, allowed: Seq<i64>)
        requires
            p.len() >= 1,
            self.walk(p, Weight::Unknown),
            forall|i: int| 1 <= i < p.len() ==> permits(true, allowed, #[trigger] p[i]),
            forall|k: nat| k < p.len() - 1 ==> !#[trigger] self.along(p[0], Weight::Unknown, true, allowed, k, p.last()),
        ensures
            p.no_duplicates(),
    {
        assert forall|i: int, j: int| 0 <= i < p.len() && 0 <= j < p.len() && i != j implies p[i] != p[j] by {
            if p[i] == p[j] {
                let (a, b) = if i < j { (i, j) } else { (j, i) };
                let q = p.take(a + 1) + p.skip(b + 1);
                assert(q.len() == p.len() - (b - a));
                assert forall|u: int| 0 <= u < q.len() - 1 implies #[trigger] self.hop(q[u], q[u + 1], Flow::Out, Weight::Unknown) by {
                    if u < a {
                        assert(q[u] == p[u] && q[u + 1] == p[u + 1]);
                    } else if u == a {
                        assert(q[u] == p[b] && q[u + 1] == p[b + 1]);
                        assert(self.hop(p[b], p[b + 1], Flow::Out, Weight::Unknown));
                    } else {
                        assert(q[u] == p[u + (b - a)] && q[u + 1] == p[u + 1 + (b - a)]);
                        assert(self.hop(p[u + (b - a)], p[u + (b - a) + 1], Flow::Out, Weight::Unknown));
                    }
                }
                assert forall|u: int| 1 <= u < q.len() implies permits(true, allowed, #[trigger] q[u]) by {
                    if u <= a {
                        assert(q[u] == p[u]);
                    } else {
                        assert(q[u] == p[u + (b - a)]);
                    }
                }
                assert(q[0] == p[0]);
                assert(q.last() == p.last()) by {
                    if b == p.len() - 1 {
                        assert(q.last() == p[a]);
                    } else {
                        assert(q.last() == p[q.len() - 1 + (b - a)]);
                    }
                }
                self.lemma_walk_along(q, allowed);
                let k = (q.len() - 1) as nat;
                assert(!self.along(p[0], Weight::Unknown, true, allowed, k, p.last()));
            }
        }
    }

    /// The directed cycle of a group: from its first key along its first
    /// edge inside the group, then a shortest way back inside the group; or
    /// `None` when no edge lies inside the group.
    fn cycle(&self, group: &Vec<i64>) -> (r: Option<Vec<i64>>)
        requires
            group@.len() >= 1,
            forall|y: i64| #[trigger] group@.contains(y) <==> self.mutual(group@[0], y),
        ensures
            r is Some <==> (self.looped())(group@),
            r matches Some(c) ==> self.circuit(c@, group@),
    {
        let source = group[0];
        let mut i: usize = 0;
        while i < self.edges.len()
            invariant
                source == group@[0],
                i <= self.edges@.len(),
                group@.len() >= 1,
                forall|y: i64| #[trigger] group@.contains(y) <==> self.mutual(group@[0], y),
                forall|f: int| 0 <= f < i ==> !(#[trigger] self.edges@[f].source == group@[0] && group@.contains(self.edges@[f].target)),
            decreases self.edges@.len() - i,
        {
            let edge = &self.edges[i];
            assert(*edge == self.edges@[i as int]);
            if edge.source == source && member(group, edge.target) {
                let target = edge.target;
                proof {
                    assert(group@.contains(source));
                    assert((self.looped())(group@));
                    assert(carries(self.edges@[i as int], source, target, Flow::Out, Weight::Unknown));
                    assert(self.hop(source, target, Flow::Out, Weight::Unknown));
                    assert(self.first_inside(group@, i as int));
                }
                let found = self.search(target, source, Weight::Unknown, group, true, true);
                match found {
                    Some(p) => {
                        let mut c: Vec<i64> = Vec::new();
                        c.push(source);
                        let mut u: usize = 0;
                        while u < p.len()
                            invariant
                                u <= p@.len(),
                                c@.len() == u + 1,
                                c@[0] == source,
                                forall|w: int| 0 <= w < u ==> c@[w + 1] == p@[w],
                            decreases p@.len() - u,
                        {
                            c.push(p[u]);
                            u = u + 1;
                        }
                        proof {
                            assert(c@ =~= seq![source] + p@);
                            assert(p@[0] == target);
                            assert(group@.contains(target));
                            assert forall|w: int| 0 <= w < c@.len() implies group@.contains(#[trigger] c@[w]) by {
                                if w == 0 {
                                } else if w == 1 {
                                    assert(c@[1] == p@[0]);
                                } else {
                                    assert(c@[w] == p@[w - 1]);
                                    assert(permits(true, group@, p@[w - 1]));
                                }
                            }
                            assert forall|w: int| 0 <= w < c@.len() - 1 implies #[trigger] self.hop(c@[w], c@[w + 1], Flow::Out, Weight::Unknown) by {
                                if w == 0 {
                                    assert(c@[1] == p@[0]);
                                } else {
                                    assert(c@[w] == p@[w - 1] && c@[w + 1] == p@[w]);
                                    assert(self.hop(p@[w - 1], p@[(w - 1) + 1], Flow::Out, Weight::Unknown));
                                }
                            }
                            assert(c@.last() == p@.last());
                            self.lemma_shortest_simple(p@, group@);
                            let head = c@.subrange(0, c@.len() - 1);
                            assert(head =~= seq![source] + p@.drop_last());
                            assert forall|a: int, b: int| 0 <= a < head.len() && 0 <= b < head.len() && a != b implies head[a] != head[b] by {
                                if a == 0 && b > 0 {
                                    assert(head[b] == p@[b - 1]);
                                    assert(p@[p@.len() - 1] == source);
                                } else if b == 0 && a > 0 {
                                    assert(head[a] == p@[a - 1]);
                                    assert(p@[p@.len() - 1] == source);
                                } else if a > 0 && b > 0 {
                                    assert(head[a] == p@[a - 1] && head[b] == p@[b - 1]);
                                }
                            }
                            assert(c@[1] == target);
                            assert forall|k: nat| k < c@.len() - 2 implies !#[trigger] self.along(c@[1], Weight::Unknown, true, group@, k, group@[0]) by {
                                assert(k < p@.len() - 1);
                            }
                        }
                        return Some(c);
                    },
                    None => {
                        proof {
                            let g0 = group@[0];
                            assert(group@.contains(g0));
                            assert(self.mutual(g0, target));
                            assert(self.mutual(g0, source));
                            self.lemma_mutual_join(target, g0, source);
                            if target == source {
                                assert(self.within(target, Flow::Out, Weight::Unknown, 0, source));
                            }
                            let k = choose|k: nat| #[trigger] self.within(target, Flow::Out, Weight::Unknown, k, source);
                            self.lemma_fenced_walk(group@, target, k, source);
                        }
                    },
                }
            }
            i = i + 1;
        }
        proof {
            if (self.looped())(group@) {
                self.lemma_first_inside(group@);
                let e = choose|e: int| 0 <= e < self.edges@.len() && self.edges@[e].source == group@[0] && #[trigger] group@.contains(self.edges@[e].target);
                assert(!(self.edges@[e].source == group@[0] && group@.contains(self.edges@[e].target)));
            }
        }
        None
    }

    /// One circuit inside each strongly connected component that has an
    /// edge inside it, in the order of the components.
    pub fn cycles(&self) -> (r: Vec<Vec<i64>>)
        ensures
            exists|groups: Seq<Seq<i64>>| self.components(groups) && self.circuits(groups, r.deep_view()),
    {
        let groups = self.scc();
        let ghost d = groups.deep_view();
        let mut out: Vec<Vec<i64>> = Vec::new();
        let mut g: usize = 0;
        while g < groups.len()
            invariant
                g <= groups@.len(),
                d == groups.deep_view(),
                self.components(d),
                out.deep_view().len() == d.take(g as int).filter(self.looped()).len(),
                forall|j: int| 0 <= j < out.deep_view().len() ==> self.circuit(#[trigger] out.deep_view()[j], d.take(g as int).filter(self.looped())[j]),
            decreases groups@.len() - g,
        {
            let group = &groups[g];
            assert(group@ == d[g as int]);
            assert(d[g as int].len() >= 1);
            let found = self.cycle(group);
            proof {
                assert(d.take(g + 1) =~= d.take(g as int).push(d[g as int]));
                d.take(g as int).lemma_filter_push(d[g as int], self.looped());
            }
            let ghost prior = out.deep_view();
            match found {
                Some(c) => {
                    let ghost cv = c@;
                    out.push(c);
                    proof {
                        assert(self.circuit(cv, d[g as int]));
                        assert(d.take(g + 1).filter(self.looped()) =~= d.take(g as int).filter(self.looped()).push(d[g as int]));
                        assert forall|j: int| 0 <= j < out.deep_view().len() implies self.circuit(#[trigger] out.deep_view()[j], d.take(g + 1).filter(self.looped())[j]) by {
                            if j < prior.len() {
                                assert(out.deep_view()[j] == prior[j]);
                                assert(d.take(g + 1).filter(self.looped())[j] == d.take(g as int).filter(self.looped())[j]);
                            } else {
                                assert(out.deep_view()[j] == cv);
                                assert(d.take(g + 1).filter(self.looped())[j] == d[g as int]);
                            }
                        }
                    }
                },
                None => {},
            }
            g = g + 1;
        }
        proof {
            assert(d.take(d.len() as int) =~= d);
        }
        out
    }

    /// A simple route: a walk from `source` to `target` along outgoing
    /// edges at `minimum` that visits no key twice.
    pub open spec fn route(&self, p: Seq<i64>, source: i64, target: i64, minimum: Weight) -> bool {
        &&& p.len() >= 1
        &&& p[0] == source
        &&& p.last() == target
        &&& p.no_duplicates()
        &&& self.walk(p, minimum)
    }

    /// `p` comes before `q` depth first in node order: they agree up to a
    /// key where `p` takes a node that comes earlier in the graph.
    pub open spec fn ahead(&self, p: Seq<i64>, q: Seq<i64>) -> bool {
        exists|i: int| 0 <= i < p.len() && i < q.len() && p.take(i) == q.take(i) && #[trigger] self.order(p[i]) < #[trigger] self.order(q[i])
    }

    /// No route of the list comes, depth first in node order, before one
    /// listed ahead of it.
    pub open spec fn listed(&self, s: Seq<Seq<i64>>) -> bool {
        forall|x: int, y: int| 0 <= x < y < s.len() ==> !self.ahead(#[trigger] s[y], #[trigger] s[x])
    }

    /// A simple walk from `source` that the search may still extend.
    pub open spec fn trail(&self, p: Seq<i64>, source: i64, minimum: Weight) -> bool {
        &&& p.len() >= 1
        &&& p[0] == source
        &&& p.no_duplicates()
        &&& self.walk(p, minimum)
        &&& forall|i: int| 1 <= i < p.len() ==> self.marked(#[trigger] p[i])
    }

    /// A route down a later successor never comes before one down an
    /// earlier successor.
    proof fn lemma_branch_ahead(&self, q: Seq<i64>, w: Seq<i64>, base: Seq<i64>, next: Seq<i64>, j: int)
        requires
            self.graded(next),
            next.no_duplicates(),
            0 <= j < next.len(),
            extends(q, base),
            branch(q, base, next, j),
            extends(w, base.push(next[j])),
        ensures
            !self.ahead(w, q),
    {
        let b = base.len() as int;
        let u = choose|u: int| 0 <= u < j && next[u] == #[trigger] q[b];
        assert(w[b] == w.take(b + 1)[b]);
        assert(w.take(b + 1)[b] == next[j]);
        if self.ahead(w, q) {
            let i = choose|i: int| 0 <= i < w.len() && i < q.len() && w.take(i) == q.take(i) && #[trigger] self.order(w[i]) < #[trigger] self.order(q[i]);
            if i < b {
                assert(w[i] == w.take(b + 1)[i]);
                assert(w.take(b + 1)[i] == base[i]);
                assert(q[i] == q.take(b)[i]);
            } else if i == b {
                assert(self.order(next[u]) <= self.order(next[j]));
            } else {
                assert(w[b] == w.take(i)[b]);
                assert(q[b] == q.take(i)[b]);
            }
        }
    }

    /// Records, after the routes already found, every simple route that
    /// extends `path`, visiting successors in node order; `false` as soon as
    /// more than `limit` routes are found.
    fn explore(&self, node: i64, path: &mut Vec<i64>, target: i64, minimum: Weight, limit: usize, found: &mut Vec<Vec<i64>>, Ghost(source): Ghost<i64>) -> (r: bool)
        requires
            self.trail(old(path)@, source, minimum),
            old(path)@.last() == node,
            old(found).deep_view().no_duplicates(),
            old(found).deep_view().len() <= limit,
            forall|q: Seq<i64>| #[trigger] old(found).deep_view().contains(q) ==> self.route(q, source, target, minimum) && !extends(q, old(path)@),
            self.listed(old(found).deep_view()),
            forall|q: Seq<i64>, w: Seq<i64>| #[trigger] old(found).deep_view().contains(q) && #[trigger] self.route(w, source, target, minimum) && extends(w, old(path)@) ==> !self.ahead(w, q),
        ensures
            final(path)@ == old(path)@,
            r ==> self.listed(final(found).deep_view()),
            final(found).deep_view().no_duplicates(),
            forall|q: Seq<i64>| #[trigger] final(found).deep_view().contains(q) ==> self.route(q, source, target, minimum),
            r ==> final(found).deep_view().len() <= limit,
            r ==> forall|q: Seq<i64>| #[trigger] final(found).deep_view().contains(q) <==> (old(found).deep_view().contains(q) || (self.route(q, source, target, minimum) && extends(q, old(path)@))),
            !r ==> final(found).deep_view().len() == limit + 1,
        decreases 2 * self.edges@.len() + 1 - old(path)@.len(),
    {
        proof {
            self.lemma_marked_bound(path@.drop_first());
        }
        let ghost base = path@;
        let ghost found0 = found.deep_view();
        if node == target {
            let copy = path.clone();
            proof {
                assert(copy@ =~= path@);
                assert(copy.deep_view() =~= base);
            }
            found.push(copy);
            proof {
                assert(found.deep_view() =~= found0.push(base));
                assert forall|q: Seq<i64>| #[trigger] found.deep_view().contains(q) <==> (found0.contains(q) || (self.route(q, source, target, minimum) && extends(q, base))) by {
                    lemma_push_contains(found0, base, q);
                    if self.route(q, source, target, minimum) && extends(q, base) {
                        if q.len() > base.len() {
                            assert(q[base.len() - 1] == q.take(base.len() as int)[base.len() - 1]);
                            assert(q[q.len() - 1] == target);
                        }
                        assert(q =~= base) by {
                            assert(q.len() == base.len());
                            assert forall|i: int| 0 <= i < q.len() implies q[i] == base[i] by {
                                assert(q.take(base.len() as int)[i] == q[i]);
                            }
                        }
                    }
                    if q == base {
                        assert(base.take(base.len() as int) =~= base);
                    }
                }
                assert(!found0.contains(base)) by {
                    assert(base.take(base.len() as int) =~= base);
                }
                assert(found.deep_view().no_duplicates()) by {
                    assert forall|x: int, y: int| 0 <= x < found.deep_view().len() && 0 <= y < found.deep_view().len() && x != y implies found.deep_view()[x] != found.deep_view()[y] by {
                        if x < found0.len() && y < found0.len() {
                        } else if x < found0.len() {
                            assert(found0.contains(found0[x]));
                        } else {
                            assert(found0.contains(found0[y]));
                        }
                    }
                }
                assert forall|q: Seq<i64>| #[trigger] found.deep_view().contains(q) implies self.route(q, source, target, minimum) by {
                    lemma_push_contains(found0, base, q);
                    if found0.contains(q) {
                    } else {
                        assert(q == base);
                    }
                }
                assert(self.route(base, source, target, minimum));
                assert(extends(base, base)) by {
                    assert(base.take(base.len() as int) =~= base);
                }
                assert(self.listed(found.deep_view())) by {
                    let f = found.deep_view();
                    assert forall|x: int, y: int| 0 <= x < y < f.len() implies !self.ahead(#[trigger] f[y], #[trigger] f[x]) by {
                        if y < found0.len() {
                            assert(f[x] == found0[x] && f[y] == found0[y]);
                        } else {
                            assert(f[x] == found0[x] && f[y] == base);
                            assert(found0.contains(found0[x]));
                        }
                    }
                }
            }
            return found.len() <= limit;
        }
        let next = self.steps(node, Flow::Out, minimum);
        let mut j: usize = 0;
        while j < next.len()
            invariant
                path@ == base,
                base == old(path)@,
                found0 == old(found).deep_view(),
                self.trail(base, source, minimum),
                base.last() == node,
                node != target,
                j <= next@.len(),
                next@.no_duplicates(),
                forall|y: i64| #[trigger] next@.contains(y) <==> self.hop(node, y, Flow::Out, minimum),
                found.deep_view().no_duplicates(),
                found.deep_view().len() <= limit,
                forall|q: Seq<i64>| #[trigger] found0.contains(q) ==> self.route(q, source, target, minimum) && !extends(q, base),
                forall|q: Seq<i64>| #[trigger] found.deep_view().contains(q) <==> (found0.contains(q) || (self.route(q, source, target, minimum) && extends(q, base) && branch(q, base, next@, j as int))),
                self.graded(next@),
                self.listed(found.deep_view()),
                forall|q: Seq<i64>, w: Seq<i64>| #[trigger] found0.contains(q) && #[trigger] self.route(w, source, target, minimum) && extends(w, base) ==> !self.ahead(w, q),
            decreases next@.len() - j,
        {
            let n = next[j];
            assert(next@.contains(n));
            if !member(path, n) {
                path.push(n);
                let ghost ext = path@;
                proof {
                    assert(ext =~= base.push(n));
                    self.lemma_hop_marked(node, n, Flow::Out, minimum);
                    assert(self.trail(ext, source, minimum)) by {
                        assert forall|i: int| 0 <= i < ext.len() - 1 implies #[trigger] self.hop(ext[i], ext[i + 1], Flow::Out, minimum) by {
                            if i < base.len() - 1 {
                                assert(ext[i] == base[i] && ext[i + 1] == base[i + 1]);
                            } else {
                                assert(ext[i] == node && ext[i + 1] == n);
                            }
                        }
                        assert forall|x: int, y: int| 0 <= x < ext.len() && 0 <= y < ext.len() && x != y implies ext[x] != ext[y] by {
                            if x < base.len() && y < base.len() {
                                assert(ext[x] == base[x] && ext[y] == base[y]);
                            } else if x < base.len() {
                                assert(ext[x] == base[x]);
                                assert(base.contains(base[x]));
                            } else if y < base.len() {
                                assert(ext[y] == base[y]);
                                assert(base.contains(base[y]));
                            }
                        }
                        assert forall|i: int| 1 <= i < ext.len() implies self.marked(#[trigger] ext[i]) by {
                            if i < base.len() {
                                assert(ext[i] == base[i]);
                            }
                        }
                    }
                    assert forall|t: int| 0 <= t < ext.drop_first().len() implies self.marked(#[trigger] ext.drop_first()[t]) by {
                        assert(ext.drop_first()[t] == ext[t + 1]);
                    }
                    self.lemma_marked_bound(ext.drop_first());
                    assert forall|q: Seq<i64>| #[trigger] found.deep_view().contains(q) implies self.route(q, source, target, minimum) && !extends(q, ext) by {
                        lemma_extends_push(q, base, n);
                        if !found0.contains(q) && extends(q, ext) {
                            let u = choose|u: int| 0 <= u < j && next@[u] == #[trigger] q[base.len() as int];
                            assert(next@[u] == next@[j as int]);
                        }
                    }
                }
                let ghost before = found.deep_view();
                proof {
                    assert forall|q: Seq<i64>, w: Seq<i64>| #[trigger] found.deep_view().contains(q) && #[trigger] self.route(w, source, target, minimum) && extends(w, ext) implies !self.ahead(w, q) by {
                        lemma_extends_push(w, base, n);
                        assert(extends(w, base));
                        if !found0.contains(q) {
                            self.lemma_branch_ahead(q, w, base, next@, j as int);
                        }
                    }
                }
                let ok = self.explore(n, path, target, minimum, limit, found, Ghost(source));
                let popped = path.pop();
                proof {
                    assert(path@ =~= base);
                }
                if !ok {
                    return false;
                }
                proof {
                    assert forall|q: Seq<i64>| #[trigger] found.deep_view().contains(q) <==> (found0.contains(q) || (self.route(q, source, target, minimum) && extends(q, base) && branch(q, base, next@, j + 1))) by {
                        lemma_extends_push(q, base, n);
                        lemma_branch_step(q, base, next@, j as int);
                    }
                }
            } else {
                proof {
                    assert forall|q: Seq<i64>| #[trigger] found.deep_view().contains(q) <==> (found0.contains(q) || (self.route(q, source, target, minimum) && extends(q, base) && branch(q, base, next@, j + 1))) by {
                        lemma_branch_step(q, base, next@, j as int);
                        if self.route(q, source, target, minimum) && extends(q, base) && q.len() > base.len() && q[base.len() as int] == n {
                            let w = choose|w: int| 0 <= w < base.len() && base[w] == n;
                            assert(q.take(base.len() as int)[w] == q[w]);
                            assert(q[w] == q[base.len() as int]);
                        }
                    }
                }
            }
            j = j + 1;
        }
        proof {
            assert forall|q: Seq<i64>| #[trigger] found.deep_view().contains(q) <==> (found0.contains(q) || (self.route(q, source, target, minimum) && extends(q, base))) by {
                if self.route(q, source, target, minimum) && extends(q, base) {
                    if q.len() == base.len() {
                        assert(q =~= base) by {
                            assert forall|i: int| 0 <= i < q.len() implies q[i] == base[i] by {
                                assert(q.take(base.len() as int)[i] == q[i]);
                            }
                        }
                    }
                    let y = q[base.len() as int];
                    assert(q[base.len() - 1] == q.take(base.len() as int)[base.len() - 1]);
                    assert(self.hop(q[base.len() - 1], q[(base.len() - 1) + 1], Flow::Out, minimum));
                    assert(next@.contains(y));
                    let u = choose|u: int| 0 <= u < next@.len() && next@[u] == y;
                    assert(branch(q, base, next@, next@.len() as int));
                }
            }
        }
        true
    }

    /// Every simple route from `source` to `target` along outgoing edges at
    /// `minimum`, or a refusal when there are more than `limit` of them.
    pub fn paths(&self, source: i64, target: i64, minimum: Weight, limit: usize) -> (r: Result<Vec<Vec<i64>>, Error>)
        ensures
            match r {
                Ok(found) => {
                    &&& found.deep_view().no_duplicates()
                    &&& found.deep_view().len() <= limit
                    &&& forall|q: Seq<i64>| #[trigger] found.deep_view().contains(q) <==> self.route(q, source, target, minimum)
                    &&& self.listed(found.deep_view())
                },
                Err(e) => {
                    &&& e.coded("concord.graph.limit"@)
                    &&& e.message@ == "directed path result exceeds "@ + decimal(limit as int)
                    &&& exists|w: Seq<Seq<i64>>| w.len() == limit + 1 && w.no_duplicates() && forall|i: int| 0 <= i < w.len() ==> self.route(#[trigger] w[i], source, target, minimum)
                },
            },
    {
        let mut found: Vec<Vec<i64>> = Vec::new();
        let mut path: Vec<i64> = Vec::new();
        path.push(source);
        proof {
            assert(found.deep_view() =~= Seq::<Seq<i64>>::empty());
            assert forall|i: int| 0 <= i < path@.len() - 1 implies #[trigger] self.hop(path@[i], path@[i + 1], Flow::Out, minimum) by {}
        }
        let ok = self.explore(source, &mut path, target, minimum, limit, &mut found, Ghost(source));
        if !ok {
            proof {
                let w = found.deep_view();
                assert forall|i: int| 0 <= i < w.len() implies self.route(#[trigger] w[i], source, target, minimum) by {
                    assert(w.contains(w[i]));
                }
            }
            return Err(Error::typed("concord.graph.limit", join("directed path result exceeds ", render_usize(limit).as_str())));
        }
        proof {
            assert forall|q: Seq<i64>| #[trigger] found.deep_view().contains(q) <==> self.route(q, source, target, minimum) by {
                if self.route(q, source, target, minimum) {
                    assert(q.take(1) =~= path@);
                }
            }
        }
        Ok(found)
    }

    /// One more step from `source` finds no key that `level` steps miss.
    pub open spec fn settled_at(&self, source: i64, flow: Flow, minimum: Weight, level: nat) -> bool {
        forall|y: i64| #[trigger] self.within(source, flow, minimum, level + 1, y) ==> self.within(source, flow, minimum, level, y)
    }

    /// Edge `e` carries a step from a key `level` steps out to `y`.
    pub open spec fn fed(&self, source: i64, flow: Flow, minimum: Weight, level: nat, y: i64, e: int) -> bool {
        &&& 0 <= e < self.edges@.len()
        &&& exists|x: i64| #[trigger] self.within(source, flow, minimum, level, x) && carries(self.edges@[e], x, y, flow, minimum)
    }

    /// The walks from a key stop finding new keys within as many steps as
    /// there are edges: each level that finds a new key spends an edge that
    /// no later level can use again.
    proof fn lemma_settled_level(&self, source: i64, flow: Flow, minimum: Weight)
        ensures
            exists|level: nat| level <= self.edges@.len() && #[trigger] self.settled_at(source, flow, minimum, level),
    {
        let n = self.edges@.len();
        if !exists|level: nat| level <= n && #[trigger] self.settled_at(source, flow, minimum, level) {
            let keys = Seq::new((n + 1) as nat, |i: int| choose|y: i64| #[trigger] self.within(source, flow, minimum, (i + 1) as nat, y) && !self.within(source, flow, minimum, i as nat, y));
            assert forall|i: int| 0 <= i < keys.len() implies self.within(source, flow, minimum, (i + 1) as nat, #[trigger] keys[i]) && !self.within(source, flow, minimum, i as nat, keys[i]) by {
                let level = i as nat;
                assert(!self.settled_at(source, flow, minimum, level));
            }
            let wit = Seq::new((n + 1) as nat, |i: int| choose|e: int| #[trigger] self.fed(source, flow, minimum, i as nat, keys[i], e));
            assert forall|i: int| 0 <= i < wit.len() implies #[trigger] self.fed(source, flow, minimum, i as nat, keys[i], wit[i]) by {
                let y = keys[i];
                assert(self.within(source, flow, minimum, (i + 1) as nat, y));
                let x = choose|x: i64| #![trigger self.hop(x, y, flow, minimum)] self.within(source, flow, minimum, i as nat, x) && self.hop(x, y, flow, minimum);
                let e = choose|e: int| 0 <= e < self.edges@.len() && carries(#[trigger] self.edges@[e], x, y, flow, minimum);
                assert(self.fed(source, flow, minimum, i as nat, y, e));
            }
            assert(wit.no_duplicates()) by {
                assert forall|a: int, b: int| 0 <= a < wit.len() && 0 <= b < wit.len() && a != b implies wit[a] != wit[b] by {
                    let (i, j) = if a < b { (a, b) } else { (b, a) };
                    assert(self.fed(source, flow, minimum, i as nat, keys[i], wit[i]));
                    assert(self.fed(source, flow, minimum, j as nat, keys[j], wit[j]));
                    if wit[i] == wit[j] {
                        let e = self.edges@[wit[i]];
                        let xi = choose|x: i64| #[trigger] self.within(source, flow, minimum, i as nat, x) && carries(e, x, keys[i], flow, minimum);
                        let xj = choose|x: i64| #[trigger] self.within(source, flow, minimum, j as nat, x) && carries(e, x, keys[j], flow, minimum);
                        assert(self.within(source, flow, minimum, (i + 1) as nat, keys[i]));
                        self.lemma_within_grows(source, flow, minimum, (i + 1) as nat, j as nat, keys[i]);
                        self.lemma_within_grows(source, flow, minimum, i as nat, j as nat, xi);
                        assert(!self.within(source, flow, minimum, j as nat, keys[j]));
                        assert(keys[j] == xi || keys[j] == keys[i]);
                    }
                }
            }
            let m = n as int;
            wit.unique_seq_to_set();
            vstd::set_lib::lemma_int_range(0, m);
            assert forall|x: int| wit.to_set().contains(x) implies vstd::set_lib::set_int_range(0, m).contains(x) by {
                let a = choose|a: int| 0 <= a < wit.len() && wit[a] == x;
                assert(self.fed(source, flow, minimum, a as nat, keys[a], wit[a]));
            }
            vstd::set_lib::lemma_len_subset(wit.to_set(), vstd::set_lib::set_int_range(0, m));
        }
    }

    /// Whatever a key reaches, it reaches within as many steps as there are
    /// edges.
    proof fn lemma_reach_bounded(&self, source: i64, flow: Flow, minimum: Weight, y: i64)
        requires
            self.reachable(source, flow, minimum, y),
        ensures
            self.within(source, flow, minimum, self.edges@.len() as nat, y),
    {
        let n = self.edges@.len() as nat;
        self.lemma_settled_level(source, flow, minimum);
        let level = choose|level: nat| level <= n && #[trigger] self.settled_at(source, flow, minimum, level);
        let k = choose|k: nat| #[trigger] self.within(source, flow, minimum, k, y);
        if k <= n {
            self.lemma_within_grows(source, flow, minimum, k, n, y);
        } else {
            self.lemma_within_settles(source, flow, minimum, level, k);
            assert(self.within(source, flow, minimum, level, y));
            self.lemma_within_grows(source, flow, minimum, level, n, y);
        }
    }

    /// The reach of a key is its neighbourhood at the greatest depth: a key
    /// lies within `usize::MAX` steps exactly when it is reachable at all, so
    /// `reach` and `neighbors` at that depth list the same keys, in the same
    /// order.
    pub proof fn law_reach_is_deepest_neighbors(&self, source: i64, flow: Flow, minimum: Weight, reached: Seq<i64>, near: Seq<i64>)
        requires
            forall|y: i64| #[trigger] reached.contains(y) <==> (y != source && self.reachable(source, flow, minimum, y)),
            self.arranged(reached),
            forall|y: i64| #[trigger] near.contains(y) <==> (y != source && self.within(source, flow, minimum, usize::MAX as nat, y)),
            self.arranged(near),
        ensures
            forall|y: i64| #[trigger] self.within(source, flow, minimum, usize::MAX as nat, y) <==> self.reachable(source, flow, minimum, y),
            reached == near,
    {
        assert forall|y: i64| #[trigger] self.within(source, flow, minimum, usize::MAX as nat, y) <==> self.reachable(source, flow, minimum, y) by {
            if self.reachable(source, flow, minimum, y) {
                self.lemma_reach_bounded(source, flow, minimum, y);
                assert(self.edges@.len() <= usize::MAX) by {
                    assert(self.edges.len() == self.edges@.len());
                }
                self.lemma_within_grows(source, flow, minimum, self.edges@.len() as nat, usize::MAX as nat, y);
            }
        }
        assert forall|y: i64| reached.contains(y) <==> near.contains(y) by {
            if self.reachable(source, flow, minimum, y) {
                assert(self.within(source, flow, minimum, usize::MAX as nat, y));
            }
        }
        self.lemma_arranged_unique(reached, near);
    }

    /// What a Task reaches against the flow is what reaches it along the
    /// flow: `b` is upstream of `a` exactly when `a` is downstream of `b`.
    pub proof fn law_reach_reverses(&self, a: i64, b: i64, minimum: Weight)
        ensures
            self.reachable(a, Flow::In, minimum, b) == self.reachable(b, Flow::Out, minimum, a),
    {
        self.lemma_reach_reverse(a, b, minimum);
    }

    /// Reachability composes: what a Task reaches, it reaches through.
    pub proof fn law_reach_transitive(&self, a: i64, b: i64, c: i64, flow: Flow, minimum: Weight)
        requires
            self.reachable(a, flow, minimum, b),
            self.reachable(b, flow, minimum, c),
        ensures
            self.reachable(a, flow, minimum, c),
    {
        self.lemma_reach_join(a, b, c, flow, minimum);
    }

    /// A neighborhood only grows with its depth, and every neighbor is
    /// reachable.
    pub proof fn law_neighbors_grow(&self, source: i64, flow: Flow, minimum: Weight, a: nat, b: nat, y: i64)
        requires
            a <= b,
            self.within(source, flow, minimum, a, y),
        ensures
            self.within(source, flow, minimum, b, y),
            self.reachable(source, flow, minimum, y),
    {
        self.lemma_within_grows(source, flow, minimum, a, b, y);
    }

    /// Raising the minimum weight only removes neighbors.
    pub proof fn law_minimum_narrows(&self, source: i64, flow: Flow, low: Weight, high: Weight, depth: nat, y: i64)
        requires
            low.level() <= high.level(),
            self.within(source, flow, high, depth, y),
        ensures
            self.within(source, flow, low, depth, y),
        decreases depth,
    {
        if depth > 0 {
            let prior = (depth - 1) as nat;
            if self.within(source, flow, high, prior, y) {
                self.law_minimum_narrows(source, flow, low, high, prior, y);
            } else {
                let x = choose|x: i64| #![trigger self.hop(x, y, flow, high)] self.within(source, flow, high, prior, x) && self.hop(x, y, flow, high);
                self.law_minimum_narrows(source, flow, low, high, prior, x);
                let i = choose|i: int| 0 <= i < self.edges@.len() && carries(#[trigger] self.edges@[i], x, y, flow, high);
                assert(carries(self.edges@[i], x, y, flow, low));
                assert(self.hop(x, y, flow, low));
            }
        }
    }

    /// Two lists in graph order with the same members are the same list.
    pub proof fn lemma_arranged_unique(&self, s: Seq<i64>, t: Seq<i64>)
        requires
            self.arranged(s),
            self.arranged(t),
            forall|y: i64| s.contains(y) <==> t.contains(y),
        ensures
            s == t,
        decreases s.len(),
    {
        if s.len() == 0 {
            if t.len() > 0 {
                assert(t.contains(t[0]));
            }
            assert(s =~= t);
        } else {
            assert(s.contains(s[0]));
            if t.len() == 0 {
                assert(false);
            }
            assert(t.contains(t[0]));
            self.lemma_before_total(s[0], t[0]);
            if s[0] != t[0] {
                let a = choose|a: int| 0 <= a < s.len() && s[a] == t[0];
                let b = choose|b: int| 0 <= b < t.len() && t[b] == s[0];
                assert(a != 0);
                assert(b != 0);
                assert(self.before(s[0], s[a]));
                assert(self.before(t[0], t[b]));
                assert(false);
            }
            self.lemma_arranged_distinct(s);
            self.lemma_arranged_distinct(t);
            let s1 = s.drop_first();
            let t1 = t.drop_first();
            assert forall|y: i64| s1.contains(y) <==> t1.contains(y) by {
                if s1.contains(y) {
                    let a = choose|a: int| 0 <= a < s1.len() && s1[a] == y;
                    assert(s[a + 1] == y);
                    assert(s.contains(y));
                    assert(y != s[0]);
                    let b = choose|b: int| 0 <= b < t.len() && t[b] == y;
                    assert(b != 0);
                    assert(t1[b - 1] == y);
                }
                if t1.contains(y) {
                    let b = choose|b: int| 0 <= b < t1.len() && t1[b] == y;
                    assert(t[b + 1] == y);
                    assert(t.contains(y));
                    assert(y != t[0]);
                    let a = choose|a: int| 0 <= a < s.len() && s[a] == y;
                    assert(a != 0);
                    assert(s1[a - 1] == y);
                }
            }
            assert forall|i: int, j: int| 0 <= i < j < s1.len() implies self.before(s1[i], s1[j]) by {
                assert(s1[i] == s[i + 1] && s1[j] == s[j + 1]);
            }
            assert forall|i: int, j: int| 0 <= i < j < t1.len() implies self.before(t1[i], t1[j]) by {
                assert(t1[i] == t[i + 1] && t1[j] == t[j + 1]);
            }
            self.lemma_arranged_unique(s1, t1);
            assert(s =~= seq![s[0]] + s1);
            assert(t =~= seq![t[0]] + t1);
        }
    }

    proof fn lemma_arranged_distinct(&self, s: Seq<i64>)
        requires
            self.arranged(s),
        ensures
            s.no_duplicates(),
    {
        assert forall|a: int, b: int| 0 <= a < s.len() && 0 <= b < s.len() && a != b implies s[a] != s[b] by {
            if a < b {
                self.lemma_before_total(s[a], s[b]);
            } else {
                self.lemma_before_total(s[b], s[a]);
            }
        }
    }

    /// A walk along outgoing edges at `minimum`.
    pub open spec fn walk(&self, p: Seq<i64>, minimum: Weight) -> bool {
        forall|i: int| 0 <= i < p.len() - 1 ==> #[trigger] self.hop(p[i], p[i + 1], Flow::Out, minimum)
    }

    /// The search tree that a breadth-first search from `source` records:
    /// `seen[t]` was found from `seen[from[t]]` at level `lvl[t]`.
    pub open spec fn tree(&self, source: i64, minimum: Weight, seen: Seq<i64>, from: Seq<usize>, lvl: Seq<usize>) -> bool {
        &&& seen.len() >= 1
        &&& seen.len() == from.len()
        &&& seen.len() == lvl.len()
        &&& seen[0] == source
        &&& lvl[0] == 0
        &&& forall|t: int| 1 <= t < seen.len() ==> {
            &&& #[trigger] from[t] < t
            &&& lvl[t] >= 1
            &&& lvl[from[t] as int] + 1 == lvl[t]
            &&& self.hop(seen[from[t] as int], seen[t], Flow::Out, minimum)
        }
    }

    /// The walk from `source` to `seen[f]` that the search tree records.
    fn trace(&self, seen: &Vec<i64>, from: &Vec<usize>, lvl: &Vec<usize>, f: usize, Ghost(source): Ghost<i64>, Ghost(minimum): Ghost<Weight>) -> (r: Vec<i64>)
        requires
            self.tree(source, minimum, seen@, from@, lvl@),
            f < seen@.len(),
        ensures
            r@.len() == lvl@[f as int] + 1,
            r@[0] == source,
            r@.last() == seen@[f as int],
            self.walk(r@, minimum),
            forall|i: int| 1 <= i < r@.len() ==> exists|t: int| 1 <= t < seen@.len() && seen@[t] == #[trigger] r@[i],
    {
        let mut back: Vec<i64> = Vec::new();
        let mut k: usize = f;
        back.push(seen[k]);
        while k != 0
            invariant
                self.tree(source, minimum, seen@, from@, lvl@),
                k < seen@.len(),
                back@.len() >= 1,
                back@.last() == seen@[k as int],
                back@[0] == seen@[f as int],
                back@.len() + lvl@[k as int] == lvl@[f as int] + 1,
                forall|j: int| 0 <= j < back@.len() - 1 ==> exists|t: int| 1 <= t < seen@.len() && seen@[t] == #[trigger] back@[j],
                f != 0 ==> back@[0] == seen@[f as int],
                k == f || 1 <= f,
                forall|j: int| 0 <= j < back@.len() - 1 ==> #[trigger] self.hop(back@[j + 1], back@[j], Flow::Out, minimum),
            decreases k,
        {
            let ghost prior = back@;
            let ghost kk = k as int;
            assert(1 <= kk < seen@.len());
            assert(from@[kk] < kk);
            k = from[k];
            back.push(seen[k]);
            proof {
                assert forall|j: int| 0 <= j < back@.len() - 1 implies exists|t: int| 1 <= t < seen@.len() && seen@[t] == #[trigger] back@[j] by {
                    if j < prior.len() - 1 {
                        assert(back@[j] == prior[j]);
                    } else {
                        assert(back@[j] == seen@[kk]);
                    }
                }
                assert forall|j: int| 0 <= j < back@.len() - 1 implies #[trigger] self.hop(back@[j + 1], back@[j], Flow::Out, minimum) by {
                    if j < prior.len() - 1 {
                        assert(back@[j] == prior[j] && back@[j + 1] == prior[j + 1]);
                    } else {
                        assert(back@[j] == seen@[kk] && back@[j + 1] == seen@[from@[kk] as int]);
                    }
                }
            }
        }
        assert(seen@[0] == source);
        let mut r: Vec<i64> = Vec::new();
        let mut j: usize = back.len();
        while j > 0
            invariant
                j <= back@.len(),
                r@.len() + j == back@.len(),
                forall|u: int| 0 <= u < r@.len() ==> r@[u] == back@[back@.len() - 1 - u],
            decreases j,
        {
            j = j - 1;
            r.push(back[j]);
        }
        proof {
            assert forall|i: int| 0 <= i < r@.len() - 1 implies #[trigger] self.hop(r@[i], r@[i + 1], Flow::Out, minimum) by {
                let j = back@.len() - 2 - i;
                assert(self.hop(back@[j + 1], back@[j], Flow::Out, minimum));
            }
            assert forall|i: int| 1 <= i < r@.len() implies exists|t: int| 1 <= t < seen@.len() && seen@[t] == #[trigger] r@[i] by {
                assert(r@[i] == back@[back@.len() - 1 - i]);
            }
        }
        r
    }

    /// `y` lies at most `depth` steps from `source` along outgoing edges at
    /// `minimum`, every step entering a permitted key.
    pub open spec fn along(&self, source: i64, minimum: Weight, fenced: bool, allowed: Seq<i64>, depth: nat, y: i64) -> bool
        decreases depth,
    {
        if depth == 0 {
            y == source
        } else {
            ||| self.along(source, minimum, fenced, allowed, (depth - 1) as nat, y)
            ||| exists|x: i64| #![trigger self.hop(x, y, Flow::Out, minimum)] self.along(source, minimum, fenced, allowed, (depth - 1) as nat, x) && self.hop(x, y, Flow::Out, minimum) && permits(fenced, allowed, y)
        }
    }

    proof fn lemma_along_grows(&self, source: i64, minimum: Weight, fenced: bool, allowed: Seq<i64>, a: nat, b: nat, y: i64)
        requires
            a <= b,
            self.along(source, minimum, fenced, allowed, a, y),
        ensures
            self.along(source, minimum, fenced, allowed, b, y),
        decreases b - a,
    {
        if a < b {
            self.lemma_along_grows(source, minimum, fenced, allowed, a, (b - 1) as nat, y);
        }
    }

    proof fn lemma_along_settles(&self, source: i64, minimum: Weight, fenced: bool, allowed: Seq<i64>, level: nat, depth: nat)
        requires
            level <= depth,
            forall|y: i64| #[trigger] self.along(source, minimum, fenced, allowed, level + 1, y) ==> self.along(source, minimum, fenced, allowed, level, y),
        ensures
            forall|y: i64| #[trigger] self.along(source, minimum, fenced, allowed, depth, y) == self.along(source, minimum, fenced, allowed, level, y),
        decreases depth - level,
    {
        if depth > level {
            self.lemma_along_settles(source, minimum, fenced, allowed, level, (depth - 1) as nat);
            assert forall|y: i64| #[trigger] self.along(source, minimum, fenced, allowed, depth, y) == self.along(source, minimum, fenced, allowed, level, y) by {
                let prior = (depth - 1) as nat;
                if self.along(source, minimum, fenced, allowed, depth, y) && !self.along(source, minimum, fenced, allowed, prior, y) {
                    let x = choose|x: i64| #![trigger self.hop(x, y, Flow::Out, minimum)] self.along(source, minimum, fenced, allowed, prior, x) && self.hop(x, y, Flow::Out, minimum) && permits(fenced, allowed, y);
                    assert(self.along(source, minimum, fenced, allowed, level, x));
                    assert(self.along(source, minimum, fenced, allowed, level + 1, y));
                }
                if self.along(source, minimum, fenced, allowed, level, y) {
                    self.lemma_along_grows(source, minimum, fenced, allowed, level, depth, y);
                }
            }
        }
    }

    /// Unfenced steps are plain outgoing steps.
    proof fn lemma_along_open(&self, source: i64, minimum: Weight, allowed: Seq<i64>, depth: nat, y: i64)
        ensures
            self.along(source, minimum, false, allowed, depth, y) == self.within(source, Flow::Out, minimum, depth, y),
        decreases depth,
    {
        if depth > 0 {
            let prior = (depth - 1) as nat;
            assert forall|x: i64| #[trigger] self.hop(x, y, Flow::Out, minimum) implies self.along(source, minimum, false, allowed, prior, x) == self.within(source, Flow::Out, minimum, prior, x) by {
                self.lemma_along_open(source, minimum, allowed, prior, x);
            }
            self.lemma_along_open(source, minimum, allowed, prior, y);
        }
    }

    /// The keys one outgoing step from `x` at `minimum`: in node order, each
    /// once, when `ranked`; else the targets of the edges in edge order.
    fn successors(&self, x: i64, minimum: Weight, ranked: bool) -> (r: Vec<i64>)
        ensures
            forall|y: i64| #[trigger] r@.contains(y) <==> self.hop(x, y, Flow::Out, minimum),
    {
        if ranked {
            return self.steps(x, Flow::Out, minimum);
        }
        let mut out: Vec<i64> = Vec::new();
        let mut i: usize = 0;
        while i < self.edges.len()
            invariant
                i <= self.edges@.len(),
                forall|y: i64| #[trigger] out@.contains(y) ==> self.hop(x, y, Flow::Out, minimum),
                forall|e: int| 0 <= e < i && #[trigger] carries(self.edges@[e], x, self.edges@[e].target, Flow::Out, minimum) ==> out@.contains(self.edges@[e].target),
            decreases self.edges@.len() - i,
        {
            let edge = &self.edges[i];
            assert(*edge == self.edges@[i as int]);
            if edge.source == x && edge.weight.reaches(minimum) {
                let ghost prior = out@;
                out.push(edge.target);
                proof {
                    assert(carries(self.edges@[i as int], x, edge.target, Flow::Out, minimum));
                    assert(out@[out@.len() - 1] == edge.target);
                    assert forall|y: i64| #[trigger] out@.contains(y) implies self.hop(x, y, Flow::Out, minimum) by {
                        let w = choose|w: int| 0 <= w < out@.len() && out@[w] == y;
                        if w < prior.len() {
                            assert(prior[w] == y);
                            assert(prior.contains(y));
                        }
                    }
                    assert forall|e: int| 0 <= e < i + 1 && #[trigger] carries(self.edges@[e], x, self.edges@[e].target, Flow::Out, minimum) implies out@.contains(self.edges@[e].target) by {
                        if e < i {
                            let w = choose|w: int| 0 <= w < prior.len() && prior[w] == self.edges@[e].target;
                            assert(out@[w] == prior[w]);
                        }
                    }
                }
            }
            i = i + 1;
        }
        proof {
            assert forall|y: i64| self.hop(x, y, Flow::Out, minimum) implies #[trigger] out@.contains(y) by {
                let e = choose|e: int| 0 <= e < self.edges@.len() && carries(#[trigger] self.edges@[e], x, y, Flow::Out, minimum);
                assert(carries(self.edges@[e], x, self.edges@[e].target, Flow::Out, minimum));
            }
        }
        out
    }

    /// Breadth-first search from `source` to `target` along outgoing edges
    /// at `minimum`, entering only permitted keys; successors are taken in
    /// node order when `ranked`, else in edge order.
    fn search(&self, source: i64, target: i64, minimum: Weight, allowed: &Vec<i64>, fenced: bool, ranked: bool) -> (r: Option<Vec<i64>>)
        ensures
            match r {
                None => forall|k: nat| !#[trigger] self.along(source, minimum, fenced, allowed@, k, target),
                Some(p) => {
                    &&& p@.len() >= 1
                    &&& p@[0] == source
                    &&& p@.last() == target
                    &&& self.walk(p@, minimum)
                    &&& forall|i: int| 1 <= i < p@.len() ==> permits(fenced, allowed@, #[trigger] p@[i])
                    &&& self.along(source, minimum, fenced, allowed@, (p@.len() - 1) as nat, target)
                    &&& forall|k: nat| k < p@.len() - 1 ==> !#[trigger] self.along(source, minimum, fenced, allowed@, k, target)
                },
            },
    {
        let mut seen: Vec<i64> = Vec::new();
        let mut from: Vec<usize> = Vec::new();
        let mut lvl: Vec<usize> = Vec::new();
        seen.push(source);
        from.push(0);
        lvl.push(0);
        if source == target {
            let mut p: Vec<i64> = Vec::new();
            p.push(source);
            return Some(p);
        }
        let ghost mut wit: Seq<int> = Seq::empty();
        let mut start: usize = 0;
        let mut level: usize = 0;
        proof {
            assert forall|y: i64| #[trigger] self.along(source, minimum, fenced, allowed@, 0, y) implies (exists|t: int| 0 <= t < seen@.len() && seen@[t] == y) by {
                assert(seen@[0] == y);
            }
        }
        while start < seen.len()
            invariant
                self.tree(source, minimum, seen@, from@, lvl@),
                seen@.no_duplicates(),
                !seen@.contains(target),
                start <= seen@.len(),
                level <= start,
                wit.len() + 1 == seen@.len(),
                forall|t: int| 1 <= t < seen@.len() ==> 0 <= #[trigger] wit[t - 1] < self.edges@.len() && self.edges@[wit[t - 1]].target == seen@[t],
                forall|u: int| 1 <= u < seen@.len() ==> permits(fenced, allowed@, #[trigger] seen@[u]),
                forall|t: int| start <= t < seen@.len() ==> #[trigger] lvl@[t] == level,
                forall|t: int| 0 <= t < seen@.len() ==> self.along(source, minimum, fenced, allowed@, #[trigger] lvl@[t] as nat, seen@[t]) && (lvl@[t] == 0 || !self.along(source, minimum, fenced, allowed@, (lvl@[t] - 1) as nat, seen@[t])),
                forall|y: i64| #[trigger] self.along(source, minimum, fenced, allowed@, level as nat, y) <==> (exists|t: int| 0 <= t < seen@.len() && seen@[t] == y),
                forall|y: i64| #[trigger] self.along(source, minimum, fenced, allowed@, level as nat, y) ==> ((exists|t: int| start <= t < seen@.len() && seen@[t] == y) || (level > 0 && self.along(source, minimum, fenced, allowed@, (level - 1) as nat, y))),
            decreases 2 * (self.edges@.len() + 1 - seen@.len()) + if start < seen@.len() { 1int } else { 0int },
        {
            proof {
                self.lemma_indices_bound(wit, seen@);
            }
            let end = seen.len();
            let ghost lv = level as nat;
            let ghost old_seen = seen@;
            let mut t: usize = start;
            while t < end
                invariant
                    self.tree(source, minimum, seen@, from@, lvl@),
                    seen@.no_duplicates(),
                    !seen@.contains(target),
                    start <= t <= end,
                    end <= seen@.len(),
                    end == old_seen.len(),
                    seen@.take(end as int) == old_seen,
                    level <= start < end,
                    lv == level,
                    level < usize::MAX,
                    wit.len() + 1 == seen@.len(),
                    forall|u: int| 1 <= u < seen@.len() ==> 0 <= #[trigger] wit[u - 1] < self.edges@.len() && self.edges@[wit[u - 1]].target == seen@[u],
                        forall|u: int| 1 <= u < seen@.len() ==> permits(fenced, allowed@, #[trigger] seen@[u]),
                    forall|u: int| start <= u < end ==> #[trigger] lvl@[u] == level,
                    forall|u: int| end <= u < seen@.len() ==> #[trigger] lvl@[u] == level + 1,
                    forall|u: int| 0 <= u < seen@.len() ==> self.along(source, minimum, fenced, allowed@, #[trigger] lvl@[u] as nat, seen@[u]) && (lvl@[u] == 0 || !self.along(source, minimum, fenced, allowed@, (lvl@[u] - 1) as nat, seen@[u])),
                    forall|y: i64| #[trigger] self.along(source, minimum, fenced, allowed@, lv, y) <==> (exists|u: int| 0 <= u < end && old_seen[u] == y),
                    forall|y: i64| #[trigger] self.along(source, minimum, fenced, allowed@, lv, y) ==> ((exists|u: int| start <= u < end && old_seen[u] == y) || (lv > 0 && self.along(source, minimum, fenced, allowed@, (lv - 1) as nat, y))),
                    forall|u: int, y: i64| start <= u < t && #[trigger] self.hop(old_seen[u], y, Flow::Out, minimum) && permits(fenced, allowed@, y) ==> seen@.contains(y),
                decreases end - t,
            {
                let x = seen[t];
                assert(x == old_seen[t as int]);
                let next = self.successors(x, minimum, ranked);
                let mut j: usize = 0;
                while j < next.len()
                    invariant
                        self.tree(source, minimum, seen@, from@, lvl@),
                        seen@.no_duplicates(),
                        !seen@.contains(target),
                        start <= t < end,
                        end <= seen@.len(),
                        end == old_seen.len(),
                        seen@.take(end as int) == old_seen,
                        x == old_seen[t as int],
                        level <= start,
                        lv == level,
                        level < usize::MAX,
                        j <= next@.len(),
                        forall|y: i64| #[trigger] next@.contains(y) <==> self.hop(x, y, Flow::Out, minimum),
                        wit.len() + 1 == seen@.len(),
                        forall|u: int| 1 <= u < seen@.len() ==> 0 <= #[trigger] wit[u - 1] < self.edges@.len() && self.edges@[wit[u - 1]].target == seen@[u],
                        forall|u: int| 1 <= u < seen@.len() ==> permits(fenced, allowed@, #[trigger] seen@[u]),
                        forall|u: int| start <= u < end ==> #[trigger] lvl@[u] == level,
                        forall|u: int| end <= u < seen@.len() ==> #[trigger] lvl@[u] == level + 1,
                        forall|u: int| 0 <= u < seen@.len() ==> self.along(source, minimum, fenced, allowed@, #[trigger] lvl@[u] as nat, seen@[u]) && (lvl@[u] == 0 || !self.along(source, minimum, fenced, allowed@, (lvl@[u] - 1) as nat, seen@[u])),
                        forall|y: i64| #[trigger] self.along(source, minimum, fenced, allowed@, lv, y) <==> (exists|u: int| 0 <= u < end && old_seen[u] == y),
                        forall|u: int, y: i64| start <= u < t && #[trigger] self.hop(old_seen[u], y, Flow::Out, minimum) && permits(fenced, allowed@, y) ==> seen@.contains(y),
                        forall|w: int| 0 <= w < j && permits(fenced, allowed@, #[trigger] next@[w]) ==> seen@.contains(next@[w]),
                    decreases next@.len() - j,
                {
                    let y = next[j];
                    assert(next@.contains(y));
                    if (!fenced || member(allowed, y)) && !member(&seen, y) {
                        let ghost prior = seen@;
                        let ghost pfrom = from@;
                        let ghost plvl = lvl@;
                        let ghost pwit = wit;
                        proof {
                            assert(self.hop(x, y, Flow::Out, minimum));
                            assert(self.along(source, minimum, fenced, allowed@, lv, x)) by {
                                assert(exists|u: int| 0 <= u < end && old_seen[u] == x);
                            }
                            assert(self.along(source, minimum, fenced, allowed@, lv + 1, y));
                            assert(!self.along(source, minimum, fenced, allowed@, lv, y)) by {
                                if self.along(source, minimum, fenced, allowed@, lv, y) {
                                    let u = choose|u: int| 0 <= u < end && old_seen[u] == y;
                                    assert(prior[u] == y);
                                }
                            }
                        }
                        seen.push(y);
                        from.push(t);
                        lvl.push(level + 1);
                        proof {
                            let e = choose|e: int| 0 <= e < self.edges@.len() && carries(#[trigger] self.edges@[e], x, y, Flow::Out, minimum);
                            wit = wit.push(e);
                            assert(seen@.take(end as int) =~= old_seen) by {
                                assert(prior.take(end as int) == old_seen);
                            }
                            assert forall|u: int| 1 <= u < seen@.len() implies 0 <= #[trigger] wit[u - 1] < self.edges@.len() && self.edges@[wit[u - 1]].target == seen@[u] by {
                                if u < prior.len() {
                                    assert(wit[u - 1] == pwit[u - 1]);
                                    assert(seen@[u] == prior[u]);
                                } else {
                                    assert(wit[u - 1] == e);
                                }
                            }
                            assert(self.tree(source, minimum, seen@, from@, lvl@)) by {
                                assert forall|u: int| 1 <= u < seen@.len() implies {
                                    &&& #[trigger] from@[u] < u
                                    &&& lvl@[u] >= 1
                                    &&& lvl@[from@[u] as int] + 1 == lvl@[u]
                                    &&& self.hop(seen@[from@[u] as int], seen@[u], Flow::Out, minimum)
                                } by {
                                    if u == prior.len() {
                                        assert(from@[u] == t);
                                        assert(lvl@[t as int] == level);
                                        assert(seen@[t as int] == x);
                                    } else {
                                        assert(from@[u] == pfrom[u]);
                                        assert(lvl@[u] == plvl[u]);
                                        assert(lvl@[from@[u] as int] == plvl[pfrom[u] as int]);
                                        assert(seen@[from@[u] as int] == prior[pfrom[u] as int]);
                                    }
                                }
                            }
                        }
                        if y == target {
                            proof {
                                assert(seen@[seen@.len() - 1] == target);
                            }
                            let f = seen.len() - 1;
                            let p = self.trace(&seen, &from, &lvl, f, Ghost(source), Ghost(minimum));
                            proof {
                                assert forall|k: nat| k < p@.len() - 1 implies !#[trigger] self.along(source, minimum, fenced, allowed@, k, target) by {
                                    if self.along(source, minimum, fenced, allowed@, k, target) {
                                        self.lemma_along_grows(source, minimum, fenced, allowed@, k, lv, target);
                                    }
                                }
                            }
                            return Some(p);
                        }
                        proof {
                            assert forall|z: i64| seen@.contains(z) <==> (prior.contains(z) || z == y) by {
                                if seen@.contains(z) {
                                    let w = choose|w: int| 0 <= w < seen@.len() && seen@[w] == z;
                                    if w < prior.len() {
                                        assert(prior[w] == z);
                                    }
                                }
                                if prior.contains(z) {
                                    let w = choose|w: int| 0 <= w < prior.len() && prior[w] == z;
                                    assert(seen@[w] == z);
                                }
                                if z == y {
                                    assert(seen@[prior.len() as int] == y);
                                }
                            }
                            assert(seen@.no_duplicates());
                        }
                    }
                    j = j + 1;
                }
                proof {
                    assert forall|u: int, y: i64| start <= u < t + 1 && #[trigger] self.hop(old_seen[u], y, Flow::Out, minimum) && permits(fenced, allowed@, y) implies seen@.contains(y) by {
                        if u == t {
                            assert(next@.contains(y));
                            let w = choose|w: int| 0 <= w < next@.len() && next@[w] == y;
                        }
                    }
                }
                t = t + 1;
            }
            proof {
                assert forall|y: i64| #[trigger] self.along(source, minimum, fenced, allowed@, lv + 1, y) <==> (exists|u: int| 0 <= u < seen@.len() && seen@[u] == y) by {
                    if self.along(source, minimum, fenced, allowed@, lv + 1, y) {
                        if self.along(source, minimum, fenced, allowed@, lv, y) {
                            let u = choose|u: int| 0 <= u < end && old_seen[u] == y;
                            assert(seen@.take(end as int)[u] == y);
                            assert(seen@[u] == y);
                        } else {
                            let x = choose|x: i64| #![trigger self.hop(x, y, Flow::Out, minimum)] self.along(source, minimum, fenced, allowed@, lv, x) && self.hop(x, y, Flow::Out, minimum);
                            if exists|u: int| start <= u < end && old_seen[u] == x {
                                let u = choose|u: int| start <= u < end && old_seen[u] == x;
                                assert(self.hop(old_seen[u], y, Flow::Out, minimum));
                                assert(seen@.contains(y));
                            } else {
                                assert(self.along(source, minimum, fenced, allowed@, (lv - 1) as nat, x));
                                assert(self.along(source, minimum, fenced, allowed@, lv, y));
                            }
                        }
                    }
                    if exists|u: int| 0 <= u < seen@.len() && seen@[u] == y {
                        let u = choose|u: int| 0 <= u < seen@.len() && seen@[u] == y;
                        if u < end {
                            assert(seen@.take(end as int)[u] == seen@[u]);
                            assert(old_seen[u] == y);
                            assert(self.along(source, minimum, fenced, allowed@, lv, y));
                        } else {
                            assert(lvl@[u] == level + 1);
                            assert(self.along(source, minimum, fenced, allowed@, lvl@[u] as nat, seen@[u]));
                        }
                    }
                }
                assert forall|y: i64| #[trigger] self.along(source, minimum, fenced, allowed@, lv + 1, y) implies ((exists|u: int| end <= u < seen@.len() && seen@[u] == y) || self.along(source, minimum, fenced, allowed@, lv, y)) by {
                    if !self.along(source, minimum, fenced, allowed@, lv, y) {
                        assert(exists|u: int| 0 <= u < seen@.len() && seen@[u] == y);
                        let u = choose|u: int| 0 <= u < seen@.len() && seen@[u] == y;
                        if u < end {
                            assert(old_seen[u] == y);
                        }
                    }
                }
                self.lemma_indices_bound(wit, seen@);
            }
            start = end;
            level = level + 1;
            proof {
                assert(level as nat == lv + 1);
                assert forall|y: i64| #[trigger] self.along(source, minimum, fenced, allowed@, level as nat, y) <==> (exists|u: int| 0 <= u < seen@.len() && seen@[u] == y) by {
                    assert(self.along(source, minimum, fenced, allowed@, level as nat, y) == self.along(source, minimum, fenced, allowed@, lv + 1, y));
                }
                assert forall|y: i64| #[trigger] self.along(source, minimum, fenced, allowed@, level as nat, y) implies ((exists|u: int| start <= u < seen@.len() && seen@[u] == y) || (level > 0 && self.along(source, minimum, fenced, allowed@, (level - 1) as nat, y))) by {
                    assert(self.along(source, minimum, fenced, allowed@, level as nat, y) == self.along(source, minimum, fenced, allowed@, lv + 1, y));
                    assert((level - 1) as nat == lv);
                }
            }
        }
        proof {
            assert forall|y: i64| #[trigger] self.along(source, minimum, fenced, allowed@, level as nat + 1, y) implies self.along(source, minimum, fenced, allowed@, level as nat, y) by {
                if !self.along(source, minimum, fenced, allowed@, level as nat, y) {
                    let x = choose|x: i64| #![trigger self.hop(x, y, Flow::Out, minimum)] self.along(source, minimum, fenced, allowed@, level as nat, x) && self.hop(x, y, Flow::Out, minimum);
                    assert(self.along(source, minimum, fenced, allowed@, (level - 1) as nat, x));
                }
            }
            assert forall|k: nat| !#[trigger] self.along(source, minimum, fenced, allowed@, k, target) by {
                if k >= level {
                    self.lemma_along_settles(source, minimum, fenced, allowed@, level as nat, k);
                } else if self.along(source, minimum, fenced, allowed@, k, target) {
                    self.lemma_along_grows(source, minimum, fenced, allowed@, k, level as nat, target);
                }
                if self.along(source, minimum, fenced, allowed@, level as nat, target) {
                    let u = choose|u: int| 0 <= u < seen@.len() && seen@[u] == target;
                    assert(seen@.contains(target));
                }
            }
        }
        None
    }

    /// A shortest walk from `source` to `target` along outgoing edges at
    /// `minimum`, found breadth first, or `None` when `target` cannot be
    /// reached.
    pub fn path(&self, source: i64, target: i64, minimum: Weight) -> (r: Option<Vec<i64>>)
        ensures
            match r {
                None => forall|k: nat| !#[trigger] self.within(source, Flow::Out, minimum, k, target),
                Some(p) => {
                    &&& p@.len() >= 1
                    &&& p@[0] == source
                    &&& p@.last() == target
                    &&& self.walk(p@, minimum)
                    &&& self.within(source, Flow::Out, minimum, (p@.len() - 1) as nat, target)
                    &&& forall|k: nat| k < p@.len() - 1 ==> !#[trigger] self.within(source, Flow::Out, minimum, k, target)
                },
            },
    {
        let open: Vec<i64> = Vec::new();
        let r = self.search(source, target, minimum, &open, false, false);
        proof {
            assert forall|k: nat| #[trigger] self.within(source, Flow::Out, minimum, k, target) == self.along(source, minimum, false, open@, k, target) by {
                self.lemma_along_open(source, minimum, open@, k, target);
            }
        }
        r
    }

    /// Distinct keys, each the target of its own edge, number at most one
    /// more than the edges.
    proof fn lemma_indices_bound(&self, wit: Seq<int>, seen: Seq<i64>)
        requires
            seen.no_duplicates(),
            wit.len() + 1 == seen.len(),
            forall|t: int| 1 <= t < seen.len() ==> 0 <= #[trigger] wit[t - 1] < self.edges@.len() && self.edges@[wit[t - 1]].target == seen[t],
        ensures
            seen.len() <= self.edges@.len() + 1,
    {
        let n = self.edges@.len() as int;
        assert(wit.no_duplicates()) by {
            assert forall|a: int, b: int| 0 <= a < wit.len() && 0 <= b < wit.len() && a != b implies wit[a] != wit[b] by {
                assert(0 <= wit[(a + 1) - 1] < n && self.edges@[wit[(a + 1) - 1]].target == seen[a + 1]);
                assert(0 <= wit[(b + 1) - 1] < n && self.edges@[wit[(b + 1) - 1]].target == seen[b + 1]);
            }
        }
        wit.unique_seq_to_set();
        vstd::set_lib::lemma_int_range(0, n);
        assert forall|x: int| wit.to_set().contains(x) implies vstd::set_lib::set_int_range(0, n).contains(x) by {
            let a = choose|a: int| 0 <= a < wit.len() && wit[a] == x;
            assert(0 <= wit[(a + 1) - 1] < n);
        }
        vstd::set_lib::lemma_len_subset(wit.to_set(), vstd::set_lib::set_int_range(0, n));
    }
}

} // verus!
