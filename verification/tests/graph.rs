use concord::state::{Edge, Flow, Graph, Life, Node, Origin, Weight};

fn node(key: i64, name: &str) -> Node {
    Node { key, domain: "local".to_string(), name: name.to_string(), life: Life::Active, revision: 0 }
}

fn edge(key: i64, source: i64, target: i64, weight: Weight) -> Edge {
    Edge { key, source, target, weight, origin: Origin::Declared }
}

fn sample() -> Graph {
    Graph {
        revision: 7,
        nodes: vec![node(1, "a"), node(2, "b"), node(3, "c"), node(4, "d")],
        edges: vec![
            edge(10, 1, 2, Weight::Required),
            edge(11, 2, 3, Weight::Context),
            edge(12, 3, 1, Weight::Unknown),
            edge(13, 3, 4, Weight::Sequence),
        ],
    }
}

#[test]
fn degree_counts_edges_at_the_minimum() {
    let g = sample();
    let d = g.degree(3, Weight::Unknown);
    assert_eq!((d.out, d.inbound), (2, 1));
    let d = g.degree(3, Weight::Sequence);
    assert_eq!((d.out, d.inbound), (1, 0));
}

#[test]
fn neighbors_grow_with_depth() {
    let g = sample();
    assert_eq!(g.neighbors(1, Flow::Out, 1, Weight::Unknown), vec![2]);
    assert_eq!(g.neighbors(1, Flow::Out, 2, Weight::Unknown), vec![2, 3]);
    assert_eq!(g.neighbors(1, Flow::Out, 0, Weight::Unknown), Vec::<i64>::new());
    assert_eq!(g.neighbors(4, Flow::In, 1, Weight::Unknown), vec![3]);
}

#[test]
fn reach_follows_the_flow_and_the_minimum() {
    let g = sample();
    assert_eq!(g.reach(1, Flow::Out, Weight::Unknown), vec![2, 3, 4]);
    assert_eq!(g.reach(1, Flow::Out, Weight::Sequence), vec![2]);
    assert_eq!(g.reach(4, Flow::In, Weight::Unknown), vec![1, 2, 3]);
    assert_eq!(g.reach(4, Flow::Out, Weight::Unknown), Vec::<i64>::new());
}

#[test]
fn reach_against_the_flow_mirrors_reach_along_it() {
    let g = sample();
    for a in [1, 2, 3, 4] {
        for b in [1, 2, 3, 4] {
            let upstream = g.reach(a, Flow::In, Weight::Unknown).contains(&b);
            let downstream = a != b && g.reach(b, Flow::Out, Weight::Unknown).contains(&a);
            assert_eq!(upstream, downstream);
        }
    }
}

#[test]
fn path_is_shortest_or_absent() {
    let g = sample();
    assert_eq!(g.path(1, 4, Weight::Unknown), Some(vec![1, 2, 3, 4]));
    assert_eq!(g.path(2, 1, Weight::Unknown), Some(vec![2, 3, 1]));
    assert_eq!(g.path(4, 1, Weight::Unknown), None);
    assert_eq!(g.path(1, 1, Weight::Unknown), Some(vec![1]));
    assert_eq!(g.path(1, 3, Weight::Sequence), None);
}

#[test]
fn components_and_cycles() {
    let g = sample();
    assert_eq!(g.scc(), vec![vec![1, 2, 3], vec![4]]);
    assert_eq!(g.cycles(), vec![vec![1, 2, 3, 1]]);
}

#[test]
fn acyclic_graph_has_no_cycles() {
    let mut g = sample();
    g.edges.retain(|e| e.key != 12);
    assert!(g.cycles().is_empty());
    assert_eq!(g.scc(), vec![vec![1], vec![2], vec![3], vec![4]]);
}

#[test]
fn self_loop_is_a_cycle() {
    let mut g = sample();
    g.edges.push(edge(15, 4, 4, Weight::Context));
    assert_eq!(g.cycles(), vec![vec![1, 2, 3, 1], vec![4, 4]]);
}

#[test]
fn paths_lists_simple_routes_within_the_limit() {
    let mut g = sample();
    g.edges.push(edge(14, 1, 3, Weight::Required));
    let mut found = g.paths(1, 4, Weight::Unknown, 10).unwrap();
    found.sort();
    assert_eq!(found, vec![vec![1, 2, 3, 4], vec![1, 3, 4]]);
    let refused = g.paths(1, 4, Weight::Unknown, 1).unwrap_err();
    assert_eq!(refused.code.as_deref(), Some("concord.graph.limit"));
    assert_eq!(refused.message, "directed path result exceeds 1");
}

#[test]
fn adjacency_lists_both_directions() {
    let g = sample();
    let adjacency = g.adjacency();
    assert_eq!(adjacency.get(&1), Some(&(vec![2], vec![3])));
    assert_eq!(adjacency.get(&3), Some(&(vec![1, 4], vec![2])));
    assert_eq!(adjacency.get(&4), Some(&(vec![], vec![3])));
    assert_eq!(adjacency.len(), 4);
}

fn keyed(k: i64) -> Node {
    Node { key: k, domain: "d".to_string(), name: k.to_string(), life: Life::Active, revision: 0 }
}

fn link(s: i64, t: i64, w: Weight) -> Edge {
    Edge { key: 10 * s + t, source: s, target: t, weight: w, origin: Origin::Declared }
}

#[test]
fn paths_come_depth_first_in_node_order() {
    let g = Graph {
        revision: 0,
        nodes: vec![keyed(1), keyed(2), keyed(3), keyed(4)],
        edges: vec![link(1, 3, Weight::Unknown), link(1, 2, Weight::Required), link(2, 4, Weight::Required), link(3, 4, Weight::Required)],
    };
    assert_eq!(g.paths(1, 4, Weight::Unknown, 2).unwrap(), vec![vec![1, 2, 4], vec![1, 3, 4]]);
    assert_eq!(g.paths(1, 4, Weight::Context, 2).unwrap(), vec![vec![1, 2, 4]]);
    assert_eq!(g.paths(1, 4, Weight::Unknown, 1).unwrap_err().code.as_deref(), Some("concord.graph.limit"));
    assert!(g.paths(4, 1, Weight::Unknown, 0).unwrap().is_empty());
}

#[test]
fn cycles_start_at_the_first_key_and_come_back_shortest() {
    let c = Graph {
        revision: 0,
        nodes: vec![keyed(1), keyed(2), keyed(3)],
        edges: vec![link(1, 2, Weight::Unknown), link(2, 3, Weight::Unknown), link(3, 1, Weight::Unknown)],
    };
    assert_eq!(c.cycles(), vec![vec![1, 2, 3, 1]]);
    let d = Graph {
        revision: 0,
        nodes: vec![keyed(1), keyed(2), keyed(3)],
        edges: vec![link(1, 2, Weight::Unknown), link(1, 3, Weight::Unknown), link(2, 3, Weight::Unknown)],
    };
    assert!(d.cycles().is_empty());
    let g = Graph {
        revision: 0,
        nodes: vec![keyed(1), keyed(2), keyed(3), keyed(4)],
        edges: vec![
            link(1, 2, Weight::Unknown),
            link(2, 3, Weight::Unknown),
            link(2, 4, Weight::Unknown),
            link(3, 4, Weight::Unknown),
            link(4, 3, Weight::Unknown),
            link(4, 1, Weight::Unknown),
        ],
    };
    assert_eq!(g.cycles(), vec![vec![1, 2, 4, 1]]);
}

#[test]
fn reach_is_the_deepest_neighbourhood() {
    let g = sample();
    assert_eq!(g.reach(1, Flow::Out, Weight::Unknown), g.neighbors(1, Flow::Out, usize::MAX, Weight::Unknown));
    assert_eq!(g.reach(4, Flow::In, Weight::Context), g.neighbors(4, Flow::In, usize::MAX, Weight::Context));
}
