use std::collections::HashSet;

use comtesse::HasEdge;
use comtesse::unweighted::Unweighted;

#[test]
fn test_size() {
    let mut graph = Unweighted::new();
    let a = graph.add_vertex(1);
    let b = graph.add_vertex(2);
    let c = graph.add_vertex(3);
    let d = graph.add_vertex(4);

    graph.add_edge(a, b);
    graph.add_edge(c, a);
    graph.add_edge(d, c);

    assert_eq!(4, graph.size());
    assert_eq!(3, graph.num_edges());
}

#[test]
fn construct() {
    let mut graph = Unweighted::new();
    for i in 1..=10 {
        graph.add_vertex(i);
    }

    graph.construct_edges_from(|&from, &to| to != from && to % from == 0);

    let two = graph.get_vertex(2).expect("2 is in 1..=10");
    let six = graph.get_vertex(6).expect("6 is in 1..=10");
    let seven = graph.get_vertex(7).expect("7 is in 1..=10");

    assert!(graph.has_edge(two, six));
    assert!(!graph.has_edge(two, seven));
}

#[test]
fn dfs() {
    let graph = {
        let mut graph = Unweighted::new();
        for i in 2..=11 {
            graph.add_vertex(i);
        }
        assert_eq!(graph.size(), 10);

        graph.construct_edges_from(|&u, &v| u != v && u % v == 1);
        graph
    };

    let mut stack = vec![graph.get_vertex(8).expect("8 is in 2..=11")];
    let dest = graph.get_vertex(4).expect("4 is in 2..=11");

    let mut length = 0;
    let mut seen = HashSet::new();
    while let Some(top) = stack.pop() {
        length += 1;
        if top == dest {
            break;
        }

        for neighbor in graph.neighbors(top) {
            if !seen.contains(neighbor) {
                stack.push(*neighbor);
                seen.insert(neighbor);
            }
        }
    }

    assert!(length > 4);
}

#[test]
fn from_vertices_preserves_order() {
    let graph: Unweighted<char> = Unweighted::from_vertices(('a'..='f').collect());
    assert_eq!(graph.size(), 6);
    assert_eq!(graph.num_edges(), 0);
    let a = graph.get_vertex('a').unwrap();
    let f = graph.get_vertex('f').unwrap();
    assert!(a < f);
}

#[test]
fn get_vertex_absent() {
    let mut graph = Unweighted::new();
    graph.add_vertex(1);
    graph.add_vertex(2);
    assert!(graph.get_vertex(3).is_none());
}

#[test]
fn get_vertex_first_match() {
    let mut graph = Unweighted::new();
    let first = graph.add_vertex(7);
    let _second = graph.add_vertex(7);
    assert_eq!(graph.get_vertex(7), Some(first));
}

#[test]
fn parallel_edges_counted_separately() {
    let mut graph = Unweighted::new();
    let a = graph.add_vertex("a");
    let b = graph.add_vertex("b");
    graph.add_edge(a, b);
    graph.add_edge(a, b);
    assert_eq!(graph.num_edges(), 2);
    assert!(graph.has_edge(a, b));
}

#[test]
fn remove_edge_swaps_with_last() {
    let mut graph = Unweighted::new();
    let a = graph.add_vertex(1);
    let b = graph.add_vertex(2);
    let c = graph.add_vertex(3);
    let d = graph.add_vertex(4);
    graph.add_edge(a, b);
    graph.add_edge(a, c);
    graph.add_edge(a, d);

    graph.remove_edge(a, b);

    assert_eq!(graph.num_edges(), 2);
    assert!(!graph.has_edge(a, b));
    // the last edge is swapped into the removed slot: order is not preserved
    assert_eq!(graph.neighbors(a).clone(), vec![d, c]);
}

#[test]
fn default_is_empty() {
    let graph: Unweighted<u32> = Default::default();
    assert_eq!(graph.size(), 0);
    assert_eq!(graph.num_edges(), 0);
}

#[test]
fn make_safer_escapes_quotes() {
    assert_eq!(comtesse::make_safer("hello"), "hello");
    assert_eq!(comtesse::make_safer("say \"hi\""), "say \\\"hi\\\"");
    assert_eq!(comtesse::make_safer(""), "");
    assert_eq!(comtesse::make_safer("\""), "\\\"");
}
