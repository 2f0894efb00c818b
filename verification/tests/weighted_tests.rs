use comtesse::HasEdge;
use comtesse::unweighted::Unweighted;
use comtesse::weighted::Weighted;

#[test]
fn construct_weighted() {
    let mut graph: Weighted<_, i64> = Weighted::from_vertices(('a'..='f').collect());
    graph.construct_edges_from(|&from, &to| match (from, to) {
        ('a', 'b') => Some(9),
        ('a', 'd') => Some(8),
        ('b', 'c') => Some(1),
        ('b', 'e') => Some(3),
        ('c', 'e') => Some(1),
        ('c', 'd') => Some(5),
        ('d', 'f') => Some(8),
        ('e', 'f') => Some(6),
        _ => None,
    });

    let a = graph.get_vertex('a').expect("'a' is in V");
    let b = graph.get_vertex('b').expect("'b' is in V");

    let weight = graph.get_edge(a, b).expect("'a' -> 'b' exists");
    assert_eq!(weight, 9);
}

#[test]
fn from_weighted() {
    let mut graph: Weighted<_, i64> = Weighted::from_vertices(('a'..='f').collect());
    graph.construct_edges_from(|&from, &to| match (from, to) {
        ('a', 'b') => Some(9),
        ('a', 'd') => Some(8),
        ('b', 'c') => Some(0),
        ('b', 'e') => Some(3),
        ('c', 'e') => Some(1),
        ('c', 'd') => Some(5),
        ('d', 'f') => Some(8),
        ('e', 'f') => Some(6),
        _ => None,
    });

    let graph: Unweighted<_> = Unweighted::from_weighted(graph);
    assert!(graph.has_edge(
        graph.get_vertex('a').unwrap(),
        graph.get_vertex('d').unwrap()
    ));
    assert!(!graph.has_edge(
        graph.get_vertex('b').unwrap(),
        graph.get_vertex('c').unwrap()
    ));
}

#[test]
fn from_weighted_filters_exactly() {
    let mut graph: Weighted<_, i64> = Weighted::from_vertices(vec!['a', 'b', 'c']);
    let a = graph.get_vertex('a').unwrap();
    let b = graph.get_vertex('b').unwrap();
    let c = graph.get_vertex('c').unwrap();
    graph.add_edge(a, b, 0);
    graph.add_edge(a, c, 2);
    graph.add_edge(b, c, 0);
    graph.add_edge(b, a, -1);

    let plain = Unweighted::from_weighted(graph);
    assert!(!plain.has_edge(a, b));
    assert!(plain.has_edge(a, c));
    assert!(!plain.has_edge(b, c));
    assert!(plain.has_edge(b, a));
    assert_eq!(plain.num_edges(), 2);
}

#[test]
fn get_edge_absent_and_first_match() {
    let mut graph: Weighted<&str, u64> = Weighted::new();
    let x = graph.add_vertex("x");
    let y = graph.add_vertex("y");
    assert_eq!(graph.get_edge(x, y), None);

    graph.add_edge(x, y, 5);
    graph.add_edge(x, y, 7);
    // the first matching connection, in insertion order, decides the weight
    assert_eq!(graph.get_edge(x, y), Some(5));
}

#[test]
fn weighted_edge_exists_and_remove() {
    let mut graph: Weighted<u32, u32> = Weighted::new();
    let p = graph.add_vertex(1);
    let q = graph.add_vertex(2);
    graph.add_edge(p, q, 3);
    assert!(graph.edge_exists(p, q));
    assert!(graph.has_edge(p, q));
    assert!(!graph.edge_exists(q, p));

    graph.remove_edge(p, q);
    assert!(!graph.edge_exists(p, q));
    assert_eq!(graph.num_edges(), 0);
}

#[test]
fn weighted_neighbors_drop_weights() {
    let mut graph: Weighted<u32, u32> = Weighted::new();
    let p = graph.add_vertex(1);
    let q = graph.add_vertex(2);
    let r = graph.add_vertex(3);
    graph.add_edge(p, q, 10);
    graph.add_edge(p, r, 20);

    let conns = graph.neighbors(p);
    assert_eq!(conns.len(), 2);
    assert_eq!(conns[0].to, q);
    assert_eq!(conns[0].weight, 10);
    assert_eq!(conns[1].to, r);

    let plain = graph.connected_neighbors(p);
    assert_eq!(plain, vec![q, r]);
}
