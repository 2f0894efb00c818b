use comtesse::graph::{Graph, Handle};
use comtesse::unweighted::Unweighted;
use comtesse::weighted::Weighted;

#[test]
fn is_connected() {
    let mut graph: Weighted<_, i64> = Weighted::from_vertices(('a'..='f').collect());
    graph.construct_edges_from(|&from, &to| match (from, to) {
        ('a', 'b') => Some(9),
        ('a', 'd') => Some(8),
        ('b', 'c') => Some(1),
        ('b', 'e') => Some(3),
        ('c', 'e') => Some(1),
        ('c', 'd') => Some(5),
        ('d', 'f') => Some(8),
        ('e', 'f') => Some(6),
        _ => None,
    });

    assert!(graph.is_connected());

    graph.remove_edge(
        graph.get_vertex('a').unwrap(),
        graph.get_vertex('b').unwrap(),
    );

    graph.remove_edge(
        graph.get_vertex('a').unwrap(),
        graph.get_vertex('d').unwrap(),
    );

    assert!(!graph.is_connected());
}

#[test]
fn connected1() {
    let mut graph: Unweighted<_> = Unweighted::from_vertices(('a'..='c').collect());
    graph.construct_edges_from(|&from, &to| matches!((from, to), ('b', 'a') | ('c', 'a')));
    assert!(graph.is_connected());
}

#[test]
fn connected_empty_graph() {
    let graph: Unweighted<u32> = Unweighted::new();
    assert!(graph.is_connected());
}

#[test]
fn connected_single_vertex() {
    let mut graph: Unweighted<u32> = Unweighted::new();
    graph.add_vertex(1);
    assert!(graph.is_connected());
}

#[test]
fn connectivity_query_is_stable() {
    let mut graph: Unweighted<_> = Unweighted::from_vertices(('a'..='f').collect());
    graph.construct_edges_from(|&from, &to| {
        matches!(
            (from, to),
            ('a', 'b') | ('a', 'd') | ('b', 'c') | ('b', 'e') | ('c', 'e') | ('c', 'd') | (
                'd',
                'f',
            ) | ('e', 'f')
        )
    });

    assert!(graph.is_connected());
    assert!(graph.is_connected());

    graph.remove_edge(
        graph.get_vertex('a').unwrap(),
        graph.get_vertex('b').unwrap(),
    );
    graph.remove_edge(
        graph.get_vertex('a').unwrap(),
        graph.get_vertex('d').unwrap(),
    );

    assert!(!graph.is_connected());
    assert!(!graph.is_connected());
}

fn assert_one_of_paths<V, E>(graph: &Graph<V, E>, actual: Option<Vec<Handle>>, expected: &[&[V]])
where
    V: Eq + Clone,
{
    if expected.is_empty() {
        return;
    }

    let actual = actual.unwrap();

    for &expected in expected {
        let expected = expected
            .iter()
            .map(|i| graph.get_vertex(i.clone()).unwrap())
            .collect::<Vec<_>>();
        if actual == expected {
            return;
        }
    }

    panic!("no path matched");
}

fn make_graph() -> Unweighted<char> {
    let mut graph: Unweighted<_> = Unweighted::from_vertices(('a'..='h').collect());
    graph.construct_edges_from(|&u, &v| {
        matches!(
            (u, v),
            ('f', 'd')
                | ('d', 'h')
                | ('c', 'g')
                | ('c', 'a')
                | ('b', 'f')
                | ('b', 'e')
                | ('a', 'b')
                | ('e', 'h')
                | ('d', 'g')
                | ('d', 'e')
                | ('e', 'c')
        )
    });
    graph
}

#[test]
fn shortest_path() {
    let graph = make_graph();

    let a = graph.get_vertex('a').unwrap();
    let g = graph.get_vertex('g').unwrap();
    let d = graph.get_vertex('d').unwrap();

    let path_ag = graph.shortest_path_unweighted(a, g);
    assert_one_of_paths(
        &graph,
        path_ag,
        &[&['a', 'b', 'e', 'c', 'g'], &['a', 'b', 'f', 'd', 'g']],
    );

    let path_ad = graph.shortest_path_unweighted(a, d);
    assert_eq!(
        path_ad,
        ['a', 'b', 'f', 'd']
            .iter()
            .map(|&i| graph.get_vertex(i))
            .collect(),
    );
}

#[test]
fn shortest_path_to_self() {
    let graph = make_graph();
    let c = graph.get_vertex('c').unwrap();
    assert_eq!(graph.shortest_path_unweighted(c, c), Some(vec![c]));
}

#[test]
fn shortest_path_unreachable() {
    let graph = make_graph();
    // 'h' has no outgoing edges, so nothing is reachable from it but itself
    let h = graph.get_vertex('h').unwrap();
    let a = graph.get_vertex('a').unwrap();
    assert_eq!(graph.shortest_path_unweighted(h, a), None);
}
