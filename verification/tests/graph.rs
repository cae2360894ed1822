use hyperlink_graph::{
    adjacency_list, average_degree, breadth_first, max_degree, read_lines, AdjacencyMap,
    GraphEdge, MeanDegree,
};

fn edges(pairs: &[(&str, &str)]) -> Vec<GraphEdge> {
    pairs
        .iter()
        .map(|(s, t)| GraphEdge::new(s.to_string(), t.to_string()))
        .collect()
}

fn graph(pairs: &[(&str, &str)]) -> AdjacencyMap {
    adjacency_list(&edges(pairs))
}

fn graph_of_lines(texts: &[&str]) -> AdjacencyMap {
    let lines: Vec<Option<String>> = texts.iter().map(|t| Some(t.to_string())).collect();
    adjacency_list(&read_lines(&lines).unwrap())
}

fn names(list: &[&str]) -> Vec<String> {
    list.iter().map(|s| s.to_string()).collect()
}

fn visits(list: &[(&str, usize)]) -> Vec<(String, usize)> {
    list.iter().map(|(s, d)| (s.to_string(), *d)).collect()
}

fn mean(m: MeanDegree) -> f64 {
    if m.total_nodes > 0 {
        m.total_degree as f64 / m.total_nodes as f64
    } else {
        0.0
    }
}

#[test]
fn reverse_edge_doubles_the_neighbors() {
    let g = graph_of_lines(&["a\tb\textra", "b\ta", "a\tb"]);
    assert_eq!(g.neighbors("a"), Some(names(&["b", "b"])));
    assert_eq!(g.neighbors("b"), Some(names(&["a", "a"])));
    assert_eq!(breadth_first(&g, "a"), visits(&[("a", 0), ("b", 1)]));
    assert_eq!(max_degree(&g, "a"), 1);
    assert_eq!(mean(average_degree(&g, "a")), 0.5);
}

#[test]
fn single_edge_and_absent_node() {
    let g = graph_of_lines(&["x\ty", "z"]);
    assert_eq!(breadth_first(&g, "y"), visits(&[("y", 0), ("x", 1)]));
    assert_eq!(max_degree(&g, "y"), 1);
    assert_eq!(mean(average_degree(&g, "y")), 0.5);
    assert!(!g.contains("z"));
    assert_eq!(max_degree(&g, "q"), 0);
    assert_eq!(mean(average_degree(&g, "q")), 0.0);
}

#[test]
fn chain_of_three_edges() {
    let g = graph_of_lines(&["a\tb", "b\tc", "c\td"]);
    assert_eq!(
        breadth_first(&g, "a"),
        visits(&[("a", 0), ("b", 1), ("c", 2), ("d", 3)])
    );
    assert_eq!(max_degree(&g, "a"), 3);
    assert_eq!(
        average_degree(&g, "a"),
        MeanDegree { total_degree: 6, total_nodes: 4 }
    );
    assert_eq!(mean(average_degree(&g, "a")), 1.5);
}

#[test]
fn empty_graph_answers_every_query() {
    for g in [graph_of_lines(&[]), graph_of_lines(&["z", "", "w"])] {
        assert!(g.is_empty());
        assert_eq!(g.len(), 0);
        assert_eq!(g.nodes(), Vec::<String>::new());
        for q in ["a", "z", ""] {
            assert_eq!(g.neighbors(q), None);
            assert_eq!(max_degree(&g, q), 0);
            assert_eq!(mean(average_degree(&g, q)), 0.0);
            assert_eq!(breadth_first(&g, q), visits(&[(q, 0)]));
        }
    }
}

#[test]
fn every_edge_is_followed_both_ways() {
    let list = [("a", "b"), ("c", "a"), ("d", "e"), ("b", "c"), ("e", "e")];
    let g = graph(&list);
    for (s, t) in list {
        assert!(g.neighbors(s).unwrap().contains(&t.to_string()));
        assert!(g.neighbors(t).unwrap().contains(&s.to_string()));
    }
}

#[test]
fn neighbors_keep_edge_order_and_multiplicity() {
    let g = graph(&[("a", "b"), ("c", "a"), ("a", "b"), ("b", "a"), ("a", "d")]);
    assert_eq!(g.neighbors("a"), Some(names(&["b", "c", "b", "b", "d"])));
    assert_eq!(g.neighbors("b"), Some(names(&["a", "a", "a"])));
    assert_eq!(g.neighbors("c"), Some(names(&["a"])));
    assert_eq!(g.neighbors("d"), Some(names(&["a"])));
    assert_eq!(g.neighbors("e"), None);
}

#[test]
fn self_loop_lists_the_node_twice() {
    let g = graph(&[("a", "a")]);
    assert_eq!(g.neighbors("a"), Some(names(&["a", "a"])));
    assert_eq!(g.len(), 1);
    assert_eq!(max_degree(&g, "a"), 0);
    assert_eq!(
        average_degree(&g, "a"),
        MeanDegree { total_degree: 0, total_nodes: 1 }
    );
}

#[test]
fn nodes_come_in_first_met_order() {
    let g = graph(&[("m", "k"), ("a", "m"), ("z", "a"), ("k", "z"), ("b", "b")]);
    assert_eq!(g.nodes(), names(&["m", "k", "a", "z", "b"]));
    assert_eq!(g.len(), 5);
    assert!(!g.is_empty());
    assert!(g.contains("z"));
    assert!(!g.contains("q"));
}

#[test]
fn traversal_starts_at_the_start_with_zero() {
    let g = graph(&[("a", "b"), ("b", "c"), ("x", "y")]);
    for q in ["a", "b", "c", "x", "y", "nowhere"] {
        let v = breadth_first(&g, q);
        assert_eq!(v[0], (q.to_string(), 0));
        assert!(average_degree(&g, q).total_nodes >= 1);
    }
}

#[test]
fn traversal_depths_never_fall() {
    let g = graph(&[
        ("a", "b"),
        ("a", "c"),
        ("b", "d"),
        ("c", "d"),
        ("d", "e"),
        ("e", "a"),
        ("f", "c"),
        ("g", "f"),
        ("h", "i"),
    ]);
    for q in ["a", "d", "g", "h"] {
        let v = breadth_first(&g, q);
        for w in v.windows(2) {
            assert!(w[0].1 <= w[1].1);
        }
    }
}

#[test]
fn traversal_visits_each_reachable_node_once() {
    let g = graph(&[("a", "b"), ("b", "c"), ("c", "a"), ("c", "d"), ("x", "y")]);
    let v = breadth_first(&g, "a");
    let mut seen: Vec<String> = v.iter().map(|p| p.0.clone()).collect();
    seen.sort();
    assert_eq!(seen, names(&["a", "b", "c", "d"]));
    assert_eq!(average_degree(&g, "a").total_nodes, 4);
    assert_eq!(average_degree(&g, "x").total_nodes, 2);
}

#[test]
fn traversal_follows_neighbor_order() {
    let g = graph(&[("a", "c"), ("a", "b"), ("b", "d"), ("c", "e")]);
    assert_eq!(
        breadth_first(&g, "a"),
        visits(&[("a", 0), ("c", 1), ("b", 1), ("e", 2), ("d", 2)])
    );
}

#[test]
fn distances_are_shortest() {
    // A cycle of six with a chord: going either way round counts.
    let g = graph(&[
        ("n0", "n1"),
        ("n1", "n2"),
        ("n2", "n3"),
        ("n3", "n4"),
        ("n4", "n5"),
        ("n5", "n0"),
        ("n0", "n3"),
    ]);
    let mut v = breadth_first(&g, "n0");
    v.sort();
    assert_eq!(
        v,
        visits(&[("n0", 0), ("n1", 1), ("n2", 2), ("n3", 1), ("n4", 2), ("n5", 1)])
    );
    assert_eq!(max_degree(&g, "n0"), 2);
    assert_eq!(
        average_degree(&g, "n0"),
        MeanDegree { total_degree: 7, total_nodes: 6 }
    );
}

#[test]
fn direction_does_not_matter_for_traversal() {
    let g = graph(&[("b", "a"), ("c", "b"), ("d", "c")]);
    assert_eq!(max_degree(&g, "a"), 3);
    assert_eq!(max_degree(&g, "d"), 3);
    assert_eq!(max_degree(&g, "b"), 2);
    assert_eq!(mean(average_degree(&g, "b")), 1.0);
}

#[test]
fn components_are_kept_apart() {
    let g = graph(&[("a", "b"), ("c", "d"), ("d", "e")]);
    assert_eq!(max_degree(&g, "a"), 1);
    assert_eq!(max_degree(&g, "c"), 2);
    assert_eq!(
        average_degree(&g, "d"),
        MeanDegree { total_degree: 2, total_nodes: 3 }
    );
}

#[test]
fn star_has_mean_below_one() {
    let g = graph(&[("hub", "a"), ("hub", "b"), ("hub", "c")]);
    assert_eq!(max_degree(&g, "hub"), 1);
    assert_eq!(mean(average_degree(&g, "hub")), 0.75);
    assert_eq!(max_degree(&g, "a"), 2);
    assert_eq!(mean(average_degree(&g, "a")), 1.25);
}

#[test]
fn long_chain_is_walked_to_its_end() {
    let n = 2000usize;
    let list: Vec<GraphEdge> = (0..n)
        .map(|i| GraphEdge::new(format!("v{}", i), format!("v{}", i + 1)))
        .collect();
    let g = adjacency_list(&list);
    assert_eq!(g.len(), n + 1);
    assert_eq!(max_degree(&g, "v0"), n);
    assert_eq!(
        average_degree(&g, "v0"),
        MeanDegree { total_degree: (n * (n + 1) / 2) as u128, total_nodes: n + 1 }
    );
    assert_eq!(max_degree(&g, "v1000"), 1000);
}

#[test]
fn equidistant_nodes_come_as_the_queue_hands_them_out() {
    // From "s": "r" is met before "l" (edge order), so what "r" finds
    // comes before what "l" finds; "m" is met from "r" first, though "l"
    // has it too.
    let g = graph(&[
        ("s", "r"),
        ("s", "l"),
        ("l", "m"),
        ("l", "x"),
        ("r", "y"),
        ("r", "m"),
        ("x", "y"),
    ]);
    assert_eq!(g.neighbors("r"), Some(names(&["s", "y", "m"])));
    assert_eq!(
        breadth_first(&g, "s"),
        visits(&[("s", 0), ("r", 1), ("l", 1), ("y", 2), ("m", 2), ("x", 2)])
    );
}

#[test]
fn repeated_neighbors_are_visited_once() {
    let g = graph(&[("a", "b"), ("b", "a"), ("a", "b"), ("a", "a"), ("b", "c")]);
    assert_eq!(
        breadth_first(&g, "a"),
        visits(&[("a", 0), ("b", 1), ("c", 2)])
    );
}
