use causal_core::{CausalConsumer, GraphWalker};

fn s(x: &str) -> String {
    x.to_string()
}

fn graph(entries: &[(&str, &[&str])]) -> GraphWalker {
    let mut g = GraphWalker::new();
    for (id, deps) in entries {
        g.add_node(s(id), deps.iter().map(|d| s(d)).collect());
    }
    g
}

fn sorted(mut v: Vec<String>) -> Vec<String> {
    v.sort();
    v
}

fn diamond() -> GraphWalker {
    graph(&[("A", &["B", "C"]), ("B", &["D"]), ("C", &["D"]), ("D", &[])])
}

#[test]
fn end_to_end_diamond() {
    let g = diamond();
    assert_eq!(sorted(g.propagate_invalidation(s("A"))), vec![s("B"), s("C"), s("D")]);
    assert!(g.detect_cycles().is_empty());
    assert_eq!(g.find_diameter(), 2);
    let (shared, combined) = g.calculate_jaccard_similarity(s("B"), s("C"));
    assert_eq!((shared, combined), (1, 1));
    assert_eq!(shared as f64 / combined as f64, 1.0);
}

#[test]
fn propagation_in_acyclic_graph_excludes_start() {
    let g = graph(&[("A", &["B"]), ("B", &["C", "E"]), ("C", &[]), ("X", &["A"])]);
    assert_eq!(sorted(g.propagate_invalidation(s("A"))), vec![s("B"), s("C"), s("E")]);
    assert_eq!(sorted(g.propagate_invalidation(s("X"))), vec![s("A"), s("B"), s("C"), s("E")]);
    assert_eq!(g.propagate_invalidation(s("C")), Vec::<String>::new());
}

#[test]
fn propagation_through_two_cycle_includes_start() {
    let g = graph(&[("A", &["B"]), ("B", &["A"])]);
    assert_eq!(sorted(g.propagate_invalidation(s("A"))), vec![s("A"), s("B")]);
}

#[test]
fn propagation_from_unknown_fact_is_empty() {
    let g = diamond();
    assert!(g.propagate_invalidation(s("Z")).is_empty());
    assert!(GraphWalker::new().propagate_invalidation(s("A")).is_empty());
}

#[test]
fn propagation_handles_self_loops_duplicates_and_dangling() {
    let g = graph(&[("A", &["A", "B", "B", "Q"]), ("B", &["A"])]);
    assert_eq!(sorted(g.propagate_invalidation(s("A"))), vec![s("A"), s("B"), s("Q")]);
}

#[test]
fn add_node_overwrites_dependents() {
    let mut g = graph(&[("A", &["B"])]);
    g.add_node(s("A"), vec![s("C")]);
    assert_eq!(g.nodes.len(), 1);
    assert_eq!(g.propagate_invalidation(s("A")), vec![s("C")]);
    assert_eq!(g.dependents_of(&s("A")), vec![s("C")]);
    assert!(g.dependents_of(&s("C")).is_empty());
}

#[test]
fn three_cycle_is_detected() {
    let g = graph(&[("A", &["B"]), ("B", &["C"]), ("C", &["A"])]);
    let cycles = g.detect_cycles();
    assert!(!cycles.is_empty());
    assert!(cycles.iter().any(|c| sorted(c.clone()) == vec![s("A"), s("B"), s("C")] && c.len() == 3));
}

#[test]
fn self_loop_is_a_cycle() {
    let g = graph(&[("A", &["A"])]);
    assert_eq!(g.detect_cycles(), vec![vec![s("A")]]);
}

#[test]
fn communities_partition_every_named_identifier() {
    let g = graph(&[("X", &["Y"]), ("Z", &["Y", "W"]), ("P", &[]), ("Y", &[])]);
    let cs = g.detect_communities();
    let mut all: Vec<String> = cs.iter().flatten().cloned().collect();
    let n = all.len();
    all.sort();
    all.dedup();
    assert_eq!(all.len(), n);
    assert_eq!(all, vec![s("P"), s("W"), s("X"), s("Y"), s("Z")]);
    assert!(cs.iter().all(|c| !c.is_empty()));
    assert_eq!(cs.len(), 3);
}

#[test]
fn communities_of_empty_store() {
    assert!(GraphWalker::new().detect_communities().is_empty());
}

#[test]
fn rank_sources_without_edges_are_empty() {
    let g = graph(&[("A", &[]), ("B", &[]), ("C", &[])]);
    let r = g.rank_sources();
    assert_eq!(r.len(), 3);
    assert!(r.iter().all(|l| l.is_empty()));
}

#[test]
fn rank_sources_list_predecessors_with_degrees() {
    let g = graph(&[("A", &["B", "C"]), ("B", &["C"]), ("C", &[])]);
    let r = g.rank_sources();
    assert_eq!(r, vec![vec![], vec![(0, 2)], vec![(0, 2), (1, 1)]]);
}

#[test]
fn jaccard_cases() {
    let g = graph(&[("A", &["X", "Y"]), ("B", &["Y", "Z", "Z"]), ("C", &["Y", "X"]), ("E", &[]), ("F", &["Q"])]);
    assert_eq!(g.calculate_jaccard_similarity(s("A"), s("B")), (1, 3));
    assert_eq!(g.calculate_jaccard_similarity(s("B"), s("A")), (1, 3));
    assert_eq!(g.calculate_jaccard_similarity(s("A"), s("C")), (2, 2));
    assert_eq!(g.calculate_jaccard_similarity(s("A"), s("E")), (0, 2));
    assert_eq!(g.calculate_jaccard_similarity(s("A"), s("F")), (0, 3));
    assert_eq!(g.calculate_jaccard_similarity(s("E"), s("missing")), (0, 0));
}

#[test]
fn k_core_thresholds() {
    let g = graph(&[("A", &["B", "C"]), ("B", &["C"]), ("C", &[])]);
    assert_eq!(sorted(g.k_core_decomposition(0)), vec![s("A"), s("B"), s("C")]);
    assert_eq!(sorted(g.k_core_decomposition(1)), vec![s("A"), s("B")]);
    assert_eq!(g.k_core_decomposition(2), vec![s("A")]);
    assert!(g.k_core_decomposition(3).is_empty());
    let sizes: Vec<usize> = (0..5).map(|k| g.k_core_decomposition(k).len()).collect();
    assert!(sizes.windows(2).all(|w| w[0] >= w[1]));
}

#[test]
fn degree_measures() {
    let g = graph(&[("A", &["B", "C", "C"]), ("B", &[])]);
    assert_eq!(g.calculate_betweenness(), vec![(s("A"), 3), (s("B"), 0)]);
    assert_eq!(g.find_cliques(), 4);
    assert_eq!(GraphWalker::new().find_cliques(), 1);
    assert_eq!(g.max_flow(s("A"), s("B")), 1);
}

#[test]
fn triangle_patterns_counted() {
    let g = graph(&[("A", &["B", "C"]), ("B", &["C"]), ("C", &["A"])]);
    assert_eq!(g.count_triangles(), 1);
    let g = graph(&[("A", &["B"]), ("B", &["C"]), ("C", &["A"])]);
    assert_eq!(g.count_triangles(), 1);
    assert_eq!(diamond().count_triangles(), 0);
    let g = graph(&[("A", &["B"]), ("B", &["A"])]);
    assert_eq!(g.count_triangles(), 0);
    let g = graph(&[("A", &["B", "C"]), ("B", &["C"]), ("C", &[])]);
    assert_eq!(g.count_triangles(), 0);
    let g = graph(&[("A", &["B", "C", "D"]), ("B", &["C", "D"]), ("C", &["D"]), ("D", &[])]);
    assert_eq!(g.count_triangles(), 1);
}

#[test]
fn diameter_of_chain_and_cycle() {
    let g = graph(&[("A", &["B"]), ("B", &["C"]), ("C", &["D"])]);
    assert_eq!(g.find_diameter(), 3);
    let g = graph(&[("A", &["B"]), ("B", &["C"]), ("C", &["A"])]);
    assert_eq!(g.find_diameter(), 2);
    assert_eq!(GraphWalker::new().find_diameter(), 0);
}

#[test]
fn spanning_edges_from_first_node() {
    let g = diamond();
    let mut t = g.minimum_spanning_tree();
    t.sort();
    assert_eq!(t.len(), 3);
    assert_eq!(t[0], (s("A"), s("B")));
    assert_eq!(t[1], (s("A"), s("C")));
    assert!(t[2] == (s("B"), s("D")));
    assert!(GraphWalker::new().minimum_spanning_tree().is_empty());
}

#[test]
fn consumer_keeps_settings() {
    let c = CausalConsumer::new("localhost:9092", "facts");
    assert_eq!(c.brokers, "localhost:9092");
    assert_eq!(c.topic, "facts");
}

#[test]
fn duplicate_dependents_do_not_double_count_triangles() {
    let g = graph(&[
        ("A", &["B", "B", "C", "C", "D"]),
        ("B", &["C", "D", "D"]),
        ("C", &["D", "D"]),
        ("D", &[]),
    ]);
    assert_eq!(g.count_triangles(), 1);
    let g = graph(&[("A", &["B", "B"]), ("B", &["C", "C"]), ("C", &["A", "A"])]);
    assert_eq!(g.count_triangles(), 1);
}

#[test]
fn communities_follow_forward_floods() {
    let g = graph(&[("A", &["B"]), ("C", &[])]);
    let cs = g.detect_communities();
    assert_eq!(cs.len(), 2);
    assert_eq!(sorted(cs[0].clone()), vec![s("A"), s("B")]);
    assert_eq!(cs[1], vec![s("C")]);
    let g = graph(&[("A", &["B"]), ("B", &["C"])]);
    let cs = g.detect_communities();
    assert_eq!(cs.len(), 1);
    assert_eq!(sorted(cs[0].clone()), vec![s("A"), s("B"), s("C")]);
}

#[test]
fn spanning_edges_form_a_breadth_first_tree() {
    let g = graph(&[("R", &["A", "B"]), ("A", &["C", "R"]), ("B", &["C", "D"]), ("C", &["D"]), ("D", &["D"])]);
    let t = g.minimum_spanning_tree();
    assert_eq!(
        t,
        vec![(s("R"), s("A")), (s("R"), s("B")), (s("A"), s("C")), (s("B"), s("D"))]
    );
    assert!(t.iter().all(|(u, v)| u != v));
}
