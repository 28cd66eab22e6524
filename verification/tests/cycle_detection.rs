use archunit::library::cycle_detection::{find_cycles, CycleDetector, SimpleEdge};

fn names(v: &[&str]) -> Vec<String> {
    v.iter().map(|s| s.to_string()).collect()
}

fn pairs(edges: &[SimpleEdge]) -> Vec<(String, String)> {
    edges.iter().map(|e| (e.origin.clone(), e.target.clone())).collect()
}

#[test]
fn finds_the_one_cycle_of_a_small_graph() {
    let nodes = names(&["a", "b", "c"]);
    let edges = vec![SimpleEdge::new("a", "b"), SimpleEdge::new("b", "a"), SimpleEdge::new("b", "c")];
    let cycles = CycleDetector::detect_cycles(&nodes, &edges);
    assert_eq!(cycles.len(), 1);
    assert!(!cycles.max_number_of_cycles_reached());
    assert_eq!(
        pairs(cycles.iter()[0].edges()),
        vec![("a".to_string(), "b".to_string()), ("b".to_string(), "a".to_string())]
    );
}

#[test]
fn finds_the_cycles_of_both_components() {
    let nodes = names(&["a", "b", "c", "d", "e"]);
    let edges = vec![
        SimpleEdge::new("a", "d"),
        SimpleEdge::new("d", "e"),
        SimpleEdge::new("e", "d"),
        SimpleEdge::new("b", "c"),
        SimpleEdge::new("c", "b"),
    ];
    let cycles = CycleDetector::detect_cycles_with_limit(&nodes, &edges, 10);
    assert_eq!(cycles.len(), 2);
    assert!(!cycles.max_number_of_cycles_reached());
    assert_eq!(pairs(cycles.iter()[0].edges())[0], ("b".to_string(), "c".to_string()));
    assert_eq!(pairs(cycles.iter()[1].edges())[0], ("d".to_string(), "e".to_string()));
}

#[test]
fn sets_the_limit_flag_only_when_more_cycles_exist() {
    let nodes = names(&["a", "b", "c"]);
    let edges = vec![
        SimpleEdge::new("a", "b"),
        SimpleEdge::new("b", "a"),
        SimpleEdge::new("b", "c"),
        SimpleEdge::new("c", "b"),
    ];
    let one = CycleDetector::detect_cycles_with_limit(&nodes, &edges, 1);
    assert!(one.max_number_of_cycles_reached());
    assert_eq!(one.len(), 1);
    let two = CycleDetector::detect_cycles_with_limit(&nodes, &edges, 2);
    assert!(!two.max_number_of_cycles_reached());
    assert_eq!(two.len(), 2);
}

#[test]
fn reports_a_self_loop() {
    let nodes = names(&["a"]);
    let edges = vec![SimpleEdge::new("a", "a")];
    let cycles = CycleDetector::detect_cycles(&nodes, &edges);
    assert!(!cycles.is_empty());
    assert_eq!(cycles.len(), 1);
    assert_eq!(pairs(cycles.iter()[0].edges()), vec![("a".to_string(), "a".to_string())]);
}

#[test]
fn finds_every_elementary_cycle_once_from_the_smallest_node() {
    // the complete graph on three nodes has five elementary cycles
    let adjacency = vec![vec![1, 2], vec![0, 2], vec![0, 1]];
    let (cycles, reached) = find_cycles(&adjacency, 100);
    assert!(!reached);
    assert_eq!(cycles, vec![vec![0, 1], vec![0, 1, 2], vec![0, 2], vec![0, 2, 1], vec![1, 2]]);
}
