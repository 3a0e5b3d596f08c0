use ocelot::config::supervise::cycles::{cycle_through, find_cycle_in_scc, graph_of};
use petgraph::Graph;

fn build_graph(nodes: &[&str], edges: &[(usize, usize)]) -> Graph<String, ()> {
    let mut graph = Graph::<String, ()>::new();
    let node_indices: Vec<_> = nodes.iter().map(|n| graph.add_node(n.to_string())).collect();
    for &(from, to) in edges {
        let _ = graph.add_edge(node_indices[from], node_indices[to], ());
    }
    graph
}

fn all_nodes(graph: &Graph<String, ()>) -> Vec<usize> {
    graph.node_indices().map(|i| i.index()).collect()
}

#[test]
fn test_simple_cycle_two_nodes() {
    let graph = build_graph(&["A", "B"], &[(0, 1), (1, 0)]);
    let scc = all_nodes(&graph);
    let cycle = find_cycle_in_scc(&graph, &scc, 0);
    assert!(cycle.is_some());
    let cycle = cycle.unwrap();
    assert!(cycle.first() == cycle.last());
    assert_eq!(cycle.len(), 3);
}

#[test]
fn test_cycle_three_nodes() {
    let graph = build_graph(&["A", "B", "C"], &[(0, 1), (1, 2), (2, 0)]);
    let scc = all_nodes(&graph);
    let cycle = find_cycle_in_scc(&graph, &scc, 0);
    assert!(cycle.is_some());
    let cycle = cycle.unwrap();
    assert!(cycle.first() == cycle.last());
    assert_eq!(cycle.len(), 4);
}

#[test]
fn test_no_cycle_single_node() {
    let graph = build_graph(&["A"], &[]);
    let scc = all_nodes(&graph);
    let cycle = find_cycle_in_scc(&graph, &scc, 0);
    assert!(cycle.is_none());
}

#[test]
fn utils_test_self_loop() {
    let graph = build_graph(&["A"], &[(0, 0)]);
    let scc = all_nodes(&graph);
    let cycle = find_cycle_in_scc(&graph, &scc, 0);
    assert!(cycle.is_some());
    let cycle = cycle.unwrap();
    assert_eq!(cycle.len(), 2);
    assert!(cycle.first() == cycle.last());
}

#[test]
fn test_no_cycle_dag() {
    let graph = build_graph(&["A", "B", "C"], &[(0, 1), (1, 2)]);
    let scc = all_nodes(&graph);
    let cycle = find_cycle_in_scc(&graph, &scc, 0);
    assert!(cycle.is_none());
}

#[test]
fn utils_test_complex_scc() {
    let graph = build_graph(&["A", "B", "C", "D"], &[(0, 1), (1, 2), (2, 0), (2, 3), (3, 2)]);
    let scc = all_nodes(&graph);
    let cycle = find_cycle_in_scc(&graph, &scc, 0);
    assert!(cycle.is_some());
    let cycle = cycle.unwrap();
    assert!(cycle.first() == cycle.last());
    assert!(cycle.len() >= 3);
}

#[test]
fn utils_test_cycle_not_starting_from_first_node() {
    let graph = build_graph(&["A", "B", "C"], &[(0, 1), (1, 2), (2, 1)]);
    let scc = all_nodes(&graph);
    let cycle = find_cycle_in_scc(&graph, &scc, 1);
    assert!(cycle.is_some());
    let cycle = cycle.unwrap();
    assert!(cycle.first() == cycle.last());
}

#[test]
fn utils_test_four_node_cycle() {
    let graph = build_graph(&["A", "B", "C", "D"], &[(0, 1), (1, 2), (2, 3), (3, 0)]);
    let scc = all_nodes(&graph);
    let cycle = find_cycle_in_scc(&graph, &scc, 0);
    assert!(cycle.is_some());
    let cycle = cycle.unwrap();
    assert!(cycle.first() == cycle.last());
    assert_eq!(cycle.len(), 5);
}

#[test]
fn cycle_search_stays_inside_the_component() {
    // 0 -> 1 -> 0 is a cycle, but 1 -> 2 leaves the component {0, 1}.
    let graph = build_graph(&["A", "B", "C"], &[(0, 1), (1, 2), (1, 0)]);
    let cycle = find_cycle_in_scc(&graph, &[0, 1], 0).unwrap();
    assert_eq!(cycle, vec![0, 1, 0]);
}

#[test]
fn cycle_search_descends_into_one_successor_at_a_time() {
    // From 0 the search descends into 2 (the later edge, listed first), whose
    // edge back to 0 closes the cycle; the stack is always a path.
    let graph = build_graph(&["A", "B", "C"], &[(0, 1), (0, 2), (1, 0), (2, 0)]);
    let cycle = find_cycle_in_scc(&graph, &[0, 1, 2], 0).unwrap();
    assert_eq!(cycle, vec![0, 2, 0]);
}

#[test]
fn cycle_through_names_a_closed_cycle() {
    let graph = build_graph(&["A", "B", "C"], &[(0, 1), (1, 2), (2, 0)]);
    let cycle = cycle_through(&graph, 1);
    assert_eq!(cycle.first(), cycle.last());
    assert_eq!(cycle.len(), 4);
    assert!(cycle.contains(&0) && cycle.contains(&1) && cycle.contains(&2));
}

#[test]
fn cycle_through_a_self_loop() {
    let graph = build_graph(&["A", "B"], &[(0, 1), (1, 1)]);
    assert_eq!(cycle_through(&graph, 1), vec![1, 1]);
}

#[test]
fn two_node_cycle_is_exact() {
    let graph = build_graph(&["A", "B"], &[(0, 1), (1, 0)]);
    let scc = all_nodes(&graph);
    assert_eq!(find_cycle_in_scc(&graph, &scc, 0), Some(vec![0, 1, 0]));
}

#[test]
fn graph_of_builds_the_graph_that_is_searched() {
    let names: Vec<String> = vec!["A".to_string(), "B".to_string(), "C".to_string()];
    let graph = graph_of(&names, &vec![(0, 1), (1, 2), (2, 0)]);
    assert_eq!(graph.node_count(), 3);
    assert_eq!(graph.edge_count(), 3);
    assert_eq!(find_cycle_in_scc(&graph, &[0, 1, 2], 0), Some(vec![0, 1, 2, 0]));
    assert_eq!(cycle_through(&graph, 2), vec![2, 0, 1, 2]);
}
