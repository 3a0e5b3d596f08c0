use ocelot::graph::DiGraph;
use ocelot::modules::depfile::parse_dep_file;
use ocelot::modules::resolve::resolve_module_order;

fn build_graph(labels: &[&str], edges: &[(usize, usize)]) -> DiGraph<String> {
    let mut graph = DiGraph::new();
    for label in labels {
        let _ = graph.add_node(label, label.to_string());
    }
    for (from, to) in edges {
        let from_name = labels[*from];
        let to_name = labels[*to];
        graph.add_edge(from_name, to_name);
    }
    graph
}

#[test]
fn test_empty_graph() {
    let graph: DiGraph<String> = DiGraph::new();
    assert_eq!(graph.node_count(), 0);
    assert!(graph.kosaraju_scc().is_empty());
}

#[test]
fn test_single_node_no_edges() {
    let graph = build_graph(&["A"], &[]);
    assert_eq!(graph.node_count(), 1);
    let sccs = graph.kosaraju_scc();
    assert_eq!(sccs.len(), 1);
    assert_eq!(sccs[0], vec![0]);
}

#[test]
fn test_multiple_independent_nodes() {
    let graph = build_graph(&["A", "B", "C"], &[]);
    let sccs = graph.kosaraju_scc();
    assert_eq!(sccs.len(), 3);
    for scc in &sccs {
        assert_eq!(scc.len(), 1);
    }
}

#[test]
fn test_simple_dag() {
    let graph = build_graph(&["A", "B", "C"], &[(0, 1), (1, 2)]);
    let sccs = graph.kosaraju_scc();
    assert_eq!(sccs.len(), 3);
    for scc in &sccs {
        assert_eq!(scc.len(), 1);
    }
}

#[test]
fn test_two_node_cycle() {
    let graph = build_graph(&["A", "B"], &[(0, 1), (1, 0)]);
    let sccs = graph.kosaraju_scc();
    assert_eq!(sccs.len(), 1);
    assert_eq!(sccs[0].len(), 2);

    let cycle = graph.find_cycle_in_scc(&sccs[0], sccs[0][0]);
    assert!(cycle.is_some());
    let cycle = cycle.unwrap();
    assert_eq!(cycle.first(), cycle.last());
}

#[test]
fn test_three_node_cycle() {
    let graph = build_graph(&["A", "B", "C"], &[(0, 1), (1, 2), (2, 0)]);
    let sccs = graph.kosaraju_scc();
    assert_eq!(sccs.len(), 1);
    assert_eq!(sccs[0].len(), 3);

    let cycle = graph.find_cycle_in_scc(&sccs[0], 0);
    assert!(cycle.is_some());
    let cycle = cycle.unwrap();
    assert_eq!(cycle.first(), cycle.last());
    assert!(cycle.len() >= 3);
}

#[test]
fn mod_test_self_loop() {
    {
        let data = br"kernel/a.ko.xz: kernel/a.ko.xz";
        let map = parse_dep_file(data);
        let result = resolve_module_order(&map, &["a.ko.xz".to_string()]);
        assert!(result.is_err());
        let err = result.unwrap_err();
        let msg = err.message();
        assert!(msg.contains("a.ko.xz"));
    }

    let graph = build_graph(&["A"], &[(0, 0)]);
    let sccs = graph.kosaraju_scc();
    assert_eq!(sccs.len(), 1);

    let cycle = graph.find_cycle_in_scc(&sccs[0], 0);
    assert!(cycle.is_some());
    let cycle = cycle.unwrap();
    assert_eq!(cycle.len(), 2);
}

#[test]
fn test_no_cycle_in_single_node_scc() {
    let graph = build_graph(&["A", "B", "C"], &[(0, 1), (1, 2)]);
    let sccs = graph.kosaraju_scc();
    for scc in &sccs {
        let cycle = graph.find_cycle_in_scc(scc, scc[0]);
        assert!(cycle.is_none());
    }
}

#[test]
fn test_detect_cycle_in_dag() {
    let graph = build_graph(&["A", "B", "C"], &[(0, 1), (1, 2)]);
    let cycle = graph.detect_cycle();
    assert!(cycle.is_none());
}

#[test]
fn test_detect_cycle_with_cycle() {
    let graph = build_graph(&["A", "B", "C"], &[(0, 1), (1, 2), (2, 0)]);
    let cycle = graph.detect_cycle();
    assert!(cycle.is_some());
}

#[test]
fn test_topological_order() {
    let graph = build_graph(&["A", "B", "C"], &[(0, 1), (1, 2)]);
    let order = graph.topological_order();
    assert_eq!(order.len(), 3);
    let a_pos = order.iter().position(|l| l == "A").unwrap();
    let b_pos = order.iter().position(|l| l == "B").unwrap();
    let c_pos = order.iter().position(|l| l == "C").unwrap();
    assert!(c_pos < b_pos);
    assert!(b_pos < a_pos);
}

#[test]
fn test_get_id_and_label() {
    let mut graph: DiGraph<String> = DiGraph::new();
    let id = graph.add_node("foo", "bar".to_string());
    assert_eq!(graph.get_id("foo"), Some(id));
    assert_eq!(graph.get_label(id), Some(&"bar".to_string()));
    assert_eq!(graph.get_id("nonexistent"), None);
    assert_eq!(graph.get_label(999), None);
}

#[test]
fn test_add_edge_ignores_nonexistent() {
    let mut graph = build_graph(&["A", "B"], &[]);
    graph.add_edge("nonexistent", "A");
    graph.add_edge("A", "nonexistent");
    assert_eq!(graph.neighbors(0).len(), 0);
}

#[test]
fn mod_test_complex_scc() {
    let graph = build_graph(&["A", "B", "C", "D"], &[(0, 1), (1, 2), (2, 0), (2, 3), (3, 2)]);
    let sccs = graph.kosaraju_scc();
    assert_eq!(sccs.len(), 1);
    assert_eq!(sccs[0].len(), 4);
}

#[test]
fn mod_test_cycle_not_starting_from_first_node() {
    let graph = build_graph(&["A", "B", "C"], &[(0, 1), (1, 2), (2, 1)]);
    let sccs = graph.kosaraju_scc();
    assert!(!sccs.is_empty());

    let scc_with_bc = sccs.iter().find(|scc| scc.contains(&1) && scc.contains(&2));
    assert!(scc_with_bc.is_some());
    let scc = scc_with_bc.unwrap();

    let cycle = graph.find_cycle_in_scc(scc, 1);
    assert!(cycle.is_some());
}

#[test]
fn mod_test_four_node_cycle() {
    let graph = build_graph(&["A", "B", "C", "D"], &[(0, 1), (1, 2), (2, 3), (3, 0)]);
    let sccs = graph.kosaraju_scc();
    assert_eq!(sccs.len(), 1);

    let cycle = graph.find_cycle_in_scc(&sccs[0], 0);
    assert!(cycle.is_some());
    let cycle = cycle.unwrap();
    assert_eq!(cycle.first(), cycle.last());
    assert_eq!(cycle.len(), 5);
}

#[test]
fn test_diamond_dag() {
    let graph = build_graph(&["A", "B", "C", "D"], &[(0, 1), (0, 2), (1, 3), (2, 3)]);
    let sccs = graph.kosaraju_scc();
    for scc in &sccs {
        assert_eq!(scc.len(), 1);
    }
    let order = graph.topological_order();
    let a_pos = order.iter().position(|l| l == "A").unwrap();
    let d_pos = order.iter().position(|l| l == "D").unwrap();
    assert!(d_pos < a_pos);
}

#[test]
fn test_shared_dependency() {
    let graph = build_graph(&["A", "B", "C"], &[(0, 2), (1, 2)]);
    let order = graph.topological_order();
    let c_pos = order.iter().position(|l| l == "C").unwrap();
    let a_pos = order.iter().position(|l| l == "A").unwrap();
    let b_pos = order.iter().position(|l| l == "B").unwrap();
    assert!(c_pos < a_pos);
    assert!(c_pos < b_pos);
}

#[test]
fn test_large_graph_128_nodes() {
    let mut graph = DiGraph::<String>::new();

    for i in 0..128 {
        let _ = graph.add_node(&format!("P_{i}"), format!("P_{i}"));
    }

    // Linear chain: P_0 → P_1 → ... → P_127
    for i in 0..127 {
        graph.add_edge(&format!("P_{i}"), &format!("P_{}", i + 1));
    }

    assert_eq!(graph.node_count(), 128);
    let sccs = graph.kosaraju_scc();
    assert!(sccs.iter().all(|scc| scc.len() == 1));

    let order = graph.topological_order();
    assert_eq!(order.len(), 128);

    let cycle = graph.detect_cycle();
    assert!(cycle.is_none());
}

#[test]
fn test_large_graph_512_nodes_with_cycle() {
    let mut graph = DiGraph::<String>::new();

    for i in 0..512 {
        let _ = graph.add_node(&format!("P_{i}"), format!("P_{i}"));
    }

    // Create a cycle by wrapping around
    for i in 0..512 {
        let deps = [(i + 1) % 512, (i + 2) % 512, (i + 3) % 512];
        for dep in deps {
            graph.add_edge(&format!("P_{i}"), &format!("P_{dep}"));
        }
    }

    assert_eq!(graph.node_count(), 512);
    let _sccs = graph.kosaraju_scc();
    let cycle = graph.detect_cycle();
    assert!(cycle.is_some());
}

#[test]
fn test_large_graph_1024_nodes_with_cycle() {
    let mut graph = DiGraph::<String>::new();

    for i in 0..1024 {
        let _ = graph.add_node(&format!("P_{i}"), format!("P_{i}"));
    }

    // Create a cycle by wrapping around
    for i in 0..1024 {
        let deps = [(i + 1) % 1024, (i + 2) % 1024, (i + 3) % 1024];
        for dep in deps {
            graph.add_edge(&format!("P_{i}"), &format!("P_{dep}"));
        }
    }

    assert_eq!(graph.node_count(), 1024);
    let cycle = graph.detect_cycle();
    assert!(cycle.is_some());

    let order = graph.topological_order();
    assert!(order.len() <= 1024);
}

fn labels(v: &[&str]) -> Vec<String> {
    v.iter().map(|s| s.to_string()).collect()
}

#[test]
fn find_cycle_returns_the_stack_stretch() {
    let g = build_graph(&["A", "B", "C"], &[(0, 1), (1, 2), (2, 1), (2, 0)]);
    assert_eq!(g.find_cycle_in_scc(&[0, 1, 2], 0), Some(labels(&["B", "C", "B"])));
}

#[test]
fn find_cycle_returns_the_whole_four_cycle() {
    let g = build_graph(&["A", "B", "C", "D"], &[(0, 1), (1, 2), (2, 3), (3, 0)]);
    let sccs = g.kosaraju_scc();
    assert_eq!(sccs.len(), 1);
    assert_eq!(g.find_cycle_in_scc(&sccs[0], 0), Some(labels(&["A", "B", "C", "D", "A"])));
}

#[test]
fn find_cycle_closes_a_self_loop_at_once() {
    let g = build_graph(&["A"], &[(0, 0)]);
    let sccs = g.kosaraju_scc();
    assert_eq!(sccs.len(), 1);
    assert_eq!(g.find_cycle_in_scc(&sccs[0], 0), Some(labels(&["A", "A"])));
    // The search descends into B before it reaches A's self-loop, and B's
    // edge back to A closes a cycle first.
    let g = build_graph(&["A", "B"], &[(0, 1), (0, 0), (1, 0)]);
    assert_eq!(g.find_cycle_in_scc(&[0, 1], 0), Some(labels(&["A", "B", "A"])));
    // A self-loop met before any unvisited successor gives the node twice.
    let g = build_graph(&["A", "B"], &[(0, 0), (0, 1), (1, 0)]);
    assert_eq!(g.find_cycle_in_scc(&[0, 1], 0), Some(labels(&["A", "A"])));
}

#[test]
fn detect_cycle_names_every_node_of_a_simple_cycle() {
    let g = build_graph(&["A", "B", "C"], &[(0, 1), (1, 2), (2, 0)]);
    let c = g.detect_cycle().unwrap();
    assert_eq!(c.len(), 4);
    assert_eq!(c.first(), c.last());
    for l in ["A", "B", "C"] {
        assert!(c.contains(&l.to_string()));
    }
}

#[test]
fn detect_cycle_skips_nodes_on_no_cycle() {
    // D leads into the cycle B -> C -> B but lies on none.
    let g = build_graph(&["D", "B", "C"], &[(0, 1), (1, 2), (2, 1)]);
    let c = g.detect_cycle().unwrap();
    assert_eq!(c.len(), 3);
    assert!(!c.contains(&"D".to_string()));
}

#[test]
fn find_cycle_returns_a_path_of_edges() {
    // B -> C is no edge, so A, B, C, A would be no cycle.
    let g = build_graph(&["A", "B", "C"], &[(0, 1), (0, 2), (1, 0), (2, 0)]);
    assert_eq!(g.find_cycle_in_scc(&[0, 1, 2], 0), Some(labels(&["A", "B", "A"])));
}

#[test]
fn detect_cycle_starts_at_the_last_node_on_a_cycle_to_finish() {
    // The first pass finishes C, B, A; of the nodes on a cycle, A finishes last.
    let g = build_graph(&["A", "B", "C"], &[(0, 1), (1, 2), (2, 0)]);
    assert_eq!(g.detect_cycle(), Some(labels(&["A", "B", "C", "A"])));
    // Here A lies on no cycle; of B and C, B finishes last.
    let g = build_graph(&["A", "B", "C"], &[(0, 1), (1, 2), (2, 1)]);
    assert_eq!(g.detect_cycle(), Some(labels(&["B", "C", "B"])));
}

#[test]
fn topological_order_of_a_graph_without_cycles_is_the_finish_order() {
    // The search from A finishes B, then C (whose edge to B finds it done), then A.
    let g = build_graph(&["A", "B", "C"], &[(0, 1), (0, 2), (2, 1)]);
    assert_eq!(g.topological_order(), labels(&["B", "C", "A"]));
    // Each node that no search has reached starts one of its own, in order.
    let g = build_graph(&["A", "B", "C"], &[(1, 0), (2, 0)]);
    assert_eq!(g.topological_order(), labels(&["A", "B", "C"]));
}

#[test]
fn kosaraju_components_and_their_order_are_exact() {
    // The first pass finishes C, B, A. The second pass starts at A and
    // collects A, then its predecessor B; C is left for a component of its own.
    let g = build_graph(&["A", "B", "C"], &[(0, 1), (1, 0), (1, 2)]);
    assert_eq!(g.kosaraju_scc(), vec![vec![0, 1], vec![2]]);
    assert_eq!(g.topological_order(), labels(&["C", "A", "B"]));
}
