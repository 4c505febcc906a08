use graph_stats::graph::Graph;
use graph_stats::graph_analysis::clustering_coefficient;
use graph_stats::graph_analysis::compute_shortest_paths_bfs;
use graph_stats::graph_analysis::degree_analysis;
use graph_stats::graph_analysis::node_degrees;
use graph_stats::graph_analysis::ClusteringMeasure;
use graph_stats::graph_analysis::QueryError;
use graph_stats::graph_loader::load_graph;
use graph_stats::graph_loader::MyError;

fn coefficient(cm: &ClusteringMeasure) -> f64 {
    if cm.total_pairs == 0 {
        0.0
    } else {
        cm.connected_pairs as f64 / cm.total_pairs as f64
    }
}

#[test]
fn test_load_valid_graph() {
    let dataset = "0\t1\n1\t2\n2\t0";
    let graph = load_graph(dataset).expect("Failed to load graph!");
    assert_eq!(graph.node_count(), 3, "Expected 3 nodes in the graph");
    assert_eq!(graph.edge_count(), 3, "Expected 3 edges in the graph");
}

#[test]
fn test_load_graph_empty_file() {
    let result = load_graph("");
    assert!(result.is_ok(), "Graph loading failed or empty dataset");
    let graph = result.unwrap();
    assert_eq!(graph.node_count(), 0, "Expctected 0 nodes for an empty dataset!");
    assert_eq!(graph.edge_count(), 0, "Expctected 0 edges for an empty dataset!");
}

#[test]
fn test_load_graph_malformed_file() {
    let malformed_data = "0\t1\ninvalid_line\n2\t3";
    let result = load_graph(malformed_data);
    assert!(
        matches!(result, Err(MyError::FormatError(_))),
        "Expected FormatError for malformed dataset"
    );
}

#[test]
fn test_load_large_graph() {
    let mut dataset = String::new();
    for i in 0..1000 {
        dataset.push_str(&format!("{}\t{}\n", i, i + 1));
    }
    let graph = load_graph(&dataset).expect("Failed to load large graph");
    assert_eq!(graph.node_count(), 1001, "Expected 1001 nodes in the graph");
    assert_eq!(graph.edge_count(), 1000, "Expected 1000 edges in the graph");
}

#[test]
fn test_degree_analysis_small_graph() {
    let mut graph = Graph::new();
    let a = graph.resolve(1);
    let b = graph.resolve(2);
    let c = graph.resolve(3);

    graph.add_edge(a, b);
    graph.add_edge(b, c);
    graph.add_edge(c, a);

    let (in_degrees, out_degrees) = node_degrees(&graph);
    assert_eq!(in_degrees, vec![1, 1, 1], "Each node should have in-degree 1");
    assert_eq!(out_degrees, vec![1, 1, 1], "Each node should have out-degree 1");
}

#[test]
fn test_graph_analysis_degrees() {
    let mut graph = Graph::new();
    let a = graph.resolve(1);
    let b = graph.resolve(2);
    let c = graph.resolve(3);

    graph.add_edge(a, b);
    graph.add_edge(b, c);
    graph.add_edge(c, a);

    let stats = degree_analysis(&graph);
    let avg_in_degree = stats.in_degree_sum as f64 / stats.node_count as f64;
    let avg_out_degree = stats.out_degree_sum as f64 / stats.node_count as f64;

    assert_eq!(avg_in_degree, 1.0, "Expected average in-degree to be 1.0");
    assert_eq!(avg_out_degree, 1.0, "Expected average out-degree to be 1.0");
}

#[test]
fn test_clustering_coefficient_no_neighbors() {
    let mut graph = Graph::new();
    graph.resolve(1);

    let cm = clustering_coefficient(&graph, 1).expect("node 1 is in the graph");
    assert_eq!(
        coefficient(&cm),
        0.0,
        "Clustering coefficient with no neighbors should be 0.0"
    );
}

#[test]
fn test_clustering_coefficient_complete_neighbors() {
    let mut graph = Graph::new();
    let a = graph.resolve(1);
    let b = graph.resolve(2);
    let c = graph.resolve(3);

    graph.add_edge(a, b);
    graph.add_edge(b, c);
    graph.add_edge(c, a);

    let cm = clustering_coefficient(&graph, 1).expect("node 1 is in the graph");
    assert_eq!(
        coefficient(&cm),
        1.0,
        "Clustering coefficient for fully connected neigbors should be 1.0"
    );
}

#[test]
fn test_clustering_coefficient_partial_neighbors() {
    let mut graph = Graph::new();
    let a = graph.resolve(1);
    let b = graph.resolve(2);
    let c = graph.resolve(3);

    graph.add_edge(a, b);
    graph.add_edge(a, c);

    let cm = clustering_coefficient(&graph, 1).expect("node 1 is in the graph");
    assert_eq!(
        coefficient(&cm),
        0.0,
        "Clustering coefficient for partially connected neighbors should be 0.0"
    );
}

#[test]
fn test_shortest_paths_cycle() {
    let graph = load_graph("0\t1\n1\t2\n2\t0").expect("cycle loads");
    let distances = compute_shortest_paths_bfs(&graph, 0).expect("source 0 is in the graph");
    assert_eq!(distances.len(), 3);
    assert_eq!(distances.get(&0), Some(&0));
    assert_eq!(distances.get(&1), Some(&1));
    assert_eq!(distances.get(&2), Some(&2));
}

#[test]
fn test_shortest_paths_missing_source() {
    let graph = load_graph("0\t1").expect("two-node graph loads");
    let result = compute_shortest_paths_bfs(&graph, 99);
    assert_eq!(result.unwrap_err(), QueryError::NodeNotFound);
}

#[test]
fn test_shortest_paths_unreachable_absent() {
    let graph = load_graph("0\t1\n2\t3").expect("two components load");
    let distances = compute_shortest_paths_bfs(&graph, 0).expect("source 0 is in the graph");
    assert_eq!(distances.len(), 2);
    assert_eq!(distances.get(&0), Some(&0));
    assert_eq!(distances.get(&1), Some(&1));
    assert_eq!(distances.get(&2), None);
    assert_eq!(distances.get(&3), None);
}

#[test]
fn test_shortest_paths_follows_out_edges_only() {
    let graph = load_graph("1\t0\n0\t2").expect("graph loads");
    let distances = compute_shortest_paths_bfs(&graph, 0).expect("source 0 is in the graph");
    assert_eq!(distances.len(), 2);
    assert_eq!(distances.get(&0), Some(&0));
    assert_eq!(distances.get(&2), Some(&1));
    assert_eq!(distances.get(&1), None, "in-edges must not be followed");
}

#[test]
fn test_parse_error_token() {
    let result = load_graph("0\tx");
    match result {
        Err(MyError::ParseError(token)) => assert_eq!(token, "x"),
        other => panic!("expected ParseError, got {:?}", other),
    }
}

#[test]
fn test_parse_error_overflow() {
    let result = load_graph("0\t4294967296");
    assert!(matches!(result, Err(MyError::ParseError(_))));
}

#[test]
fn test_comment_lines_skipped() {
    let graph = load_graph("# a comment\n0\t1\n#2\t3").expect("comments are skipped");
    assert_eq!(graph.node_count(), 2);
    assert_eq!(graph.edge_count(), 1);
}

#[test]
fn test_empty_line_is_format_error() {
    let result = load_graph("0\t1\n\n2\t3");
    match result {
        Err(MyError::FormatError(line)) => assert_eq!(line, ""),
        other => panic!("expected FormatError, got {:?}", other),
    }
}

#[test]
fn test_three_fields_is_format_error() {
    let result = load_graph("0\t1\t2");
    assert!(matches!(result, Err(MyError::FormatError(_))));
}

#[test]
fn test_duplicate_edges_kept() {
    let graph = load_graph("0\t1\n0\t1").expect("parallel edges load");
    assert_eq!(graph.node_count(), 2);
    assert_eq!(graph.edge_count(), 2);
}

#[test]
fn test_self_loop_counts_once_each_side() {
    let graph = load_graph("5\t5").expect("self-loop loads");
    assert_eq!(graph.node_count(), 1);
    assert_eq!(graph.edge_count(), 1);
    let stats = degree_analysis(&graph);
    assert_eq!(stats.in_degree_sum, 1);
    assert_eq!(stats.out_degree_sum, 1);
    let cm = clustering_coefficient(&graph, 5).expect("node 5 is in the graph");
    assert_eq!(coefficient(&cm), 0.0, "a self-loop is not a neighbor");
}

#[test]
fn test_plus_sign_parses() {
    let graph = load_graph("+0\t+1").expect("leading plus is accepted");
    assert_eq!(graph.node_count(), 2);
    assert_eq!(graph.edge_count(), 1);
}

#[test]
fn test_degree_stats_empty_graph() {
    let graph = load_graph("").expect("empty text loads");
    let stats = degree_analysis(&graph);
    assert_eq!(stats.node_count, 0);
    assert_eq!(stats.in_degree_sum, 0);
    assert_eq!(stats.out_degree_sum, 0);
    let avg_in = if stats.node_count == 0 {
        0.0
    } else {
        stats.in_degree_sum as f64 / stats.node_count as f64
    };
    assert_eq!(avg_in, 0.0, "means of an empty graph are 0.0, not NaN");
}

#[test]
fn test_analyzers_idempotent() {
    let graph = load_graph("0\t1\n1\t2\n2\t0\n0\t2").expect("graph loads");
    assert_eq!(degree_analysis(&graph), degree_analysis(&graph));
    assert_eq!(
        compute_shortest_paths_bfs(&graph, 0).unwrap(),
        compute_shortest_paths_bfs(&graph, 0).unwrap()
    );
    assert_eq!(
        clustering_coefficient(&graph, 1).unwrap(),
        clustering_coefficient(&graph, 1).unwrap()
    );
}

#[test]
fn test_resolve_is_idempotent() {
    let mut graph = Graph::new();
    let a = graph.resolve(7);
    let b = graph.resolve(9);
    assert_ne!(a, b);
    assert_eq!(graph.resolve(7), a);
    assert_eq!(graph.resolve(9), b);
    assert_eq!(graph.node_count(), 2);
}
