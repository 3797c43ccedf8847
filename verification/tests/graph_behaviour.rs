use mygrep::graph::Graph;
use mygrep::graph::GraphError;

#[test]
fn given_basic_graph_when_outgoing_edges_called_for_node_should_return_all_outgoing_edges_for_node()
{
    // N0 ---E0---> N1 ---E1---> 2
    // |                         ^
    // E2                        |
    // |                         |
    // v                         |
    // N3 ----------E3-----------+

    let mut graph: Graph<&str, &str> = Graph::new();

    let n0 = graph.add_node("n0");
    let n1 = graph.add_node("n1");
    let n2 = graph.add_node("n2");
    let n3 = graph.add_node("n3");

    graph.add_edge(n0, n1, "n0->n1"); // e0
    graph.add_edge(n1, n2, "n1->n2"); // e1
    graph.add_edge(n0, n3, "n0->n3"); // e2
    graph.add_edge(n3, n2, "n3->n2"); // e3

    let n0_outgoing_edges = graph.outgoing_edges(n0).unwrap();

    assert!(n0_outgoing_edges.len() == 2);
    assert!(*graph.get_edge_data(n0_outgoing_edges[0]) == "n0->n3");
    assert!(*graph.get_edge_data(n0_outgoing_edges[1]) == "n0->n1");

    let n1_outgoing_edges = graph.outgoing_edges(n1).unwrap();

    assert!(n1_outgoing_edges.len() == 1);
    assert!(*graph.get_edge_data(n1_outgoing_edges[0]) == "n1->n2");

    let n2_outgoing_edges = graph.outgoing_edges(n2).unwrap();

    assert!(n2_outgoing_edges.len() == 0);

    let n3_outgoing_edges = graph.outgoing_edges(n3).unwrap();

    assert!(n3_outgoing_edges.len() == 1);
    assert!(*graph.get_edge_data(n3_outgoing_edges[0]) == "n3->n2");
}

#[test]
fn given_basic_graph_that_loops_when_traversing_through_from_start_should_loopback_to_the_start() {
    // N0 ---E0---> N1 ---E1---> N2
    // ^                         |
    // |                         |
    // |                         |
    // |                         |
    // +-----------E2------------+

    let mut graph: Graph<&str, &str> = Graph::new();

    let n0 = graph.add_node("n0");
    let n1 = graph.add_node("n1");
    let n2 = graph.add_node("n2");

    graph.add_edge(n0, n1, "n0->n1"); // e0
    graph.add_edge(n1, n2, "n1->n2"); // e1
    graph.add_edge(n2, n0, "n2->n0"); // e2

    let n0_outgoing_edges = graph.outgoing_edges(n0).unwrap();
    assert!(n0_outgoing_edges.len() == 1);

    let first_jump = graph.traverse(n0_outgoing_edges[0]).unwrap();
    assert!(*graph.get_node_data(first_jump) == "n1");

    let n1_outgoing_edges = graph.outgoing_edges(first_jump).unwrap();
    assert!(n1_outgoing_edges.len() == 1);

    let second_jump = graph.traverse(n1_outgoing_edges[0]).unwrap();
    assert!(*graph.get_node_data(second_jump) == "n2");

    let n2_outgoing_edges = graph.outgoing_edges(second_jump).unwrap();
    assert!(n2_outgoing_edges.len() == 1);

    let third_jump = graph.traverse(n2_outgoing_edges[0]).unwrap();
    assert!(*graph.get_node_data(third_jump) == "n0");
}

#[test]
fn given_out_of_range_indices_when_asking_the_graph_should_report_the_index_errors() {
    let mut graph: Graph<u32, u32> = Graph::new();
    let n0 = graph.add_node(7);

    assert!(matches!(graph.outgoing_edges(n0 + 1), Err(GraphError::InvalidNodeIndex)));
    assert!(matches!(graph.traverse(0), Err(GraphError::InvalidEdgeIndex)));
}
