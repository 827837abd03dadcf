use graph_rs::graph::{Graph, GraphError, Node};

#[test]
fn graph_check_if_node_is_in_the_graph() {
    let mut graph = Graph::new(1, 0);
    let n1 = Node::new(1);
    let n2 = Node::new(2);
    graph.add_node(n1);
    graph.add_node(n2);

    assert_eq!(graph.nodes()[0].data, 1);
    assert_eq!(graph.nodes()[1].data, 2);
}

#[test]
fn graph_add_directed_edge() {
    let mut graph = Graph::new(1, 0);
    let n1 = Node::new(1);
    let n2 = Node::new(2);
    graph.add_node(n1);
    graph.add_node(n2);
    graph.add_edge(0, 1, 0).unwrap();

    assert_eq!(graph.edges()[0].target, 1);
    assert_eq!(graph.edges()[0].weight, 0);
}

#[test]
fn graph_add_undirected_edge() {
    let mut graph = Graph::new(1, 0);
    let n1 = Node::new(1);
    let n2 = Node::new(2);
    graph.add_node(n1);
    graph.add_node(n2);
    graph.add_undirected_edge(0, 1, 0).unwrap();

    assert_eq!(graph.edges()[0].target, 1);
    assert_eq!(graph.edges()[0].weight, 0);
    assert_eq!(graph.edges()[1].target, 0);
    assert_eq!(graph.edges()[1].weight, 0);
}

#[test]
fn mod_check_if_node_is_in_the_graph() {
    let mut graph = Graph::new(1, 0);
    let n1 = Node::new(1);
    let n2 = Node::new(2);
    graph.add_node(n1);
    graph.add_node(n2);

    assert_eq!(graph.nodes()[0].data, 1);
    assert_eq!(graph.nodes()[1].data, 2);
}

#[test]
fn mod_add_directed_edge() {
    let mut graph = Graph::new(1, 0);
    let n1 = Node::new(1);
    let n2 = Node::new(2);
    graph.add_node(n1);
    graph.add_node(n2);
    graph.add_edge(0, 1, 0).unwrap();

    assert_eq!(graph.edges()[0].target, 1);
    assert_eq!(graph.edges()[0].weight, 0);
}

#[test]
fn mod_add_undirected_edge() {
    let mut graph = Graph::new(1, 0);
    let n1 = Node::new(1);
    let n2 = Node::new(2);
    graph.add_node(n1);
    graph.add_node(n2);
    graph.add_undirected_edge(0, 1, 0).unwrap();

    assert_eq!(graph.edges()[0].target, 1);
    assert_eq!(graph.edges()[0].weight, 0);
    assert_eq!(graph.edges()[1].target, 0);
    assert_eq!(graph.edges()[1].weight, 0);
}

#[test]
fn add_edge_rejects_an_index_out_of_bounds() {
    let mut graph = Graph::new(2, 1);
    graph.add_node(Node::new(7));
    assert_eq!(graph.add_edge(0, 1, 3), Err(GraphError::IndexError));
    assert_eq!(graph.add_edge(1, 0, 3), Err(GraphError::IndexError));
    assert_eq!(graph.edges().len(), 0);
    assert_eq!(graph.add_edge(0, 0, 3), Ok(()));
    assert_eq!(graph.edges().len(), 1);
}

#[test]
fn an_undirected_edge_on_one_node_adds_two_loops() {
    let mut graph = Graph::new(1, 2);
    graph.add_node(Node::new('x'));
    assert_eq!(graph.add_undirected_edge(0, 0, 6), Ok(()));
    assert_eq!(graph.edges().len(), 2);
    let mut it = graph.adj_list(0);
    assert_eq!(it.next(), Some((1, 0)));
    assert_eq!(it.next(), Some((0, 0)));
    assert_eq!(it.next(), None);
}

#[test]
fn an_undirected_edge_with_a_bad_end_adds_nothing() {
    let mut graph = Graph::new(1, 2);
    graph.add_node(Node::new('x'));
    assert_eq!(graph.add_undirected_edge(0, 3, 6), Err(GraphError::IndexError));
    assert_eq!(graph.add_undirected_edge(3, 0, 6), Err(GraphError::IndexError));
    assert_eq!(graph.edges().len(), 0);
}

#[test]
fn a_node_is_added_unvisited_whatever_its_marker() {
    let mut graph = Graph::new(1, 0);
    let mut node = Node::new(1);
    node.visited = 7;
    graph.add_node(node);
    assert_eq!(graph.nodes()[0].visited, 0);
}

#[test]
fn costs_of_small_weights_fit() {
    let mut graph = Graph::new(3, 2);
    for i in 0..3 {
        graph.add_node(Node::new(i));
    }
    graph.add_edge(0, 1, 10).unwrap();
    graph.add_edge(1, 2, 1 << 62).unwrap();
    assert!(graph.costs_bounded());
    assert!(graph.estimates_bounded(&vec![5, 4, 3]));
    assert!(graph.estimates_bounded(&vec![5, 4, 3, 9]));
    assert!(!graph.estimates_bounded(&vec![5, 4]));
    // twice the highest weight and the highest estimate: 2^63 + 2^63 is too much
    assert!(!graph.estimates_bounded(&vec![0, 1 << 63, 0]));
    assert!(graph.estimates_bounded(&vec![0, (1 << 63) - 1, 0]));
}

#[test]
fn costs_of_huge_weights_do_not_fit() {
    let mut graph = Graph::new(3, 2);
    for i in 0..3 {
        graph.add_node(Node::new(i));
    }
    graph.add_edge(0, 1, (1 << 63) - 1).unwrap();
    assert!(graph.costs_bounded());
    graph.add_edge(1, 2, 1 << 63).unwrap();
    assert!(!graph.costs_bounded());
    assert!(!graph.estimates_bounded(&vec![0, 0, 0]));
}

#[test]
fn the_highest_cost_that_fits_is_found() {
    let mut graph = Graph::new(2, 1);
    graph.add_node(Node::new('a'));
    graph.add_node(Node::new('b'));
    graph.add_edge(0, 1, u64::MAX).unwrap();
    assert!(graph.costs_bounded());
    let (cost, path) = graph.dijsktra(0, 1);
    assert_eq!(cost, u64::MAX);
    assert_eq!(path, vec![0, 1]);
    assert!(graph.estimates_bounded(&vec![0, 0]));
    assert!(!graph.estimates_bounded(&vec![0, 1]));
    let (cost, path) = graph.astar(0, 1, &vec![7, 0]);
    assert_eq!(cost, u64::MAX);
    assert_eq!(path, vec![0, 1]);
}

#[test]
fn an_empty_graph_has_costs_that_fit() {
    let graph: Graph<u8> = Graph::new(0, 0);
    assert!(graph.costs_bounded());
    assert!(graph.estimates_bounded(&vec![]));
}
