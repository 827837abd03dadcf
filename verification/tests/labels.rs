use graph_rs::graph::{Graph, GraphError, Node};

fn targets_of(graph: &Graph<&str>, u: usize) -> Vec<(usize, u64)> {
    let mut out = Vec::new();
    let mut it = graph.adj_list(u);
    while let Some((e, v)) = it.next() {
        out.push((v, graph.edges()[e].weight));
    }
    out
}

#[test]
fn labels_become_nodes_in_order() {
    let mut graph = Graph::new(3, 0);
    graph.add_from_str_vec(vec!["A", "B", "C"]);
    assert_eq!(graph.nodes().len(), 3);
    assert_eq!(graph.nodes()[0].data, "A");
    assert_eq!(graph.nodes()[1].data, "B");
    assert_eq!(graph.nodes()[2].data, "C");
    assert!(graph.nodes().iter().all(|n| n.visited == 0));
    assert_eq!(graph.get_node_index("B"), Some(1));
    assert_eq!(graph.get_node_index("D"), None);
}

#[test]
fn the_first_of_equal_payloads_is_found() {
    let mut graph = Graph::new(3, 0);
    graph.add_node(Node::new(5));
    graph.add_node(Node::new(8));
    graph.add_node(Node::new(8));
    assert_eq!(graph.get_node_index(8), Some(1));
    assert_eq!(graph.get_node_index(5), Some(0));
    assert_eq!(graph.get_node_index(9), None);
}

#[test]
fn an_edge_by_labels_joins_the_nodes_that_carry_them() {
    let mut graph = Graph::new(3, 2);
    graph.add_from_str_vec(vec!["A", "B", "C"]);
    assert_eq!(graph.add_edge_str("C", "A", 4), Ok(()));
    assert_eq!(graph.edges().len(), 1);
    assert_eq!(graph.edges()[0].target, 0);
    assert_eq!(graph.edges()[0].weight, 4);
    assert_eq!(targets_of(&graph, 2), vec![(0, 4)]);
    assert_eq!(targets_of(&graph, 0), vec![]);
}

#[test]
fn an_unknown_label_is_refused() {
    let mut graph = Graph::new(2, 2);
    graph.add_from_str_vec(vec!["A", "B"]);
    assert_eq!(graph.add_edge_str("A", "Z", 1), Err(GraphError::NotFoundError));
    assert_eq!(graph.add_edge_str("Z", "A", 1), Err(GraphError::NotFoundError));
    assert_eq!(graph.add_undirected_edge_str("B", "b", 1), Err(GraphError::NotFoundError));
    assert_eq!(graph.add_undirected_edge_str("", "A", 1), Err(GraphError::NotFoundError));
    assert_eq!(graph.edges().len(), 0);
}

#[test]
fn an_undirected_edge_is_listed_at_both_ends() {
    let mut graph = Graph::new(3, 4);
    graph.add_from_str_vec(vec!["A", "B", "C"]);
    graph.add_undirected_edge_str("A", "B", 1).unwrap();
    graph.add_undirected_edge_str("B", "C", 2).unwrap();
    assert_eq!(targets_of(&graph, 0), vec![(1, 1)]);
    assert_eq!(targets_of(&graph, 1), vec![(2, 2), (0, 1)]);
    assert_eq!(targets_of(&graph, 2), vec![(1, 2)]);
}

#[test]
fn edges_are_listed_latest_first() {
    let mut graph = Graph::new(4, 3);
    graph.add_from_str_vec(vec!["A", "B", "C", "D"]);
    graph.add_edge_str("A", "B", 1).unwrap();
    graph.add_edge_str("A", "C", 2).unwrap();
    graph.add_edge_str("A", "D", 3).unwrap();
    assert_eq!(targets_of(&graph, 0), vec![(3, 3), (2, 2), (1, 1)]);
    let mut it = graph.adj_list(0);
    assert_eq!(it.next(), Some((2, 3)));
    assert_eq!(it.next(), Some((1, 2)));
    assert_eq!(it.next(), Some((0, 1)));
    assert_eq!(it.next(), None);
    assert_eq!(it.next(), None);
}

#[test]
fn a_label_is_found_by_its_text() {
    let mut graph = Graph::new(3, 0);
    graph.add_from_str_vec(vec!["one", "two", "two"]);
    let two = String::from("two");
    assert_eq!(graph.find_label(&two), Some(1));
    assert_eq!(graph.find_label("one"), Some(0));
    assert_eq!(graph.find_label("on"), None);
    assert_eq!(graph.find_label("ones"), None);
}
