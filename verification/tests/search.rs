use graph_rs::graph::{Graph, Node};
use std::collections::VecDeque;

fn line_abc() -> Graph<&'static str> {
    let mut graph = Graph::new(3, 4);
    graph.add_from_str_vec(vec!["A", "B", "C"]);
    graph.add_undirected_edge_str("A", "B", 1).unwrap();
    graph.add_undirected_edge_str("B", "C", 2).unwrap();
    graph
}

fn numbered(nodes: usize, arcs: &[(usize, usize, u64)]) -> Graph<usize> {
    let mut graph = Graph::new(nodes, arcs.len());
    for i in 0..nodes {
        graph.add_node(Node::new(i));
    }
    for &(a, b, w) in arcs {
        graph.add_edge(a, b, w).unwrap();
    }
    graph
}

fn markers(graph: &Graph<usize>) -> Vec<u64> {
    graph.nodes().iter().map(|n| n.visited).collect()
}

fn is_path(graph: &Graph<usize>, path: &VecDeque<usize>) -> bool {
    (1..path.len()).all(|i| {
        let mut it = graph.adj_list(path[i - 1]);
        let mut found = false;
        while let Some((_, v)) = it.next() {
            found = found || v == path[i];
        }
        found
    })
}

fn cheapest_by_enumeration(
    arcs: &[(usize, usize, u64)],
    at: usize,
    target: usize,
    seen: &mut Vec<usize>,
) -> Option<u64> {
    if at == target {
        return Some(0);
    }
    seen.push(at);
    let mut best: Option<u64> = None;
    for &(a, b, w) in arcs {
        if a == at && !seen.contains(&b) {
            if let Some(rest) = cheapest_by_enumeration(arcs, b, target, seen) {
                best = Some(best.map_or(rest + w, |x| x.min(rest + w)));
            }
        }
    }
    seen.pop();
    best
}

#[test]
fn dijkstra_on_the_line_a_b_c() {
    let mut graph = line_abc();
    let (cost, path) = graph.dijsktra(0, 2);
    assert_eq!(cost, 3);
    assert_eq!(path, vec![0, 1, 2]);
}

#[test]
fn dfs_on_the_line_a_b_c() {
    let mut graph = line_abc();
    let (cost, path) = graph.dfs(0, 2);
    assert_eq!(path[0], 0);
    assert_eq!(path[path.len() - 1], 2);
    assert_eq!(cost, 3);
    assert_eq!(path, vec![0, 1, 2]);
}

#[test]
fn bfs_and_astar_on_the_line_a_b_c() {
    let mut graph = line_abc();
    assert_eq!(graph.bfs(0, 2), (3, VecDeque::from(vec![0, 1, 2])));
    assert_eq!(graph.astar(0, 2, &vec![3, 2, 0]), (3, VecDeque::from(vec![0, 1, 2])));
    assert_eq!(graph.bfs(2, 0), (3, VecDeque::from(vec![2, 1, 0])));
}

#[test]
fn single_node_costs_nothing() {
    let mut graph = numbered(1, &[]);
    assert_eq!(graph.dfs(0, 0), (0, VecDeque::from(vec![0])));
    assert_eq!(graph.bfs(0, 0), (0, VecDeque::from(vec![0])));
    assert_eq!(graph.dijsktra(0, 0), (0, VecDeque::from(vec![0])));
    assert_eq!(graph.astar(0, 0, &vec![0]), (0, VecDeque::from(vec![0])));
    assert_eq!(markers(&graph), vec![1]);
}

#[test]
fn source_equal_to_target_among_neighbours() {
    let mut graph = numbered(3, &[(0, 1, 4), (1, 0, 4), (0, 2, 1), (0, 0, 9)]);
    assert_eq!(graph.dfs(0, 0), (0, VecDeque::from(vec![0])));
    assert_eq!(markers(&graph), vec![1, 0, 0]);
    assert_eq!(graph.bfs(0, 0), (0, VecDeque::from(vec![0])));
    assert_eq!(graph.dijsktra(0, 0), (0, VecDeque::from(vec![0])));
    assert_eq!(graph.astar(0, 0, &vec![0, 0, 0]), (0, VecDeque::from(vec![0])));
}

#[test]
fn unreachable_target_gives_a_path_that_misses_the_source() {
    let arcs = [(0, 1, 2), (1, 0, 2)];
    let mut graph = numbered(3, &arcs);
    let (_, path) = graph.dfs(0, 2);
    assert_ne!(path[0], 0);
    assert_eq!(path, vec![2]);
    let (_, path) = graph.bfs(0, 2);
    assert_ne!(path[0], 0);
    let (cost, path) = graph.dijsktra(0, 2);
    assert_ne!(path[0], 0);
    assert_eq!(path, vec![2]);
    assert_eq!(cost, 2);
    let (_, path) = graph.astar(0, 2, &vec![0, 0, 0]);
    assert_ne!(path[0], 0);
    assert_eq!(markers(&graph), vec![1, 2, 0]);
}

#[test]
fn edge_against_the_direction_does_not_reach() {
    let mut graph = numbered(2, &[(1, 0, 5)]);
    let (cost, path) = graph.dijsktra(0, 1);
    assert_eq!(path, vec![1]);
    assert_eq!(cost, 0);
    assert_eq!(markers(&graph), vec![1, 0]);
    assert_eq!(graph.dijsktra(1, 0), (5, VecDeque::from(vec![1, 0])));
}

#[test]
fn markers_record_the_order_of_visits() {
    // 0 -> 1 -> 3, 0 -> 2 -> 3, and 4 apart
    let arcs = [(0, 1, 1), (0, 2, 1), (1, 3, 1), (2, 3, 1)];
    let mut graph = numbered(5, &arcs);
    // the edges of 0 are met as 0->2, 0->1; the stack gives 1 out first
    let (cost, path) = graph.dfs(0, 3);
    assert_eq!((cost, path), (2, VecDeque::from(vec![0, 1, 3])));
    assert_eq!(markers(&graph), vec![1, 2, 0, 3, 0]);
    // the queue gives 2 out first, then 1, which overwrites the parent of 3
    let (cost, path) = graph.bfs(0, 3);
    assert_eq!((cost, path), (2, VecDeque::from(vec![0, 1, 3])));
    assert_eq!(markers(&graph), vec![1, 3, 2, 4, 0]);
    // of two entries of equal cost the one for the higher node leaves first
    let (cost, path) = graph.dijsktra(0, 3);
    assert_eq!((cost, path), (2, VecDeque::from(vec![0, 1, 3])));
    assert_eq!(markers(&graph), vec![1, 3, 2, 4, 0]);
}

#[test]
fn a_search_resets_the_markers_of_the_search_before() {
    let arcs = [(0, 1, 1), (1, 2, 1), (2, 3, 1)];
    let mut graph = numbered(4, &arcs);
    graph.dfs(0, 3);
    assert_eq!(markers(&graph), vec![1, 2, 3, 4]);
    graph.dfs(2, 3);
    assert_eq!(markers(&graph), vec![0, 0, 1, 2]);
    graph.unmark();
    assert_eq!(markers(&graph), vec![0, 0, 0, 0]);
}

#[test]
fn search_stops_at_the_target() {
    let arcs = [(0, 1, 1), (1, 2, 1), (2, 3, 1)];
    let mut graph = numbered(4, &arcs);
    assert_eq!(graph.dijsktra(0, 1), (1, VecDeque::from(vec![0, 1])));
    assert_eq!(markers(&graph), vec![1, 2, 0, 0]);
}

#[test]
fn dfs_and_bfs_costs_need_not_be_least() {
    // 0 -> 1 (1), 1 -> 2 (1), 0 -> 2 (10)
    let arcs = [(0, 2, 10), (0, 1, 1), (1, 2, 1)];
    let mut graph = numbered(3, &arcs);
    // edges of 0 are met as 0->1, 0->2; the stack gives 2 out first
    assert_eq!(graph.dfs(0, 2), (10, VecDeque::from(vec![0, 2])));
    // the queue gives 1 out first, which adds a second entry for 2 and
    // becomes its parent; the first entry for 2 gives the cost
    assert_eq!(graph.bfs(0, 2), (10, VecDeque::from(vec![0, 1, 2])));
    assert_eq!(graph.dijsktra(0, 2), (2, VecDeque::from(vec![0, 1, 2])));
}

#[test]
fn dijkstra_cost_is_least_though_the_path_follows_the_last_parent() {
    // 0 -> 1 (1), 1 -> 3 (4), 0 -> 2 (3), 2 -> 3 (10)
    let arcs = [(0, 1, 1), (1, 3, 4), (0, 2, 3), (2, 3, 10)];
    let mut graph = numbered(4, &arcs);
    let (cost, path) = graph.dijsktra(0, 3);
    assert_eq!(cost, 5);
    assert_eq!(path, vec![0, 2, 3]);
    assert!(is_path(&graph, &path));
}

#[test]
fn dijkstra_cost_agrees_with_enumeration_of_simple_paths() {
    let arcs = [
        (0, 1, 7),
        (0, 2, 9),
        (0, 5, 14),
        (1, 2, 10),
        (1, 3, 15),
        (2, 3, 11),
        (2, 5, 2),
        (3, 4, 6),
        (4, 5, 9),
        (5, 4, 9),
        (3, 1, 1),
        (4, 0, 3),
        (6, 0, 1),
    ];
    for source in 0..7 {
        for target in 0..7 {
            let mut graph = numbered(7, &arcs);
            let (cost, path) = graph.dijsktra(source, target);
            let mut seen = Vec::new();
            match cheapest_by_enumeration(&arcs, source, target, &mut seen) {
                Some(best) => {
                    assert_eq!(cost, best);
                    assert_eq!(path[0], source);
                    assert_eq!(path[path.len() - 1], target);
                    assert!(is_path(&graph, &path));
                },
                None => {
                    assert_ne!(path[0], source);
                },
            }
            let mut again = numbered(7, &arcs);
            let (zero, zero_path) = again.astar(source, target, &vec![0; 7]);
            assert_eq!(zero, cost);
            assert_eq!(zero_path, path);
            assert_eq!(markers(&again), markers(&graph));
        }
    }
}

#[test]
fn every_search_returns_a_path_of_the_graph() {
    let arcs = [
        (0, 1, 7),
        (0, 2, 9),
        (0, 5, 14),
        (1, 2, 10),
        (1, 3, 15),
        (2, 3, 11),
        (2, 5, 2),
        (3, 4, 6),
        (4, 5, 9),
        (3, 3, 2),
        (5, 0, 1),
    ];
    for source in 0..7 {
        for target in 0..7 {
            let mut seen = Vec::new();
            let reachable = cheapest_by_enumeration(&arcs, source, target, &mut seen).is_some();
            let mut graph = numbered(7, &arcs);
            let runs = [
                graph.dfs(source, target),
                graph.bfs(source, target),
                graph.dijsktra(source, target),
                graph.astar(source, target, &vec![5, 4, 3, 2, 1, 0, 9]),
            ];
            for (_, path) in runs {
                assert_eq!(path[path.len() - 1], target);
                assert_eq!(path[0] == source, reachable);
                if reachable {
                    assert!(is_path(&graph, &path));
                }
            }
        }
    }
}

#[test]
fn only_nodes_that_can_be_reached_are_marked() {
    let arcs = [(0, 1, 1), (1, 2, 1), (3, 0, 1), (3, 4, 1)];
    let mut graph = numbered(5, &arcs);
    graph.bfs(0, 4);
    assert_eq!(markers(&graph), vec![1, 2, 3, 0, 0]);
    graph.astar(0, 4, &vec![0, 0, 0, 0, 0]);
    assert_eq!(markers(&graph), vec![1, 2, 3, 0, 0]);
    graph.dfs(3, 2);
    assert_eq!(markers(&graph)[3], 1);
    assert!(markers(&graph).iter().all(|&m| m <= 5));
}

#[test]
fn a_loop_at_a_node_is_passed_over() {
    let arcs = [(0, 1, 2), (1, 1, 5), (1, 2, 3), (2, 2, 1)];
    let mut graph = numbered(3, &arcs);
    assert_eq!(graph.dfs(0, 2), (5, VecDeque::from(vec![0, 1, 2])));
    assert_eq!(graph.bfs(0, 2), (5, VecDeque::from(vec![0, 1, 2])));
    assert_eq!(graph.dijsktra(0, 2), (5, VecDeque::from(vec![0, 1, 2])));
    assert_eq!(graph.astar(0, 2, &vec![0, 0, 0]), (5, VecDeque::from(vec![0, 1, 2])));
}

#[test]
fn astar_follows_its_estimate() {
    // two ways from 0 to 3: over 1 (cost 2 + 2) and over 2 (cost 1 + 5)
    let arcs = [(0, 1, 2), (0, 2, 1), (1, 3, 2), (2, 3, 5)];
    let mut graph = numbered(4, &arcs);
    // a consistent estimate: the cost is least
    let (cost, path) = graph.astar(0, 3, &vec![4, 2, 5, 0]);
    assert_eq!(cost, 4);
    assert_eq!(path, vec![0, 1, 3]);
    assert_eq!(markers(&graph), vec![1, 2, 0, 3]);
    // an estimate that overrates node 1 badly: the dearer way is found first
    let (cost, path) = graph.astar(0, 3, &vec![0, 100, 0, 0]);
    assert_eq!(cost, 6);
    assert_eq!(path, vec![0, 2, 3]);
    assert_eq!(markers(&graph), vec![1, 0, 2, 3]);
}

#[test]
fn astar_at_equal_priority_prefers_the_higher_cost() {
    // entries (priority 6, cost 1, node 1) and (priority 6, cost 4, node 2)
    let arcs = [(0, 1, 1), (0, 2, 4), (1, 3, 9), (2, 3, 9)];
    let mut graph = numbered(4, &arcs);
    graph.astar(0, 3, &vec![0, 5, 2, 0]);
    assert_eq!(markers(&graph)[2], 2);
    assert_eq!(markers(&graph)[1], 3);
}
