use graph_rs::graph::heap::MinHeap;
use graph_rs::graph::{Graph, Node};
use std::cmp::Reverse;
use std::collections::{BinaryHeap, HashMap, VecDeque};

/// A small generator of numbers that look random, the same on every run.
struct Numbers(u64);

impl Numbers {
    fn next(&mut self, below: u64) -> u64 {
        self.0 = self.0.wrapping_mul(6364136223846793005).wrapping_add(1442695040888963407);
        (self.0 >> 33) % below
    }
}

fn some_arcs(numbers: &mut Numbers, nodes: usize, count: usize) -> Vec<(usize, usize, u64)> {
    let mut arcs = Vec::new();
    while arcs.len() < count {
        let a = numbers.next(nodes as u64) as usize;
        let b = numbers.next(nodes as u64) as usize;
        if a != b {
            arcs.push((a, b, numbers.next(6)));
        }
    }
    arcs
}

fn built(nodes: usize, arcs: &[(usize, usize, u64)]) -> Graph<usize> {
    let mut graph = Graph::new(nodes, arcs.len());
    for i in 0..nodes {
        graph.add_node(Node::new(i));
    }
    for &(a, b, w) in arcs {
        graph.add_edge(a, b, w).unwrap();
    }
    graph
}

/// The edges of each node as `(target, weight)`, the latest first.
fn lists(nodes: usize, arcs: &[(usize, usize, u64)]) -> Vec<Vec<(usize, u64)>> {
    let mut lists = vec![Vec::new(); nodes];
    for &(a, b, w) in arcs {
        lists[a].insert(0, (b, w));
    }
    lists
}

#[derive(Clone, Copy)]
enum Kind {
    Stack,
    Queue,
    Heap,
}

/// A plain search on the containers of the standard library. `heu` is used
/// with the heap only.
fn plain(
    lists: &[Vec<(usize, u64)>],
    kind: Kind,
    heu: &[u64],
    source: usize,
    target: usize,
) -> (u64, VecDeque<usize>, Vec<u64>) {
    let mut marks = vec![0u64; lists.len()];
    let mut line: VecDeque<(u64, usize)> = VecDeque::new();
    let mut heap = BinaryHeap::new();
    let mut parent = HashMap::new();
    let mut count = 0;
    let mut dist = 0;
    line.push_back((0, source));
    heap.push((Reverse(heu[source]), 0, source));
    loop {
        let taken = match kind {
            Kind::Stack => line.pop_back(),
            Kind::Queue => line.pop_front(),
            Kind::Heap => heap.pop().map(|(_, d, u)| (d, u)),
        };
        let Some((dist_u, u)) = taken else { break };
        if marks[u] != 0 {
            continue;
        }
        count += 1;
        for &(v, w) in &lists[u] {
            if marks[v] == 0 {
                line.push_back((dist_u + w, v));
                heap.push((Reverse(dist_u + w + heu[v]), dist_u + w, v));
                parent.insert(v, u);
            }
        }
        dist = dist_u;
        marks[u] = count;
        if u == target {
            break;
        }
    }
    let mut path = VecDeque::new();
    path.push_front(target);
    while let Some(n) = parent.get(&path[0]) {
        path.push_front(*n);
        if *n == source {
            break;
        }
    }
    (dist, path, marks)
}

fn marks_of(graph: &Graph<usize>) -> Vec<u64> {
    graph.nodes().iter().map(|n| n.visited).collect()
}

#[test]
fn the_heap_gives_out_what_the_heap_of_the_standard_library_does() {
    let mut numbers = Numbers(7);
    for round in 0..50 {
        let mut ours = MinHeap::new();
        let mut theirs = BinaryHeap::new();
        for _ in 0..(round * 3) {
            let item = (numbers.next(5), numbers.next(4), numbers.next(4) as usize);
            ours.push(item);
            theirs.push((Reverse(item.0), item.1, item.2));
            if numbers.next(3) == 0 {
                assert_eq!(ours.pop(), theirs.pop().map(|(Reverse(k), c, v)| (k, c, v)));
            }
        }
        assert_eq!(ours.len(), theirs.len());
        while let Some((Reverse(k), c, v)) = theirs.pop() {
            assert_eq!(ours.pop(), Some((k, c, v)));
        }
        assert_eq!(ours.pop(), None);
    }
}

#[test]
fn the_searches_agree_with_plain_searches() {
    let mut numbers = Numbers(2024);
    for round in 0..60 {
        let nodes = 2 + (round % 9);
        let arcs = some_arcs(&mut numbers, nodes, round % 23);
        let lists = lists(nodes, &arcs);
        let none = vec![0u64; nodes];
        let heu: Vec<u64> = (0..nodes).map(|_| numbers.next(8)).collect();
        for source in 0..nodes {
            for target in 0..nodes {
                let mut graph = built(nodes, &arcs);

                let (cost, path) = graph.dfs(source, target);
                let expected = plain(&lists, Kind::Stack, &none, source, target);
                assert_eq!((cost, path, marks_of(&graph)), expected);

                let (cost, path) = graph.bfs(source, target);
                let expected = plain(&lists, Kind::Queue, &none, source, target);
                assert_eq!((cost, path, marks_of(&graph)), expected);

                let (cost, path) = graph.dijsktra(source, target);
                let expected = plain(&lists, Kind::Heap, &none, source, target);
                assert_eq!((cost, path, marks_of(&graph)), expected);

                let (cost, path) = graph.astar(source, target, &heu);
                let expected = plain(&lists, Kind::Heap, &heu, source, target);
                assert_eq!((cost, path, marks_of(&graph)), expected);
            }
        }
    }
}
