//! The graph store: nodes and edges in two growable arenas, each node's
//! outgoing edges threaded through the edge arena as a singly linked list.

use vstd::prelude::*;
use vstd::std_specs::cmp::PartialEqSpec;

pub mod exact;
pub mod heap;
pub mod labels;
pub mod line;
pub mod order;
pub mod paths;
pub mod search;
pub mod shortest;
mod util;

use paths::{highest, lemma_highest, Shape};

verus! {

/// Why a construction step was refused.
#[derive(Debug, Clone, Copy, PartialEq, Eq, Structural)]
pub enum GraphError {
    /// An edge endpoint is not the index of a node.
    IndexError,
    /// A label names no node of the graph.
    NotFoundError,
}

/// A node: its payload, its visitation marker and the head of the list of
/// its outgoing edges. A node is known by its index in the graph.
pub struct Node<T> {
    pub data: T,
    /// Zero while unvisited; otherwise the rank at which the last search
    /// visited the node, counted from one.
    pub visited: u64,
    first: Option<usize>,
}

/// A directed edge: where it leads, what it weighs and the edge that
/// follows it in the list of its source. An edge is known by its index in
/// the graph.
pub struct Edge {
    pub target: usize,
    pub weight: u64,
    next: Option<usize>,
}

/// A directed graph with weighted edges. Nodes and edges are only ever
/// added, so their indices stay.
pub struct Graph<T> {
    nodes: Vec<Node<T>>,
    edges: Vec<Edge>,
}

impl Edge {
    /// The node this edge leads to.
    pub closed spec fn target(&self) -> usize {
        self.target
    }

    /// What it costs to follow this edge.
    pub closed spec fn weight(&self) -> u64 {
        self.weight
    }

    /// The edge that follows this one in its source's list.
    pub closed spec fn next(&self) -> Option<usize> {
        self.next
    }

    /// An edge to `target` of the given weight, in no list yet.
    pub fn new(target: usize, weight: u64) -> (e: Self)
        ensures
            e.target() == target,
            e.weight() == weight,
            e.next() is None,
    {
        Edge { target, weight, next: None }
    }
}

impl<T> Node<T> {
    /// The payload.
    pub closed spec fn data(&self) -> T {
        self.data
    }

    /// The visitation marker.
    pub closed spec fn visited(&self) -> u64 {
        self.visited
    }

    /// The head of this node's list of outgoing edges.
    pub closed spec fn first(&self) -> Option<usize> {
        self.first
    }

    /// An unvisited node with the given payload and no edges.
    pub fn new(data: T) -> (n: Self)
        ensures
            n.data() == data,
            n.visited() == 0,
            n.first() is None,
    {
        Node { data, visited: 0, first: None }
    }
}

/// The edge indices met when following `next` links from `start`, in order.
/// A link that does not point to an earlier edge ends the walk.
pub open spec fn chain(edges: Seq<Edge>, start: Option<usize>) -> Seq<int>
    decreases
        (match start {
            Some(e) => e + 1,
            None => 0,
        }),
{
    match start {
        Some(e) => if e < edges.len() && (edges[e as int].next() matches Some(n) ==> n < e) {
            seq![e as int] + chain(edges, edges[e as int].next())
        } else {
            Seq::empty()
        },
        None => Seq::empty(),
    }
}

/// Every edge on a chain is an index into the arena.
pub proof fn lemma_chain_in_bounds(edges: Seq<Edge>, start: Option<usize>)
    ensures
        forall|i: int|
            0 <= i < chain(edges, start).len() ==> 0 <= #[trigger] chain(edges, start)[i]
                < edges.len(),
    decreases
        (match start {
            Some(e) => e + 1,
            None => 0,
        }),
{
    if let Some(e) = start {
        if e < edges.len() && (edges[e as int].next() matches Some(n) ==> n < e) {
            let rest = chain(edges, edges[e as int].next());
            lemma_chain_in_bounds(edges, edges[e as int].next());
            assert forall|i: int| 0 <= i < chain(edges, start).len() implies 0
                <= #[trigger] chain(edges, start)[i] < edges.len() by {
                if i > 0 {
                    assert(chain(edges, start)[i] == rest[i - 1]);
                }
            }
        }
    }
}

/// A chain reads only the edges up to its start, so edges appended to the
/// arena leave it as it was.
pub proof fn lemma_chain_prefix(edges: Seq<Edge>, more: Seq<Edge>, start: Option<usize>)
    requires
        edges.len() <= more.len(),
        more.subrange(0, edges.len() as int) == edges,
        start matches Some(e) ==> e < edges.len(),
    ensures
        chain(more, start) == chain(edges, start),
    decreases
        (match start {
            Some(e) => e + 1,
            None => 0,
        }),
{
    if let Some(e) = start {
        assert(more[e as int] == more.subrange(0, edges.len() as int)[e as int]);
        if edges[e as int].next() matches Some(n) ==> n < e {
            lemma_chain_prefix(edges, more, edges[e as int].next());
        }
    }
}

impl<T> Graph<T> {
    /// The nodes, in index order.
    pub closed spec fn node_seq(&self) -> Seq<Node<T>> {
        self.nodes@
    }

    /// The edges, in index order.
    pub closed spec fn edge_seq(&self) -> Seq<Edge> {
        self.edges@
    }

    /// Every stored index refers into its arena, and every `next` link points
    /// to an edge that was added earlier.
    pub open spec fn wf(&self) -> bool {
        &&& forall|u: int|
            0 <= u < self.node_seq().len() ==> (#[trigger] self.node_seq()[u].first() matches Some(
                f,
            ) ==> f < self.edge_seq().len())
        &&& forall|e: int|
            0 <= e < self.edge_seq().len() ==> {
                &&& (#[trigger] self.edge_seq()[e]).target() < self.node_seq().len()
                &&& (self.edge_seq()[e].next() matches Some(n) ==> n < e)
            }
    }

    /// The number of nodes.
    pub open spec fn node_count(&self) -> nat {
        self.node_seq().len()
    }

    /// The number of edges.
    pub open spec fn edge_count(&self) -> nat {
        self.edge_seq().len()
    }

    /// The payload of every node, by node index.
    pub open spec fn labels(&self) -> Seq<T> {
        Seq::new(self.node_count(), |u: int| self.node_seq()[u].data())
    }

    /// The visitation marker of every node, by node index.
    pub open spec fn markers(&self) -> Seq<u64> {
        Seq::new(self.node_count(), |u: int| self.node_seq()[u].visited())
    }

    /// The target of every edge, by edge index.
    pub open spec fn targets(&self) -> Seq<usize> {
        Seq::new(self.edge_count(), |e: int| self.edge_seq()[e].target())
    }

    /// The weight of every edge, by edge index.
    pub open spec fn weights(&self) -> Seq<u64> {
        Seq::new(self.edge_count(), |e: int| self.edge_seq()[e].weight())
    }

    /// The indices of the edges that leave `u`, most recently added first.
    pub open spec fn out_edges(&self, u: int) -> Seq<int> {
        chain(self.edge_seq(), self.node_seq()[u].first())
    }

    /// The list of outgoing edges of every node, by node index.
    pub open spec fn adjacency(&self) -> Seq<Seq<int>> {
        Seq::new(self.node_count(), |u: int| self.out_edges(u))
    }

    /// `u` has an edge to `v` of weight `w`.
    pub open spec fn has_edge(&self, u: int, v: int, w: int) -> bool {
        exists|i: int|
            0 <= i < self.adjacency()[u].len() && self.targets()[#[trigger] self.adjacency()[u][i]]
                == v && self.weights()[self.adjacency()[u][i]] == w
    }

    /// In a well-formed graph the edges that leave a node are edges of the
    /// graph, and lead to nodes of the graph.
    pub proof fn lemma_out_edges_valid(&self, u: int)
        requires
            self.wf(),
            0 <= u < self.node_count(),
        ensures
            forall|i: int|
                0 <= i < self.out_edges(u).len() ==> {
                    &&& 0 <= #[trigger] self.out_edges(u)[i] < self.edge_count()
                    &&& self.targets()[self.out_edges(u)[i]] < self.node_count()
                },
    {
        lemma_chain_in_bounds(self.edge_seq(), self.node_seq()[u].first());
    }

    /// What a search reads of the graph.
    pub open spec fn shape(&self) -> Shape {
        Shape { adjacency: self.adjacency(), targets: self.targets(), weights: self.weights() }
    }

    /// The shape of a well-formed graph is well-formed.
    pub proof fn lemma_shape_wf(&self)
        requires
            self.wf(),
        ensures
            self.shape().wf(),
            self.shape().node_count() == self.node_count() <= usize::MAX,
    {
        let s = self.shape();
        assert(self.nodes.len() <= usize::MAX);
        assert forall|u: int, i: int|
            0 <= u < s.node_count() && 0 <= i < s.adjacency[u].len() implies {
            &&& 0 <= #[trigger] s.adjacency[u][i] < s.edge_count()
            &&& s.targets[s.adjacency[u][i]] < s.node_count()
        } by {
            self.lemma_out_edges_valid(u);
            assert(s.adjacency[u][i] == self.out_edges(u)[i]);
        }
    }

    /// Both graphs have the same nodes and edges; only markers may differ.
    pub open spec fn same_structure(&self, other: &Graph<T>) -> bool {
        &&& self.node_count() == other.node_count()
        &&& self.edge_count() == other.edge_count()
        &&& self.labels() == other.labels()
        &&& self.shape() == other.shape()
    }

    /// Graphs whose arenas agree in everything but the markers have the same
    /// structure, and are well-formed together.
    proof fn lemma_same_structure(&self, other: &Graph<T>)
        requires
            other.wf(),
            self.edges == other.edges,
            self.nodes.len() == other.nodes.len(),
            forall|u: int|
                0 <= u < self.nodes.len() ==> {
                    &&& (#[trigger] self.nodes[u]).data == other.nodes[u].data
                    &&& self.nodes[u].first == other.nodes[u].first
                },
        ensures
            self.wf(),
            self.same_structure(other),
    {
        assert(self.labels() =~= other.labels());
        assert(self.adjacency() =~= other.adjacency());
        assert(self.targets() =~= other.targets());
        assert(self.weights() =~= other.weights());
        assert forall|u: int| 0 <= u < self.node_seq().len() implies (
        #[trigger] self.node_seq()[u].first() matches Some(f) ==> f < self.edge_seq().len()) by {
            assert(other.node_seq()[u].first() == self.node_seq()[u].first());
        }
    }
}

impl<T: PartialEq> Graph<T> {
    /// An empty graph, with room for the given numbers of nodes and edges.
    /// The numbers are hints for the allocation, no limits.
    pub fn new(nodes: usize, edges: usize) -> (g: Self)
        ensures
            g.wf(),
            g.node_count() == 0,
            g.edge_count() == 0,
    {
        Graph { nodes: Vec::with_capacity(nodes), edges: Vec::with_capacity(edges) }
    }

    /// Appends a node that carries the payload of `node`, unvisited and
    /// without edges. Its index is the former node count.
    pub fn add_node(&mut self, node: Node<T>)
        requires
            old(self).wf(),
        ensures
            final(self).wf(),
            final(self).node_count() == old(self).node_count() + 1,
            final(self).edge_count() == old(self).edge_count(),
            final(self).labels() == old(self).labels().push(node.data()),
            final(self).markers() == old(self).markers().push(0),
            final(self).adjacency() == old(self).adjacency().push(Seq::empty()),
            final(self).targets() == old(self).targets(),
            final(self).weights() == old(self).weights(),
    {
        let Node { data, visited: _, first: _ } = node;
        self.nodes.push(Node { data, visited: 0, first: None });
        proof {
            assert(self.edge_seq() == old(self).edge_seq());
            assert forall|u: int| 0 <= u < old(self).node_count() implies self.out_edges(u)
                == old(self).out_edges(u) by {
                assert(self.node_seq()[u] == old(self).node_seq()[u]);
            }
        }
    }

    /// Given the index of two nodes create a edge between them.
    ///
    /// The new edge gets the former edge count as its index and becomes the
    /// first edge of `source`. With an endpoint that is no node the graph is
    /// left as it was.
    pub fn add_edge(&mut self, source: usize, target: usize, weight: u64) -> (r: Result<
        (),
        GraphError,
    >)
        requires
            old(self).wf(),
        ensures
            final(self).wf(),
            final(self).node_count() == old(self).node_count(),
            final(self).labels() == old(self).labels(),
            final(self).markers() == old(self).markers(),
            r is Ok <==> source < old(self).node_count() && target < old(self).node_count(),
            r is Err ==> {
                &&& r == Err::<(), GraphError>(GraphError::IndexError)
                &&& final(self).edge_count() == old(self).edge_count()
                &&& final(self).adjacency() == old(self).adjacency()
                &&& final(self).targets() == old(self).targets()
                &&& final(self).weights() == old(self).weights()
            },
            r is Ok ==> {
                &&& final(self).edge_count() == old(self).edge_count() + 1
                &&& final(self).targets() == old(self).targets().push(target)
                &&& final(self).weights() == old(self).weights().push(weight)
                &&& final(self).adjacency() == old(self).adjacency().update(
                    source as int,
                    seq![old(self).edge_count() as int] + old(self).out_edges(source as int),
                )
            },
    {
        if source >= self.nodes.len() || target >= self.nodes.len() {
            return Err(GraphError::IndexError);
        }
        let mut e = Edge::new(target, weight);
        e.next = self.nodes[source].first;
        self.nodes[source].first = Some(self.edges.len());
        self.edges.push(e);
        proof {
            let before = old(self).edge_seq();
            let after = self.edge_seq();
            assert(after.subrange(0, before.len() as int) == before);
            assert forall|u: int| 0 <= u < self.node_count() implies #[trigger] self.out_edges(u)
                == old(self).adjacency().update(
                source as int,
                seq![old(self).edge_count() as int] + old(self).out_edges(source as int),
            )[u] by {
                if u == source {
                    lemma_chain_prefix(before, after, old(self).node_seq()[u].first());
                } else {
                    assert(self.node_seq()[u] == old(self).node_seq()[u]);
                    lemma_chain_prefix(before, after, old(self).node_seq()[u].first());
                }
            }
            assert forall|x: int| 0 <= x < self.edge_count() implies {
                &&& (#[trigger] self.edge_seq()[x]).target() < self.node_count()
                &&& (self.edge_seq()[x].next() matches Some(n) ==> n < x)
            } by {
                if x < before.len() {
                    assert(after[x] == before[x]);
                }
            }
        }
        Ok(())
    }

    /// Just two directed edges: `source` to `target`, then `target` to
    /// `source`, both of the given weight.
    pub fn add_undirected_edge(&mut self, source: usize, target: usize, weight: u64) -> (r: Result<
        (),
        GraphError,
    >)
        requires
            old(self).wf(),
        ensures
            final(self).wf(),
            final(self).node_count() == old(self).node_count(),
            final(self).labels() == old(self).labels(),
            final(self).markers() == old(self).markers(),
            r is Ok <==> source < old(self).node_count() && target < old(self).node_count(),
            r is Err ==> {
                &&& r == Err::<(), GraphError>(GraphError::IndexError)
                &&& final(self).edge_count() == old(self).edge_count()
                &&& final(self).adjacency() == old(self).adjacency()
                &&& final(self).targets() == old(self).targets()
                &&& final(self).weights() == old(self).weights()
            },
            r is Ok ==> {
                let first = old(self).edge_count() as int;
                let half = old(self).adjacency().update(
                    source as int,
                    seq![first] + old(self).out_edges(source as int),
                );
                &&& final(self).edge_count() == old(self).edge_count() + 2
                &&& final(self).targets() == old(self).targets().push(target).push(source)
                &&& final(self).weights() == old(self).weights().push(weight).push(weight)
                &&& final(self).adjacency() == half.update(
                    target as int,
                    seq![first + 1] + half[target as int],
                )
                &&& final(self).has_edge(source as int, target as int, weight as int)
                &&& final(self).has_edge(target as int, source as int, weight as int)
            },
    {
        match self.add_edge(source, target, weight) {
            Ok(()) => {},
            Err(e) => {
                return Err(e);
            },
        }
        let ghost mid = *self;
        let r = self.add_edge(target, source, weight);
        proof {
            let first = old(self).edge_count() as int;
            assert(mid.labels().len() == old(self).labels().len());
            assert(self.labels().len() == old(self).labels().len());
            assert(mid.targets().len() == first + 1);
            assert(mid.out_edges(source as int) == mid.adjacency()[source as int]);
            assert(self.out_edges(target as int) == self.adjacency()[target as int]);
            assert(self.out_edges(source as int) == self.adjacency()[source as int]);
            assert(mid.out_edges(target as int) == mid.adjacency()[target as int]);
            if source == target {
                assert(self.out_edges(source as int)[1] == first);
                assert(self.out_edges(source as int)[0] == first + 1);
            } else {
                assert(self.out_edges(source as int)[0] == first);
                assert(self.out_edges(target as int)[0] == first + 1);
            }
        }
        r
    }

    /// The index of the first node whose payload equals `data`.
    pub fn get_node_index(&self, data: T) -> (r: Option<usize>)
        ensures
            r matches Some(i) ==> i < self.node_count(),
            T::obeys_eq_spec() ==> match r {
                Some(i) => {
                    &&& self.labels()[i as int].eq_spec(&data)
                    &&& forall|j: int| 0 <= j < i ==> !(#[trigger] self.labels()[j]).eq_spec(&data)
                },
                None => forall|j: int|
                    0 <= j < self.node_count() ==> !(#[trigger] self.labels()[j]).eq_spec(&data),
            },
    {
        let mut i: usize = 0;
        while i < self.nodes.len()
            invariant
                i <= self.nodes.len(),
                T::obeys_eq_spec() ==> forall|j: int|
                    0 <= j < i ==> !(#[trigger] self.labels()[j]).eq_spec(&data),
            decreases self.nodes.len() - i,
        {
            if self.nodes[i].data == data {
                assert(self.labels()[i as int] == self.nodes[i as int].data);
                return Some(i);
            }
            assert(self.labels()[i as int] == self.nodes[i as int].data);
            i += 1;
        }
        None
    }

    /// Gets vertex u's adjacency list.
    pub fn adj_list(&self, u: usize) -> (it: AdjListIterator<'_, T>)
        requires
            self.wf(),
            u < self.node_count(),
        ensures
            it.wf(),
            it.graph() == *self,
            it.remaining() == self.out_edges(u as int),
    {
        assert(self.node_seq()[u as int].first() == self.nodes[u as int].first);
        AdjListIterator { graph: self, next_e: self.nodes[u].first }
    }

    /// Unmark all nodes.
    pub fn unmark(&mut self)
        requires
            old(self).wf(),
        ensures
            final(self).wf(),
            final(self).same_structure(old(self)),
            forall|u: int| 0 <= u < final(self).node_count() ==> final(self).markers()[u] == 0,
    {
        let mut i: usize = 0;
        while i < self.nodes.len()
            invariant
                i <= self.nodes.len(),
                self.edges == old(self).edges,
                self.nodes.len() == old(self).nodes.len(),
                forall|u: int|
                    0 <= u < self.nodes.len() ==> {
                        &&& (#[trigger] self.nodes[u]).data == old(self).nodes[u].data
                        &&& self.nodes[u].first == old(self).nodes[u].first
                    },
                forall|u: int| 0 <= u < i ==> (#[trigger] self.nodes[u]).visited == 0,
            decreases self.nodes.len() - i,
        {
            self.nodes[i].visited = 0;
            i += 1;
        }
        proof {
            self.lemma_same_structure(old(self));
        }
    }

    /// Gives node `u` the marker `rank`.
    pub(crate) fn mark(&mut self, u: usize, rank: u64)
        requires
            old(self).wf(),
            u < old(self).node_count(),
        ensures
            final(self).wf(),
            final(self).same_structure(old(self)),
            final(self).markers() == old(self).markers().update(u as int, rank),
    {
        self.nodes[u].visited = rank;
        proof {
            self.lemma_same_structure(old(self));
            assert(self.markers() =~= old(self).markers().update(u as int, rank));
        }
    }

    /// The marker of node `u`.
    pub(crate) fn marker(&self, u: usize) -> (m: u64)
        requires
            u < self.node_count(),
        ensures
            m == self.markers()[u as int],
    {
        self.nodes[u].visited
    }

    /// The weight of edge `e`.
    pub(crate) fn weight(&self, e: usize) -> (w: u64)
        requires
            e < self.edge_count(),
        ensures
            w == self.weights()[e as int],
    {
        self.edges[e].weight
    }

    /// The highest weight of an edge, zero where there is none.
    fn max_weight(&self) -> (w: u64)
        ensures
            w == self.shape().top_weight(),
    {
        let mut w: u64 = 0;
        let mut e: usize = 0;
        while e < self.edges.len()
            invariant
                e <= self.edges.len(),
                self.edges.len() == self.weights().len(),
                w == highest(self.weights().take(e as int)),
            decreases self.edges.len() - e,
        {
            proof {
                assert(self.weights().take(e + 1).drop_last() =~= self.weights().take(e as int));
                assert(self.weights()[e as int] == self.edges[e as int].weight);
            }
            if self.edges[e].weight > w {
                w = self.edges[e].weight;
            }
            e += 1;
        }
        proof {
            assert(self.weights().take(e as int) =~= self.weights());
        }
        w
    }

    /// Tells whether the costs of the walks in this graph are known to fit
    /// in a `u64`: whether the highest weight, taken as often as a walk that
    /// passes no node twice has steps at most, fits. The searches ask that
    /// the costs fit; a graph for which this returns `false` may still meet
    /// that.
    pub fn costs_bounded(&self) -> (ok: bool)
        requires
            self.wf(),
        ensures
            ok <==> (self.node_count() - 1) * self.shape().top_weight() <= u64::MAX,
            ok ==> forall|source: int| #[trigger] self.shape().costs_fit(source),
    {
        let w = self.max_weight();
        let most: usize = if self.nodes.len() == 0 {
            0
        } else {
            self.nodes.len() - 1
        };
        proof {
            self.lemma_shape_wf();
            self.shape().lemma_top_weight();
            assert(0 <= most * w <= u64::MAX * u64::MAX) by (nonlinear_arith)
                requires
                    0 <= most <= u64::MAX,
                    0 <= w <= u64::MAX,
            ;
            if self.nodes.len() == 0 {
                assert((self.node_count() - 1) * w <= 0) by (nonlinear_arith)
                    requires
                        self.node_count() == 0,
                        0 <= w,
                ;
            }
        }
        let ok = (most as u128) * (w as u128) <= u64::MAX as u128;
        proof {
            if ok {
                assert forall|source: int| #[trigger] self.shape().costs_fit(source) by {
                    self.shape().lemma_costs_fit(source, w as int);
                }
            }
        }
        ok
    }

    /// Tells whether the costs of the walks in this graph, each with the
    /// estimate added for the node where it ends, are known to fit in a
    /// `u64`: whether there is an estimate for every node and the highest
    /// weight, taken as often as a walk that passes no node twice has steps
    /// at most, fits together with the highest estimate.
    pub fn estimates_bounded(&self, heu: &Vec<u64>) -> (ok: bool)
        requires
            self.wf(),
        ensures
            ok <==> heu@.len() >= self.node_count() && (self.node_count() - 1)
                * self.shape().top_weight() + highest(heu@) <= u64::MAX,
            ok ==> forall|source: int| #[trigger] self.shape().estimates_fit(source, heu@),
    {
        if heu.len() < self.nodes.len() {
            return false;
        }
        let w = self.max_weight();
        let mut top: u64 = 0;
        let mut i: usize = 0;
        while i < heu.len()
            invariant
                i <= heu.len(),
                top == highest(heu@.take(i as int)),
            decreases heu.len() - i,
        {
            proof {
                assert(heu@.take(i + 1).drop_last() =~= heu@.take(i as int));
            }
            if heu[i] > top {
                top = heu[i];
            }
            i += 1;
        }
        let most: usize = if self.nodes.len() == 0 {
            0
        } else {
            self.nodes.len() - 1
        };
        proof {
            assert(heu@.take(i as int) =~= heu@);
            lemma_highest(heu@);
            self.lemma_shape_wf();
            self.shape().lemma_top_weight();
            assert(0 <= most * w <= u64::MAX * u64::MAX) by (nonlinear_arith)
                requires
                    0 <= most <= u64::MAX,
                    0 <= w <= u64::MAX,
            ;
            if self.nodes.len() == 0 {
                assert((self.node_count() - 1) * w <= 0) by (nonlinear_arith)
                    requires
                        self.node_count() == 0,
                        0 <= w,
                ;
            }
        }
        let ok = (most as u128) * (w as u128) + (top as u128) <= u64::MAX as u128;
        proof {
            if ok {
                assert forall|source: int| #[trigger]
                    self.shape().estimates_fit(source, heu@) by {
                    self.shape().lemma_estimates_fit(source, w as int, heu@, top as int);
                }
            }
        }
        ok
    }

    /// The nodes, in index order.
    pub fn nodes(&self) -> (r: &Vec<Node<T>>)
        ensures
            r@ == self.node_seq(),
    {
        &self.nodes
    }

    /// The edges, in index order.
    pub fn edges(&self) -> (r: &Vec<Edge>)
        ensures
            r@ == self.edge_seq(),
    {
        &self.edges
    }
}

/// An iterator for convenient adjacency list traversal.
pub struct AdjListIterator<'a, T> {
    graph: &'a Graph<T>,
    next_e: Option<usize>,
}

impl<'a, T> AdjListIterator<'a, T> {
    /// The graph whose edges are walked.
    pub closed spec fn graph(&self) -> Graph<T> {
        *self.graph
    }

    /// The edge that comes next, if any.
    pub closed spec fn cursor(&self) -> Option<usize> {
        self.next_e
    }

    /// The edges still to come, in order.
    pub open spec fn remaining(&self) -> Seq<int> {
        chain(self.graph().edge_seq(), self.cursor())
    }

    /// The graph is well-formed and the cursor is an edge of it.
    pub open spec fn wf(&self) -> bool {
        &&& self.graph().wf()
        &&& self.cursor() matches Some(e) ==> e < self.graph().edge_count()
    }

    /// Produces an outgoing edge and vertex.
    pub fn next(&mut self) -> (r: Option<(usize, usize)>)
        requires
            old(self).wf(),
        ensures
            final(self).wf(),
            final(self).graph() == old(self).graph(),
            match r {
                Some((e, v)) => {
                    &&& old(self).remaining().len() > 0
                    &&& e == old(self).remaining()[0]
                    &&& e < old(self).graph().edge_count()
                    &&& v == old(self).graph().targets()[e as int]
                    &&& final(self).remaining() == old(self).remaining().drop_first()
                },
                None => old(self).remaining().len() == 0 && final(self).remaining().len() == 0,
            },
    {
        match self.next_e {
            Some(e) => {
                let v = self.graph.edges[e].target;
                self.next_e = self.graph.edges[e].next;
                proof {
                    let rest = chain(self.graph().edge_seq(), self.cursor());
                    assert(old(self).remaining() == seq![e as int] + rest);
                    assert(old(self).remaining().drop_first() == rest);
                }
                Some((e, v))
            },
            None => None,
        }
    }
}

} // verus!
