//! What holds of every search while it runs, whatever the order in which it
//! takes entries from its frontier.
//!
//! A search keeps a frontier of entries `(cost, node)`, marks a node with its
//! rank when it first takes an entry for it, and then adds an entry for every
//! unvisited neighbour, recording the node as that neighbour's parent.

use vstd::prelude::*;
use vstd::set_lib::{lemma_int_range, lemma_len_subset, set_int_range};
use super::paths::Shape;

verus! {

/// The state of a running search.
pub struct Search {
    /// Where the search started.
    pub source: int,
    /// The rank of every node, zero for a node not yet visited.
    pub markers: Seq<u64>,
    /// For a visited node, the cost of the entry by which it was visited.
    pub cost: Seq<int>,
    /// The visited nodes, in the order of their visits.
    pub order: Seq<int>,
    /// The entries `(cost, node)` that the frontier holds.
    pub frontier: Set<(int, int)>,
    /// For every node that got an entry, the node that added the last one.
    pub parent: Map<usize, usize>,
    /// The node whose edges are being followed, or were followed last.
    pub cur: int,
    /// How many of the edges of `cur` have been followed.
    pub done: int,
}

/// The first `m` nodes of the walk are visited, in rising rank.
pub open spec fn climbs(
    shape: Shape,
    markers: Seq<u64>,
    from: int,
    steps: Seq<int>,
    m: int,
) -> bool {
    &&& forall|i: int|
        0 <= i < m ==> 0 <= #[trigger] shape.node_at(from, steps, i) < markers.len()
            && markers[shape.node_at(from, steps, i)] != 0
    &&& forall|i: int, j: int|
        0 <= i < j < m ==> markers[#[trigger] shape.node_at(from, steps, i)]
            < markers[#[trigger] shape.node_at(from, steps, j)]
}

/// A walk of cost `c` leads from `source` to `v` through visited nodes of
/// rising rank; of `v` itself nothing is asked.
pub open spec fn justified(shape: Shape, markers: Seq<u64>, source: int, c: int, v: int) -> bool {
    exists|steps: Seq<int>|
        #[trigger] shape.connects(source, steps, v) && shape.cost(steps) == c && climbs(
            shape,
            markers,
            source,
            steps,
            steps.len() as int,
        )
}

/// A walk of cost `c` leads from `source` to `v` through visited nodes of
/// rising rank, `v` being the last and highest.
pub open spec fn settled(shape: Shape, markers: Seq<u64>, source: int, c: int, v: int) -> bool {
    exists|steps: Seq<int>|
        #[trigger] shape.connects(source, steps, v) && shape.cost(steps) == c && climbs(
            shape,
            markers,
            source,
            steps,
            steps.len() as int + 1,
        )
}

impl Search {
    /// How many nodes have been visited.
    pub open spec fn count(self) -> int {
        self.order.len() as int
    }

    /// Node `u` has been visited.
    pub open spec fn visited(self, u: int) -> bool {
        self.markers[u] != 0
    }

    /// The sizes fit the graph, and the indices are in range.
    pub open spec fn basics(self, shape: Shape) -> bool {
        &&& shape.wf()
        &&& shape.node_count() <= usize::MAX
        &&& 0 <= self.source < shape.node_count()
        &&& self.markers.len() == shape.node_count()
        &&& self.cost.len() == shape.node_count()
        &&& 0 <= self.cur < shape.node_count()
        &&& 0 <= self.done <= shape.adjacency[self.cur].len()
    }

    /// The markers of the visited nodes are their places in `order`, from one.
    #[verifier::opaque]
    pub open spec fn ranked(self, shape: Shape) -> bool {
        &&& forall|i: int|
            0 <= i < self.order.len() ==> 0 <= #[trigger] self.order[i] < shape.node_count()
                && self.markers[self.order[i]] == i + 1
        &&& forall|u: int|
            0 <= u < shape.node_count() && #[trigger] self.visited(u) ==> self.markers[u]
                <= self.order.len() && self.order[self.markers[u] - 1] == u
    }

    /// Before the first visit the frontier holds the source alone, at no
    /// cost; from then on the source is the node of rank one, and `cur` is
    /// the node visited last.
    #[verifier::opaque]
    pub open spec fn started(self) -> bool {
        &&& self.count() == 0 ==> self.frontier =~= set![(0int, self.source)]
        &&& self.count() > 0 ==> self.markers[self.source] == 1 && self.cur == self.order.last()
    }

    /// Every entry of the frontier is for a node, stands for a walk to it,
    /// and, if not for the source, has its parent recorded.
    #[verifier::opaque]
    pub open spec fn entries_justified(self, shape: Shape) -> bool {
        forall|p: (int, int)| #[trigger]
            self.frontier.contains(p) ==> {
                &&& 0 <= p.1 < shape.node_count()
                &&& justified(shape, self.markers, self.source, p.0, p.1)
                &&& (p.1 == self.source || self.parent.contains_key(p.1 as usize))
            }
    }

    /// Every visited node was reached by a walk of the cost noted for it.
    #[verifier::opaque]
    pub open spec fn visits_settled(self, shape: Shape) -> bool {
        forall|u: int|
            0 <= u < shape.node_count() && #[trigger] self.visited(u) ==> settled(
                shape,
                self.markers,
                self.source,
                self.cost[u],
                u,
            )
    }

    /// Every edge that leaves a visited node leads to a visited node or has
    /// its entry in the frontier, but for the edges of `cur` not yet followed.
    #[verifier::opaque]
    pub open spec fn closed(self, shape: Shape) -> bool {
        forall|x: int, i: int|
            0 <= x < shape.node_count() && self.visited(x) && 0 <= i
                < shape.adjacency[x].len() ==> {
                ||| (x == self.cur && i >= self.done)
                ||| self.visited(shape.targets[#[trigger] shape.adjacency[x][i]] as int)
                ||| self.frontier.contains(
                    (
                        self.cost[x] + shape.weights[shape.adjacency[x][i]],
                        shape.targets[shape.adjacency[x][i]] as int,
                    ),
                )
            }
    }

    /// A recorded parent is a visited node with an edge to its child, and
    /// was visited before the child.
    #[verifier::opaque]
    pub open spec fn parents_sound(self, shape: Shape) -> bool {
        forall|v: usize| #[trigger]
            self.parent.contains_key(v) ==> {
                &&& v < shape.node_count()
                &&& self.parent[v] < shape.node_count()
                &&& self.visited(self.parent[v] as int)
                &&& shape.adjacent(self.parent[v] as int, v as int)
                &&& (self.visited(v as int) ==> self.markers[self.parent[v] as int]
                    < self.markers[v as int])
            }
    }

    /// Every visited node but the source has a parent, and every unvisited
    /// node with a parent has an entry in the frontier.
    #[verifier::opaque]
    pub open spec fn parents_cover(self, shape: Shape) -> bool {
        &&& forall|v: usize|
            v < shape.node_count() && #[trigger] self.visited(v as int) && v != self.source
                ==> self.parent.contains_key(v)
        &&& forall|v: usize| #[trigger]
            self.parent.contains_key(v) && !self.visited(v as int) ==> exists|c: int|
                #[trigger] self.frontier.contains((c, v as int))
    }

    /// Edge `i` of the visited node `x` has been followed, and `p` is the
    /// entry that it gives.
    pub open spec fn fed(self, shape: Shape, x: int, i: int, p: (int, int)) -> bool {
        &&& 0 <= x < shape.node_count()
        &&& self.visited(x)
        &&& 0 <= i < shape.adjacency[x].len()
        &&& (x != self.cur || i < self.done)
        &&& p.1 == shape.targets[shape.adjacency[x][i]]
        &&& p.0 == self.cost[x] + shape.weights[shape.adjacency[x][i]]
    }

    /// After the first visit, every entry for an unvisited node was given
    /// by an edge that leaves a visited node.
    #[verifier::opaque]
    pub open spec fn sourced(self, shape: Shape) -> bool {
        self.count() > 0 ==> forall|p: (int, int)| #[trigger]
            self.frontier.contains(p) && !self.visited(p.1) ==> exists|x: int, i: int| #[trigger]
                self.fed(shape, x, i, p)
    }

    /// The recorded parent of a node ranks highest among the visited nodes
    /// with a followed edge to that node; if the node is visited, among
    /// those of them that were visited before it.
    #[verifier::opaque]
    pub open spec fn parents_latest(self, shape: Shape) -> bool {
        forall|x: int, i: int|
            0 <= x < shape.node_count() && self.visited(x) && 0 <= i < shape.adjacency[x].len() && (
            x != self.cur || i < self.done) && self.parent.contains_key(
                shape.targets[#[trigger] shape.adjacency[x][i]],
            ) && (self.visited(shape.targets[shape.adjacency[x][i]] as int) ==> self.markers[x]
                < self.markers[shape.targets[shape.adjacency[x][i]] as int]) ==> self.markers[x]
                <= self.markers[self.parent[shape.targets[shape.adjacency[x][i]]] as int]
    }

    /// What holds of a search between any two of its steps.
    pub closed spec fn inv(self, shape: Shape) -> bool {
        &&& self.sourced(shape)
        &&& self.parents_latest(shape)
        &&& self.basics(shape)
        &&& self.ranked(shape)
        &&& self.started()
        &&& self.entries_justified(shape)
        &&& self.visits_settled(shape)
        &&& self.closed(shape)
        &&& self.parents_sound(shape)
        &&& self.parents_cover(shape)
    }

    /// The state in which every search starts.
    pub open spec fn initial(shape: Shape, source: int) -> Search {
        Search {
            source,
            markers: Seq::new(shape.node_count() as nat, |u: int| 0u64),
            cost: Seq::new(shape.node_count() as nat, |u: int| 0int),
            order: Seq::empty(),
            frontier: set![(0int, source)],
            parent: Map::empty(),
            cur: source,
            done: shape.adjacency[source].len() as int,
        }
    }

    /// The state after an entry was taken from the frontier and dropped.
    pub open spec fn dropped(self, rest: Set<(int, int)>) -> Search {
        Search { frontier: rest, ..self }
    }

    /// The state after node `u` was visited by an entry of cost `c`.
    pub open spec fn visit(self, c: int, u: int, rest: Set<(int, int)>) -> Search {
        Search {
            markers: self.markers.update(u, (self.count() + 1) as u64),
            cost: self.cost.update(u, c),
            order: self.order.push(u),
            frontier: rest,
            cur: u,
            done: 0,
            ..self
        }
    }

    /// The state after the next edge of `cur` was followed and found a
    /// visited node.
    pub open spec fn passed(self) -> Search {
        Search { done: self.done + 1, ..self }
    }

    /// The state after the next edge of `cur` was followed to the unvisited
    /// node `v`, for which it gave an entry of cost `c`.
    pub open spec fn pushed(self, c: int, v: int) -> Search {
        Search {
            frontier: self.frontier.insert((c, v)),
            parent: self.parent.insert(v as usize, self.cur as usize),
            done: self.done + 1,
            ..self
        }
    }

    pub proof fn lemma_initial(shape: Shape, source: int)
        requires
            shape.wf(),
            shape.node_count() <= usize::MAX,
            0 <= source < shape.node_count(),
        ensures
            Search::initial(shape, source).inv(shape),
    {
        let st = Search::initial(shape, source);
        reveal(Search::ranked);
        reveal(Search::started);
        reveal(Search::entries_justified);
        reveal(Search::visits_settled);
        reveal(Search::closed);
        reveal(Search::parents_sound);
        reveal(Search::parents_cover);
        reveal(Search::sourced);
        reveal(Search::parents_latest);
        let steps = Seq::<int>::empty();
        assert(shape.connects(source, steps, source));
        assert(justified(shape, st.markers, source, 0, source));
    }

    /// The sizes and indices of a sound search are in range.
    pub proof fn lemma_basics(self, shape: Shape)
        requires
            self.inv(shape),
        ensures
            self.basics(shape),
    {
    }

    /// An edge that leaves a visited node and was followed leads to a
    /// visited node, or its entry is in the frontier.
    pub proof fn lemma_followed(self, shape: Shape, x: int, i: int)
        requires
            self.inv(shape),
            0 <= x < shape.node_count(),
            self.visited(x),
            0 <= i < shape.adjacency[x].len(),
            x != self.cur || i < self.done,
        ensures
            self.visited(shape.targets[shape.adjacency[x][i]] as int) || self.frontier.contains(
                (
                    self.cost[x] + shape.weights[shape.adjacency[x][i]],
                    shape.targets[shape.adjacency[x][i]] as int,
                ),
            ),
    {
        reveal(Search::closed);
    }

    /// After the first visit, an entry for an unvisited node was given by
    /// an edge that leaves a visited node and has been followed.
    pub proof fn lemma_origin(self, shape: Shape, p: (int, int)) -> (by: (int, int))
        requires
            self.inv(shape),
            self.count() > 0,
            self.frontier.contains(p),
            !self.visited(p.1),
        ensures
            self.fed(shape, by.0, by.1, p),
    {
        reveal(Search::sourced);
        let (x, i) = choose|x: int, i: int| #[trigger] self.fed(shape, x, i, p);
        (x, i)
    }

    /// After the first visit, `cur` is the node that was visited last.
    pub proof fn lemma_cur_is_last(self, shape: Shape)
        requires
            self.inv(shape),
            self.count() > 0,
        ensures
            self.cur == self.order.last(),
            self.visited(self.cur),
            self.markers[self.cur] == self.count(),
    {
        reveal(Search::started);
        reveal(Search::ranked);
        assert(self.markers[self.order[self.count() - 1]] == self.count());
    }

    /// The ranks are at most the number of visits, and no two nodes share one.
    pub proof fn lemma_ranks(self, shape: Shape)
        requires
            self.inv(shape),
        ensures
            shape.wf(),
            0 <= self.source < shape.node_count(),
            self.markers.len() == shape.node_count(),
            self.order.no_duplicates(),
            forall|u: int|
                0 <= u < shape.node_count() ==> #[trigger] self.markers[u] <= self.count(),
            forall|u: int, v: int|
                0 <= u < shape.node_count() && 0 <= v < shape.node_count() && self.visited(u)
                    && self.markers[u] == self.markers[v] ==> u == v,
            self.count() > 0 ==> self.markers[self.source] == 1,
    {
        reveal(Search::ranked);
        reveal(Search::started);
        assert forall|u: int|
            0 <= u < shape.node_count() implies #[trigger] self.markers[u] <= self.count() by {
            if self.visited(u) {
            }
        }
        assert forall|u: int, v: int|
            0 <= u < shape.node_count() && 0 <= v < shape.node_count() && self.visited(u)
                && self.markers[u] == self.markers[v] implies u == v by {
            assert(self.visited(v));
        }
        assert forall|i: int, j: int|
            0 <= i < self.order.len() && 0 <= j < self.order.len() && i != j implies self.order[i]
            != self.order[j] by {
            assert(self.markers[self.order[i]] == i + 1);
            assert(self.markers[self.order[j]] == j + 1);
        }
    }

    /// While a node is unvisited, fewer nodes are visited than there are.
    pub proof fn lemma_room(self, shape: Shape, u: int)
        requires
            self.inv(shape),
            0 <= u < shape.node_count(),
            !self.visited(u),
        ensures
            self.count() < shape.node_count(),
    {
        let all = set_int_range(0, shape.node_count());
        let seen = self.order.to_set();
        lemma_int_range(0, shape.node_count());
        self.lemma_ranks(shape);
        self.order.unique_seq_to_set();
        assert(seen.subset_of(all.remove(u))) by {
            reveal(Search::ranked);
            assert forall|x: int| seen.contains(x) implies all.remove(u).contains(x) by {
                let i = choose|i: int| 0 <= i < self.order.len() && self.order[i] == x;
                assert(self.markers[self.order[i]] == i + 1);
            }
        }
        lemma_len_subset(seen, all.remove(u));
    }

    /// An entry of the frontier is for a node of the graph; the first entry
    /// taken is the source's, at no cost.
    pub proof fn lemma_entry(self, shape: Shape, p: (int, int))
        requires
            self.inv(shape),
            self.frontier.contains(p),
        ensures
            0 <= p.1 < shape.node_count(),
            0 <= p.0,
            self.count() == 0 ==> p == (0int, self.source),
    {
        reveal(Search::entries_justified);
        reveal(Search::started);
        let steps = choose|steps: Seq<int>|
            #[trigger] shape.connects(self.source, steps, p.1) && shape.cost(steps) == p.0;
        shape.lemma_cost_nonnegative(steps);
    }

    /// Dropping an entry for a visited node keeps the search sound.
    pub proof fn lemma_dropped(self, shape: Shape, p: (int, int), rest: Set<(int, int)>)
        requires
            self.inv(shape),
            self.frontier.contains(p),
            self.visited(p.1),
            rest.subset_of(self.frontier),
            self.frontier.subset_of(rest.insert(p)),
        ensures
            self.dropped(rest).inv(shape),
    {
        let next = self.dropped(rest);
        self.lemma_entry(shape, p);
        self.lemma_ranks(shape);
        assert(self.count() > 0);
        assert(next.ranked(shape)) by {
            reveal(Search::ranked);
            assert forall|u: int|
                0 <= u < shape.node_count() && #[trigger] next.visited(u) implies next.markers[u]
                <= next.order.len() && next.order[next.markers[u] - 1] == u by {
                assert(self.visited(u));
            }
        }
        assert(next.started()) by {
            reveal(Search::started);
        }
        assert(next.entries_justified(shape)) by {
            reveal(Search::entries_justified);
        }
        assert(next.visits_settled(shape)) by {
            reveal(Search::visits_settled);
            assert forall|u: int|
                0 <= u < shape.node_count() && #[trigger] next.visited(u) implies settled(
                shape,
                next.markers,
                next.source,
                next.cost[u],
                u,
            ) by {
                assert(self.visited(u));
            }
        }
        assert(next.closed(shape)) by {
            reveal(Search::closed);
            assert forall|x: int, i: int|
                0 <= x < shape.node_count() && next.visited(x) && 0 <= i
                    < shape.adjacency[x].len() implies {
                ||| (x == next.cur && i >= next.done)
                ||| next.visited(shape.targets[#[trigger] shape.adjacency[x][i]] as int)
                ||| next.frontier.contains(
                    (
                        next.cost[x] + shape.weights[shape.adjacency[x][i]],
                        shape.targets[shape.adjacency[x][i]] as int,
                    ),
                )
            } by {
                let q = (
                    self.cost[x] + shape.weights[shape.adjacency[x][i]],
                    shape.targets[shape.adjacency[x][i]] as int,
                );
                assert(self.visited(x));
                if self.frontier.contains(q) && !rest.contains(q) {
                    assert(rest.insert(p).contains(q));
                }
            }
        }
        assert(next.parents_sound(shape)) by {
            reveal(Search::parents_sound);
        }
        assert(next.sourced(shape)) by {
            reveal(Search::sourced);
            assert forall|q: (int, int)| #[trigger]
                next.frontier.contains(q) && !next.visited(q.1) implies exists|x: int, i: int| 
                #[trigger] next.fed(shape, x, i, q) by {
                assert(self.frontier.contains(q));
                let (x, i) = choose|x: int, i: int| #[trigger] self.fed(shape, x, i, q);
                assert(next.fed(shape, x, i, q));
            }
        }
        assert(next.parents_latest(shape)) by {
            reveal(Search::parents_latest);
        }
        assert(next.parents_cover(shape)) by {
            reveal(Search::parents_cover);
            assert forall|v: usize|
                v < shape.node_count() && #[trigger] next.visited(v as int) && v != next.source
                implies next.parent.contains_key(v) by {
                assert(self.visited(v as int));
            }
            assert forall|v: usize| #[trigger]
                next.parent.contains_key(v) && !next.visited(v as int) implies exists|c: int|
                #[trigger] next.frontier.contains((c, v as int)) by {
                assert(!self.visited(v as int));
                let c = choose|c: int| #[trigger] self.frontier.contains((c, v as int));
                assert(rest.insert(p).contains((c, v as int)));
                assert(next.frontier.contains((c, v as int)));
            }
        }
    }
}

impl Search {
    /// Visiting the node of an entry that is for an unvisited node keeps the
    /// search sound.
    pub proof fn lemma_visit(self, shape: Shape, p: (int, int), rest: Set<(int, int)>)
        requires
            self.inv(shape),
            self.frontier.contains(p),
            !self.visited(p.1),
            rest.subset_of(self.frontier),
            self.frontier.subset_of(rest.insert(p)),
            self.done == shape.adjacency[self.cur].len(),
        ensures
            self.count() < shape.node_count(),
            self.visit(p.0, p.1, rest).inv(shape),
    {
        let u = p.1;
        let next = self.visit(p.0, u, rest);
        let rank = (self.count() + 1) as u64;
        self.lemma_entry(shape, p);
        self.lemma_room(shape, u);
        self.lemma_ranks(shape);
        assert forall|x: int| 0 <= x < shape.node_count() && x != u implies (next.visited(x)
            <==> self.visited(x)) && next.markers[x] == self.markers[x] && next.cost[x]
            == self.cost[x] by {}
        assert(next.visited(u) && next.markers[u] == self.count() + 1);
        assert(next.ranked(shape)) by {
            reveal(Search::ranked);
            assert forall|i: int| 0 <= i < next.order.len() implies 0 <= #[trigger] next.order[i]
                < shape.node_count() && next.markers[next.order[i]] == i + 1 by {
                if i < self.order.len() {
                    assert(self.markers[self.order[i]] == i + 1);
                }
            }
            assert forall|x: int|
                0 <= x < shape.node_count() && #[trigger] next.visited(x) implies next.markers[x]
                <= next.order.len() && next.order[next.markers[x] - 1] == x by {
                if x != u {
                    assert(self.visited(x));
                }
            }
        }
        assert(next.started()) by {
            reveal(Search::started);
        }
        assert(next.entries_justified(shape)) by {
            reveal(Search::entries_justified);
            assert forall|q: (int, int)| #[trigger] next.frontier.contains(q) implies justified(
                shape,
                next.markers,
                next.source,
                q.0,
                q.1,
            ) by {
                assert(self.frontier.contains(q));
                let steps = choose|steps: Seq<int>|
                    #[trigger] shape.connects(self.source, steps, q.1) && shape.cost(steps) == q.0
                        && climbs(shape, self.markers, self.source, steps, steps.len() as int);
                lemma_climbs_stable(
                    shape,
                    self.markers,
                    self.source,
                    steps,
                    steps.len() as int,
                    u,
                    rank,
                );
            }
        }
        assert(next.visits_settled(shape)) by {
            reveal(Search::visits_settled);
            reveal(Search::entries_justified);
            assert forall|x: int|
                0 <= x < shape.node_count() && #[trigger] next.visited(x) implies settled(
                shape,
                next.markers,
                next.source,
                next.cost[x],
                x,
            ) by {
                if x == u {
                    let steps = choose|steps: Seq<int>|
                        #[trigger] shape.connects(self.source, steps, u) && shape.cost(steps) == p.0
                            && climbs(shape, self.markers, self.source, steps, steps.len() as int);
                    lemma_climbs_stable(
                        shape,
                        self.markers,
                        self.source,
                        steps,
                        steps.len() as int,
                        u,
                        rank,
                    );
                    assert forall|i: int| 0 <= i < steps.len() implies next.markers[
                    #[trigger] shape.node_at(self.source, steps, i)] <= self.count() by {
                        assert(self.markers[shape.node_at(self.source, steps, i)] != 0);
                    }
                    assert(climbs(
                        shape,
                        next.markers,
                        next.source,
                        steps,
                        steps.len() as int + 1,
                    ));
                } else {
                    assert(self.visited(x));
                    let steps = choose|steps: Seq<int>|
                        #[trigger] shape.connects(self.source, steps, x) && shape.cost(steps)
                            == self.cost[x] && climbs(
                            shape,
                            self.markers,
                            self.source,
                            steps,
                            steps.len() as int + 1,
                        );
                    lemma_climbs_stable(
                        shape,
                        self.markers,
                        self.source,
                        steps,
                        steps.len() as int + 1,
                        u,
                        rank,
                    );
                }
            }
        }
        assert(next.closed(shape)) by {
            reveal(Search::closed);
            assert forall|x: int, i: int|
                0 <= x < shape.node_count() && next.visited(x) && 0 <= i
                    < shape.adjacency[x].len() implies {
                ||| (x == next.cur && i >= next.done)
                ||| next.visited(shape.targets[#[trigger] shape.adjacency[x][i]] as int)
                ||| next.frontier.contains(
                    (
                        next.cost[x] + shape.weights[shape.adjacency[x][i]],
                        shape.targets[shape.adjacency[x][i]] as int,
                    ),
                )
            } by {
                if x != u {
                    let y = shape.targets[shape.adjacency[x][i]] as int;
                    let q = (self.cost[x] + shape.weights[shape.adjacency[x][i]], y);
                    assert(self.visited(x));
                    if !self.visited(y) && y != u {
                        assert(self.frontier.contains(q));
                        assert(rest.insert(p).contains(q));
                    }
                }
            }
        }
        assert(next.parents_sound(shape)) by {
            reveal(Search::parents_sound);
            assert forall|v: usize| #[trigger] next.parent.contains_key(v) implies {
                &&& v < shape.node_count()
                &&& next.parent[v] < shape.node_count()
                &&& next.visited(next.parent[v] as int)
                &&& shape.adjacent(next.parent[v] as int, v as int)
                &&& (next.visited(v as int) ==> next.markers[next.parent[v] as int]
                    < next.markers[v as int])
            } by {
                assert(self.parent.contains_key(v));
                assert(self.visited(self.parent[v] as int));
                assert(self.markers[self.parent[v] as int] <= self.count());
            }
        }
        assert(next.sourced(shape)) by {
            reveal(Search::sourced);
            reveal(Search::started);
            assert forall|q: (int, int)| #[trigger]
                next.frontier.contains(q) && !next.visited(q.1) implies exists|x: int, i: int| 
                #[trigger] next.fed(shape, x, i, q) by {
                assert(self.frontier.contains(q));
                self.lemma_entry(shape, q);
                assert(q.1 != u);
                assert(!self.visited(q.1));
                let (x, i) = choose|x: int, i: int| #[trigger] self.fed(shape, x, i, q);
                assert(next.fed(shape, x, i, q));
            }
        }
        assert(next.parents_latest(shape)) by {
            reveal(Search::parents_latest);
            reveal(Search::parents_sound);
            assert forall|x: int, i: int|
                0 <= x < shape.node_count() && next.visited(x) && 0 <= i
                    < shape.adjacency[x].len() && (x != next.cur || i < next.done)
                    && next.parent.contains_key(shape.targets[#[trigger] shape.adjacency[x][i]]) && (
                next.visited(shape.targets[shape.adjacency[x][i]] as int) ==> next.markers[x]
                    < next.markers[shape.targets[shape.adjacency[x][i]] as int])
                implies next.markers[x]
                <= next.markers[next.parent[shape.targets[shape.adjacency[x][i]]] as int] by {
                let v = shape.targets[shape.adjacency[x][i]];
                assert(self.visited(x));
                assert(self.parent.contains_key(v));
                assert(self.visited(self.parent[v] as int));
            }
        }
        assert(next.parents_cover(shape)) by {
            reveal(Search::parents_cover);
            reveal(Search::parents_sound);
            reveal(Search::entries_justified);
            assert forall|v: usize|
                v < shape.node_count() && #[trigger] next.visited(v as int) && v != next.source
                implies next.parent.contains_key(v) by {
                if v != u {
                    assert(self.visited(v as int));
                }
            }
            assert forall|v: usize| #[trigger]
                next.parent.contains_key(v) && !next.visited(v as int) implies exists|c: int|
                #[trigger] next.frontier.contains((c, v as int)) by {
                assert(!self.visited(v as int));
                let c = choose|c: int| #[trigger] self.frontier.contains((c, v as int));
                assert(rest.insert(p).contains((c, v as int)));
                assert(next.frontier.contains((c, v as int)));
            }
        }
    }

    /// Following an edge of `cur` to a visited node keeps the search sound.
    pub proof fn lemma_passed(self, shape: Shape)
        requires
            self.inv(shape),
            self.done < shape.adjacency[self.cur].len(),
            self.visited(shape.targets[shape.adjacency[self.cur][self.done]] as int),
        ensures
            self.passed().inv(shape),
    {
        let next = self.passed();
        assert(next.ranked(shape)) by {
            reveal(Search::ranked);
            assert forall|u: int|
                0 <= u < shape.node_count() && #[trigger] next.visited(u) implies next.markers[u]
                <= next.order.len() && next.order[next.markers[u] - 1] == u by {
                assert(self.visited(u));
            }
        }
        assert(next.started()) by {
            reveal(Search::started);
        }
        assert(next.entries_justified(shape)) by {
            reveal(Search::entries_justified);
        }
        assert(next.visits_settled(shape)) by {
            reveal(Search::visits_settled);
            assert forall|u: int|
                0 <= u < shape.node_count() && #[trigger] next.visited(u) implies settled(
                shape,
                next.markers,
                next.source,
                next.cost[u],
                u,
            ) by {
                assert(self.visited(u));
            }
        }
        assert(next.closed(shape)) by {
            reveal(Search::closed);
            assert forall|x: int, i: int|
                0 <= x < shape.node_count() && next.visited(x) && 0 <= i
                    < shape.adjacency[x].len() implies {
                ||| (x == next.cur && i >= next.done)
                ||| next.visited(shape.targets[#[trigger] shape.adjacency[x][i]] as int)
                ||| next.frontier.contains(
                    (
                        next.cost[x] + shape.weights[shape.adjacency[x][i]],
                        shape.targets[shape.adjacency[x][i]] as int,
                    ),
                )
            } by {
                assert(self.visited(x));
            }
        }
        assert(next.parents_sound(shape)) by {
            reveal(Search::parents_sound);
        }
        assert(next.sourced(shape)) by {
            reveal(Search::sourced);
            self.lemma_ranks(shape);
            assert(self.count() > 0);
            assert forall|q: (int, int)| #[trigger]
                next.frontier.contains(q) && !next.visited(q.1) implies exists|x: int, i: int| 
                #[trigger] next.fed(shape, x, i, q) by {
                assert(self.frontier.contains(q) && !self.visited(q.1));
                let (x, i) = choose|x: int, i: int| #[trigger] self.fed(shape, x, i, q);
                assert(next.fed(shape, x, i, q));
            }
        }
        assert(next.parents_latest(shape)) by {
            reveal(Search::parents_latest);
            reveal(Search::started);
            self.lemma_ranks(shape);
            self.lemma_last(shape);
            assert forall|x: int, i: int|
                0 <= x < shape.node_count() && next.visited(x) && 0 <= i
                    < shape.adjacency[x].len() && (x != next.cur || i < next.done)
                    && next.parent.contains_key(shape.targets[#[trigger] shape.adjacency[x][i]]) && (
                next.visited(shape.targets[shape.adjacency[x][i]] as int) ==> next.markers[x]
                    < next.markers[shape.targets[shape.adjacency[x][i]] as int])
                implies next.markers[x]
                <= next.markers[next.parent[shape.targets[shape.adjacency[x][i]]] as int] by {
                assert(self.visited(x));
                if x == self.cur && i == self.done {
                    let y = shape.targets[shape.adjacency[x][i]] as int;
                    assert(self.markers[y] <= self.markers[self.cur]);
                }
            }
        }
        assert(next.parents_cover(shape)) by {
            reveal(Search::parents_cover);
            assert forall|v: usize|
                v < shape.node_count() && #[trigger] next.visited(v as int) && v != next.source
                implies next.parent.contains_key(v) by {
                assert(self.visited(v as int));
            }
            assert forall|v: usize| #[trigger]
                next.parent.contains_key(v) && !next.visited(v as int) implies exists|c: int|
                #[trigger] next.frontier.contains((c, v as int)) by {
                assert(!self.visited(v as int));
                let c = choose|c: int| #[trigger] self.frontier.contains((c, v as int));
                assert(next.frontier.contains((c, v as int)));
            }
        }
    }

    /// The walk by which a visited node was reached.
    pub proof fn lemma_route(self, shape: Shape, u: int) -> (steps: Seq<int>)
        requires
            self.inv(shape),
            0 <= u < shape.node_count(),
            self.visited(u),
        ensures
            shape.connects(self.source, steps, u),
            shape.cost(steps) == self.cost[u],
            climbs(shape, self.markers, self.source, steps, steps.len() as int + 1),
            shape.is_simple(self.source, steps),
    {
        reveal(Search::visits_settled);
        let steps = choose|steps: Seq<int>|
            #[trigger] shape.connects(self.source, steps, u) && shape.cost(steps) == self.cost[u]
                && climbs(shape, self.markers, self.source, steps, steps.len() as int + 1);
        steps
    }

    /// The entry for an edge of the visited node `cur` that leads to an
    /// unvisited node stands for a walk that passes no node twice.
    pub proof fn lemma_entry_walk(self, shape: Shape) -> (steps: Seq<int>)
        requires
            self.inv(shape),
            self.visited(self.cur),
            self.done < shape.adjacency[self.cur].len(),
            !self.visited(shape.targets[shape.adjacency[self.cur][self.done]] as int),
        ensures
            shape.is_walk(self.source, steps),
            shape.is_simple(self.source, steps),
            shape.end(self.source, steps) == shape.targets[shape.adjacency[self.cur][self.done]],
            shape.cost(steps) == self.cost[self.cur]
                + shape.weights[shape.adjacency[self.cur][self.done]],
            0 <= self.cost[self.cur],
    {
        let u = self.cur;
        let e = shape.adjacency[u][self.done];
        let steps = self.lemma_route(shape, u);
        assert(shape.leaves(e, u));
        shape.lemma_walk_push(self.source, steps, e);
        shape.lemma_cost_nonnegative(steps);
        let more = steps.push(e);
        assert(shape.is_simple(self.source, more)) by {
            assert forall|i: int, j: int| 0 <= i < j <= more.len() implies shape.node_at(
                self.source,
                more,
                i,
            ) != shape.node_at(self.source, more, j) by {
                assert(shape.node_at(self.source, more, i) == shape.node_at(self.source, steps, i));
                assert(self.markers[shape.node_at(self.source, steps, i)] != 0);
                if j < more.len() {
                    assert(shape.node_at(self.source, more, j) == shape.node_at(
                        self.source,
                        steps,
                        j,
                    ));
                }
            }
        }
        more
    }

    /// The cost of the entry for an edge of the visited node `cur` that
    /// leads to an unvisited node fits where the costs of all walks fit that
    /// pass no node twice.
    pub proof fn lemma_entry_fits(self, shape: Shape)
        requires
            self.inv(shape),
            shape.costs_fit(self.source),
            self.visited(self.cur),
            self.done < shape.adjacency[self.cur].len(),
            !self.visited(shape.targets[shape.adjacency[self.cur][self.done]] as int),
        ensures
            0 <= self.cost[self.cur] + shape.weights[shape.adjacency[self.cur][self.done]]
                <= u64::MAX,
    {
        let steps = self.lemma_entry_walk(shape);
    }

    /// The cost of such an entry, plus the estimate for its node, fits
    /// where that sum fits for all walks that pass no node twice.
    pub proof fn lemma_estimate_fits(self, shape: Shape, h: Seq<u64>)
        requires
            self.inv(shape),
            shape.estimates_fit(self.source, h),
            self.visited(self.cur),
            self.done < shape.adjacency[self.cur].len(),
            !self.visited(shape.targets[shape.adjacency[self.cur][self.done]] as int),
        ensures
            0 <= shape.targets[shape.adjacency[self.cur][self.done]] < h.len(),
            0 <= self.cost[self.cur] + shape.weights[shape.adjacency[self.cur][self.done]]
                + h[shape.targets[shape.adjacency[self.cur][self.done]] as int] <= u64::MAX,
    {
        let steps = self.lemma_entry_walk(shape);
    }

    /// Following an edge of the visited node `cur` to an unvisited node,
    /// and adding the entry for it, keeps the search sound.
    pub proof fn lemma_pushed(self, shape: Shape, c: int, v: int)
        requires
            self.inv(shape),
            self.visited(self.cur),
            self.done < shape.adjacency[self.cur].len(),
            v == shape.targets[shape.adjacency[self.cur][self.done]],
            c == self.cost[self.cur] + shape.weights[shape.adjacency[self.cur][self.done]],
            !self.visited(v),
        ensures
            self.pushed(c, v).inv(shape),
    {
        let u = self.cur;
        let e = shape.adjacency[u][self.done];
        let next = self.pushed(c, v);
        self.lemma_ranks(shape);
        assert(self.count() > 0);
        assert(shape.leaves(e, u));
        assert(0 <= v < shape.node_count());
        assert(next.ranked(shape)) by {
            reveal(Search::ranked);
            assert forall|x: int|
                0 <= x < shape.node_count() && #[trigger] next.visited(x) implies next.markers[x]
                <= next.order.len() && next.order[next.markers[x] - 1] == x by {
                assert(self.visited(x));
            }
        }
        assert(next.started()) by {
            reveal(Search::started);
        }
        assert(next.entries_justified(shape)) by {
            reveal(Search::entries_justified);
            let steps = self.lemma_route(shape, u);
            shape.lemma_walk_push(self.source, steps, e);
            let more = steps.push(e);
            assert(shape.connects(self.source, more, v));
            assert(climbs(shape, self.markers, self.source, more, more.len() as int)) by {
                assert forall|i: int| 0 <= i < more.len() implies #[trigger] shape.node_at(
                    self.source,
                    more,
                    i,
                ) == shape.node_at(self.source, steps, i) by {}
            }
            assert(justified(shape, self.markers, self.source, c, v));
        }
        assert(next.visits_settled(shape)) by {
            reveal(Search::visits_settled);
            assert forall|x: int|
                0 <= x < shape.node_count() && #[trigger] next.visited(x) implies settled(
                shape,
                next.markers,
                next.source,
                next.cost[x],
                x,
            ) by {
                assert(self.visited(x));
            }
        }
        assert(next.closed(shape)) by {
            reveal(Search::closed);
            assert forall|x: int, i: int|
                0 <= x < shape.node_count() && next.visited(x) && 0 <= i
                    < shape.adjacency[x].len() implies {
                ||| (x == next.cur && i >= next.done)
                ||| next.visited(shape.targets[#[trigger] shape.adjacency[x][i]] as int)
                ||| next.frontier.contains(
                    (
                        next.cost[x] + shape.weights[shape.adjacency[x][i]],
                        shape.targets[shape.adjacency[x][i]] as int,
                    ),
                )
            } by {
                assert(self.visited(x));
            }
        }
        assert(next.parents_sound(shape)) by {
            reveal(Search::parents_sound);
            assert(shape.adjacent(u, v));
        }
        assert(next.sourced(shape)) by {
            reveal(Search::sourced);
            assert forall|q: (int, int)| #[trigger]
                next.frontier.contains(q) && !next.visited(q.1) implies exists|x: int, i: int| 
                #[trigger] next.fed(shape, x, i, q) by {
                if q == (c, v) {
                    assert(next.fed(shape, u, self.done, q));
                } else {
                    assert(self.frontier.contains(q));
                    let (x, i) = choose|x: int, i: int| #[trigger] self.fed(shape, x, i, q);
                    assert(next.fed(shape, x, i, q));
                }
            }
        }
        assert(next.parents_latest(shape)) by {
            reveal(Search::parents_latest);
            reveal(Search::started);
            self.lemma_last(shape);
            assert forall|x: int, i: int|
                0 <= x < shape.node_count() && next.visited(x) && 0 <= i
                    < shape.adjacency[x].len() && (x != next.cur || i < next.done)
                    && next.parent.contains_key(shape.targets[#[trigger] shape.adjacency[x][i]]) && (
                next.visited(shape.targets[shape.adjacency[x][i]] as int) ==> next.markers[x]
                    < next.markers[shape.targets[shape.adjacency[x][i]] as int])
                implies next.markers[x]
                <= next.markers[next.parent[shape.targets[shape.adjacency[x][i]]] as int] by {
                let y = shape.targets[shape.adjacency[x][i]];
                assert(self.visited(x));
                assert(self.markers[x] <= self.markers[u]);
                if y as int != v {
                    assert(self.parent.contains_key(y));
                }
            }
        }
        assert(next.parents_cover(shape)) by {
            reveal(Search::parents_cover);
            assert forall|w: usize|
                w < shape.node_count() && #[trigger] next.visited(w as int) && w != next.source
                implies next.parent.contains_key(w) by {
                assert(self.visited(w as int));
            }
            assert forall|w: usize| #[trigger]
                next.parent.contains_key(w) && !next.visited(w as int) implies exists|d: int|
                #[trigger] next.frontier.contains((d, w as int)) by {
                if w == v {
                    assert(next.frontier.contains((c, w as int)));
                } else {
                    assert(self.parent.contains_key(w));
                    assert(!self.visited(w as int));
                    let d = choose|d: int| #[trigger] self.frontier.contains((d, w as int));
                    assert(next.frontier.contains((d, w as int)));
                }
            }
        }
    }
}

/// `path` follows recorded parents back from `target`: each node is the
/// parent of the next, the chase ended at `source` or at a node without a
/// parent, and did not pass `source` on its way.
pub open spec fn is_trail(
    parent: Map<usize, usize>,
    source: usize,
    target: usize,
    path: Seq<usize>,
) -> bool {
    &&& path.len() >= 1
    &&& path.last() == target
    &&& forall|i: int|
        0 <= i < path.len() - 1 ==> {
            &&& #[trigger] path[i + 1] != source
            &&& parent.contains_key(path[i + 1])
            &&& parent[path[i + 1]] == path[i]
        }
    &&& (path[0] == source || !parent.contains_key(path[0]))
}

/// `path` leads from `source` to `target` along edges of the graph, through
/// visited nodes of rising rank. Each node on it is, of the nodes that have
/// an edge to the next node and were visited before that one, the one that
/// was visited last.
pub open spec fn is_route(
    shape: Shape,
    markers: Seq<u64>,
    source: int,
    target: int,
    path: Seq<usize>,
) -> bool {
    &&& path.len() >= 1
    &&& path[0] == source
    &&& path.last() == target
    &&& forall|i: int|
        0 <= i < path.len() ==> (#[trigger] path[i]) < shape.node_count() && markers[path[i] as int]
            != 0
    &&& forall|i: int|
        0 <= i < path.len() - 1 ==> shape.adjacent(path[i] as int, #[trigger] path[i + 1] as int)
            && markers[path[i] as int] < markers[path[i + 1] as int]
    &&& forall|i: int, x: int, k: int|
        0 <= i < path.len() - 1 && 0 <= x < shape.node_count() && 0 <= k < shape.adjacency[x].len()
            && shape.targets[#[trigger] shape.adjacency[x][k]] == #[trigger] path[i + 1] && 0
            < markers[x] < markers[path[i + 1] as int] ==> markers[x] <= markers[path[i] as int]
}

/// Some node carries the rank `r`.
pub open spec fn has_rank(markers: Seq<u64>, r: int) -> bool {
    exists|v: int| 0 <= v < markers.len() && #[trigger] markers[v] == r
}

/// What the markers tell after a search from `source` for `target`.
///
/// No two visited nodes carry the same rank, and the source carries the
/// first. Only nodes that can be reached from the source are visited. If
/// the target can be reached, it was visited last; if not, every node that
/// can be reached was visited.
pub open spec fn explored(shape: Shape, markers: Seq<u64>, source: int, target: int) -> bool {
    &&& markers.len() == shape.node_count()
    &&& markers[source] == 1
    &&& forall|u: int|
        0 <= u < shape.node_count() && #[trigger] markers[u] != 0 ==> shape.reachable(source, u)
    &&& forall|u: int, v: int|
        0 <= u < shape.node_count() && 0 <= v < shape.node_count() && markers[u] != 0 && markers[u]
            == markers[v] ==> u == v
    &&& shape.reachable(source, target) ==> markers[target] != 0 && forall|u: int|
        0 <= u < shape.node_count() ==> #[trigger] markers[u] <= markers[target]
    &&& !shape.reachable(source, target) ==> forall|u: int|
        0 <= u < shape.node_count() && shape.reachable(source, u) ==> #[trigger] markers[u] != 0
}

/// `last` is the node that was visited last: it carries the highest rank,
/// and every rank from one up to that is carried by some node.
pub open spec fn is_last(shape: Shape, markers: Seq<u64>, last: int) -> bool {
    &&& 0 <= last < shape.node_count()
    &&& markers[last] != 0
    &&& forall|u: int| 0 <= u < shape.node_count() ==> #[trigger] markers[u] <= markers[last]
    &&& forall|r: int| 0 < r <= markers[last] ==> #[trigger] has_rank(markers, r)
}

/// What a search from `source` for `target` leaves and returns.
///
/// The markers are as `explored` says. `cost` is the cost of a walk from the
/// source to the node visited last, through visited nodes of rising rank. If
/// the target can be reached, `path` is a route to it; if not, `path` is the
/// target alone.
pub open spec fn searched(
    shape: Shape,
    markers: Seq<u64>,
    source: int,
    target: int,
    cost: int,
    path: Seq<usize>,
) -> bool {
    &&& explored(shape, markers, source, target)
    &&& exists|last: int| #[trigger]
        is_last(shape, markers, last) && settled(shape, markers, source, cost, last)
    &&& shape.reachable(source, target) ==> is_route(shape, markers, source, target, path)
    &&& !shape.reachable(source, target) ==> path.len() == 1 && path[0] == target
}

/// No walk from `source` to the node visited last costs less than `cost`.
pub open spec fn cheapest(shape: Shape, markers: Seq<u64>, source: int, cost: int) -> bool {
    forall|last: int, steps: Seq<int>|
        is_last(shape, markers, last) && #[trigger] shape.connects(source, steps, last) ==> cost
            <= shape.cost(steps)
}

impl Search {
    /// A visited node can be reached from the source.
    pub proof fn lemma_visited_reachable(self, shape: Shape, u: int)
        requires
            self.inv(shape),
            0 <= u < shape.node_count(),
            self.visited(u),
        ensures
            shape.reachable(self.source, u),
    {
        let steps = self.lemma_route(shape, u);
    }

    /// Once the frontier is empty the search has visited something.
    pub proof fn lemma_exhausted_started(self, shape: Shape)
        requires
            self.inv(shape),
            forall|p: (int, int)| !self.frontier.contains(p),
        ensures
            self.count() > 0,
            self.visited(self.source),
    {
        reveal(Search::started);
        if self.count() == 0 {
            assert(self.frontier.contains((0int, self.source)));
        }
    }

    /// Once the frontier is empty and all edges of `cur` are followed, every
    /// node on a walk from the source is visited.
    pub proof fn lemma_exhausted_walk(self, shape: Shape, steps: Seq<int>, i: int)
        requires
            self.inv(shape),
            forall|p: (int, int)| !self.frontier.contains(p),
            self.done == shape.adjacency[self.cur].len(),
            shape.is_walk(self.source, steps),
            0 <= i <= steps.len(),
        ensures
            0 <= shape.node_at(self.source, steps, i) < shape.node_count(),
            self.visited(shape.node_at(self.source, steps, i)),
        decreases i,
    {
        shape.lemma_walk_nodes(self.source, steps, i);
        if i == 0 {
            self.lemma_exhausted_started(shape);
        } else {
            self.lemma_exhausted_walk(shape, steps, i - 1);
            let x = shape.node_at(self.source, steps, i - 1);
            let e = steps[i - 1];
            assert(shape.leaves(e, x));
            let k = choose|k: int| 0 <= k < shape.adjacency[x].len() && shape.adjacency[x][k] == e;
            reveal(Search::closed);
            let q = (
                self.cost[x] + shape.weights[shape.adjacency[x][k]],
                shape.targets[shape.adjacency[x][k]] as int,
            );
            assert(!self.frontier.contains(q));
        }
    }

    /// Along a trail that ends in a visited node, every node is visited.
    pub proof fn lemma_trail_visited(self, shape: Shape, target: usize, path: Seq<usize>, i: int)
        requires
            self.inv(shape),
            target < shape.node_count(),
            self.visited(target as int),
            is_trail(self.parent, self.source as usize, target, path),
            0 <= i < path.len(),
        ensures
            path[i] < shape.node_count(),
            self.visited(path[i] as int),
            i + 1 < path.len() ==> shape.adjacent(path[i] as int, path[i + 1] as int)
                && self.markers[path[i] as int] < self.markers[path[i + 1] as int],
        decreases path.len() - i,
    {
        if i + 1 < path.len() {
            self.lemma_trail_visited(shape, target, path, i + 1);
            reveal(Search::parents_sound);
            assert(self.parent.contains_key(path[i + 1]));
        }
    }

    /// The rank of a visited node; of any other, a number above all ranks.
    pub open spec fn rank(self, v: usize) -> nat {
        if v < self.markers.len() && self.markers[v as int] != 0 {
            self.markers[v as int] as nat
        } else {
            (u64::MAX + 1) as nat
        }
    }

    /// A recorded parent ranks below its child.
    pub proof fn lemma_parents_descend(self, shape: Shape)
        requires
            self.inv(shape),
        ensures
            forall|v: usize| #[trigger]
                self.parent.contains_key(v) ==> self.rank(self.parent[v]) < self.rank(v),
    {
        reveal(Search::parents_sound);
    }

    /// The node visited last carries the highest rank, and all ranks up to
    /// it are carried.
    pub proof fn lemma_last(self, shape: Shape)
        requires
            self.inv(shape),
            self.count() > 0,
        ensures
            is_last(shape, self.markers, self.order.last()),
            self.markers[self.order.last()] == self.count(),
    {
        let last = self.order.last();
        self.lemma_ranks(shape);
        reveal(Search::ranked);
        assert(self.markers[self.order[self.count() - 1]] == self.count());
        assert forall|r: int| 0 < r <= self.markers[last] implies #[trigger] has_rank(
            self.markers,
            r,
        ) by {
            let v = self.order[r - 1];
            assert(self.markers[v] == r);
        }
    }

    /// What the markers tell when a search stops.
    pub proof fn lemma_explored(self, shape: Shape, target: int)
        requires
            self.inv(shape),
            0 <= target < shape.node_count(),
            self.done == shape.adjacency[self.cur].len(),
            self.visited(target) ==> self.order.last() == target,
            !self.visited(target) ==> forall|p: (int, int)| !self.frontier.contains(p),
        ensures
            self.count() > 0,
            explored(shape, self.markers, self.source, target),
            self.visited(target) <==> shape.reachable(self.source, target),
    {
        let n = shape.node_count();
        self.lemma_ranks(shape);
        if !self.visited(target) {
            self.lemma_exhausted_started(shape);
        }
        self.lemma_last(shape);
        assert forall|u: int, v: int|
            0 <= u < n && 0 <= v < n && self.markers[u] != 0 && self.markers[u]
                == self.markers[v] implies u == v by {
            assert(self.visited(u));
        }
        assert forall|u: int| 0 <= u < n && #[trigger] self.markers[u] != 0 implies shape.reachable(
            self.source,
            u,
        ) by {
            self.lemma_visited_reachable(shape, u);
        }
        if self.visited(target) {
            self.lemma_visited_reachable(shape, target);
        } else {
            assert forall|u: int| 0 <= u < n && shape.reachable(self.source, u) implies 
                #[trigger] self.markers[u] != 0 by {
                let steps = choose|steps: Seq<int>| shape.connects(self.source, steps, u);
                self.lemma_exhausted_walk(shape, steps, steps.len() as int);
            }
        }
    }

    /// The trail from a visited target is a route from the source.
    pub proof fn lemma_trail_is_route(self, shape: Shape, target: usize, path: Seq<usize>)
        requires
            self.inv(shape),
            self.done == shape.adjacency[self.cur].len(),
            target < shape.node_count(),
            self.visited(target as int),
            is_trail(self.parent, self.source as usize, target, path),
        ensures
            is_route(shape, self.markers, self.source, target as int, path),
    {
        let n = shape.node_count();
        assert forall|i: int, x: int, k: int|
            0 <= i < path.len() - 1 && 0 <= x < n && 0 <= k < shape.adjacency[x].len()
                && shape.targets[#[trigger] shape.adjacency[x][k]] == #[trigger] path[i + 1] && 0
                < self.markers[x] < self.markers[path[i + 1] as int] implies self.markers[x]
            <= self.markers[path[i] as int] by {
            reveal(Search::parents_latest);
            assert(self.visited(x));
            assert(self.parent.contains_key(path[i + 1]));
        }
        assert forall|i: int| 0 <= i < path.len() implies (#[trigger] path[i]) < n
            && self.markers[path[i] as int] != 0 by {
            self.lemma_trail_visited(shape, target, path, i);
        }
        assert forall|i: int| 0 <= i < path.len() - 1 implies shape.adjacent(
            path[i] as int,
            #[trigger] path[i + 1] as int,
        ) && self.markers[path[i] as int] < self.markers[path[i + 1] as int] by {
            self.lemma_trail_visited(shape, target, path, i);
        }
        self.lemma_trail_visited(shape, target, path, 0);
        assert(path[0] == self.source) by {
            reveal(Search::parents_cover);
            assert(self.visited(path[0] as int));
        }
    }

    /// With an empty frontier, the trail from an unvisited target is the
    /// target alone.
    pub proof fn lemma_trail_is_stub(self, shape: Shape, target: usize, path: Seq<usize>)
        requires
            self.inv(shape),
            target < shape.node_count(),
            !self.visited(target as int),
            forall|p: (int, int)| !self.frontier.contains(p),
            is_trail(self.parent, self.source as usize, target, path),
        ensures
            path == seq![target],
    {
        reveal(Search::parents_cover);
        if path.len() > 1 {
            assert(self.parent.contains_key(path[path.len() - 2 + 1]));
        }
        assert(path =~= seq![target]);
    }

    /// What a search has achieved when it stops: either it has just followed
    /// all edges of the target, which it visited last, or its frontier is
    /// empty and the target is unvisited.
    pub proof fn lemma_finished(self, shape: Shape, target: usize, dist: int, path: Seq<usize>)
        requires
            self.inv(shape),
            target < shape.node_count(),
            self.done == shape.adjacency[self.cur].len(),
            self.count() > 0 ==> dist == self.cost[self.order.last()],
            self.visited(target as int) ==> self.order.last() == target,
            !self.visited(target as int) ==> forall|p: (int, int)| !self.frontier.contains(p),
            is_trail(self.parent, self.source as usize, target, path),
        ensures
            searched(shape, self.markers, self.source, target as int, dist, path),
    {
        self.lemma_explored(shape, target as int);
        self.lemma_last(shape);
        let last = self.order.last();
        let steps = self.lemma_route(shape, last);
        assert(settled(shape, self.markers, self.source, dist, last));
        if self.visited(target as int) {
            self.lemma_trail_is_route(shape, target, path);
        } else {
            self.lemma_trail_is_stub(shape, target, path);
        }
    }
}

/// A walk that climbs among the visited nodes still climbs when an
/// unvisited node gets a rank.
pub proof fn lemma_climbs_stable(
    shape: Shape,
    markers: Seq<u64>,
    from: int,
    steps: Seq<int>,
    m: int,
    u: int,
    rank: u64,
)
    requires
        climbs(shape, markers, from, steps, m),
        0 <= u < markers.len(),
        markers[u] == 0,
    ensures
        climbs(shape, markers.update(u, rank), from, steps, m),
{
    let after = markers.update(u, rank);
    assert forall|i: int| 0 <= i < m implies after[#[trigger] shape.node_at(from, steps, i)]
        == markers[shape.node_at(from, steps, i)] by {
        assert(markers[shape.node_at(from, steps, i)] != 0);
    }
}

/// A walk through nodes of rising rank passes no node twice.
pub proof fn lemma_climb_is_simple(shape: Shape, markers: Seq<u64>, from: int, steps: Seq<int>)
    requires
        climbs(shape, markers, from, steps, steps.len() as int + 1),
    ensures
        shape.is_simple(from, steps),
{
    assert forall|i: int, j: int| 0 <= i < j <= steps.len() implies shape.node_at(from, steps, i)
        != shape.node_at(from, steps, j) by {
        assert(markers[shape.node_at(from, steps, i)] < markers[shape.node_at(from, steps, j)]);
    }
}

/// After a search whose target can be reached, the node visited last is
/// the target.
pub proof fn lemma_last_is_target(
    shape: Shape,
    markers: Seq<u64>,
    source: int,
    target: int,
    last: int,
)
    requires
        0 <= target < shape.node_count(),
        explored(shape, markers, source, target),
        shape.reachable(source, target),
        is_last(shape, markers, last),
    ensures
        last == target,
{
    assert(markers[last] <= markers[target]);
    assert(markers[target] <= markers[last]);
}

/// The path that a search returns starts at the source exactly if the
/// target can be reached from the source, and it always ends at the target.
pub proof fn lemma_path_tells_reach(
    shape: Shape,
    markers: Seq<u64>,
    source: int,
    target: int,
    cost: int,
    path: Seq<usize>,
)
    requires
        0 <= source < shape.node_count(),
        searched(shape, markers, source, target, cost, path),
    ensures
        path.len() >= 1,
        path.last() == target,
        shape.reachable(source, target) <==> path[0] == source,
{
    if !shape.reachable(source, target) {
        assert(shape.connects(source, Seq::<int>::empty(), source));
        assert(shape.reachable(source, source));
    }
}

/// Along a route the ranks rise, so a route passes no node twice.
pub proof fn lemma_route_rises(
    shape: Shape,
    markers: Seq<u64>,
    source: int,
    target: int,
    path: Seq<usize>,
    i: int,
    j: int,
)
    requires
        is_route(shape, markers, source, target, path),
        0 <= i < j < path.len(),
    ensures
        markers[path[i] as int] < markers[path[j] as int],
        path[i] != path[j],
    decreases j - i,
{
    assert(markers[path[j - 1] as int] < markers[path[j - 1 + 1] as int]);
    if i < j - 1 {
        lemma_route_rises(shape, markers, source, target, path, i, j - 1);
    }
}

/// A search for the node at which it starts returns that node alone, at
/// no cost.
pub proof fn lemma_search_for_source(
    shape: Shape,
    markers: Seq<u64>,
    source: int,
    cost: int,
    path: Seq<usize>,
)
    requires
        0 <= source < shape.node_count(),
        searched(shape, markers, source, source, cost, path),
    ensures
        cost == 0,
        path.len() == 1,
        path[0] == source,
{
    assert(shape.connects(source, Seq::<int>::empty(), source));
    assert(shape.reachable(source, source));
    if path.len() > 1 {
        lemma_route_rises(shape, markers, source, source, path, 0, path.len() - 1);
    }
    let steps = lemma_cost_of_a_walk(shape, markers, source, source, cost, path);
    if steps.len() > 0 {
        assert(shape.node_at(source, steps, 0) != shape.node_at(source, steps, steps.len() as int));
    }
}

/// A search marks only nodes that can be reached from its source; and if
/// it does not reach its target, it marks all of them.
pub proof fn lemma_marked_is_reachable(
    shape: Shape,
    markers: Seq<u64>,
    source: int,
    target: int,
    cost: int,
    path: Seq<usize>,
    u: int,
)
    requires
        0 <= u < shape.node_count(),
        searched(shape, markers, source, target, cost, path),
    ensures
        markers[u] != 0 ==> shape.reachable(source, u),
        !shape.reachable(source, u) ==> markers[u] == 0,
        !shape.reachable(source, target) && shape.reachable(source, u) ==> markers[u] != 0,
{
}

/// The cost that a search returns for a target that can be reached is the
/// cost of a walk from the source to the target that passes no node twice.
pub proof fn lemma_cost_of_a_walk(
    shape: Shape,
    markers: Seq<u64>,
    source: int,
    target: int,
    cost: int,
    path: Seq<usize>,
) -> (steps: Seq<int>)
    requires
        0 <= target < shape.node_count(),
        searched(shape, markers, source, target, cost, path),
        shape.reachable(source, target),
    ensures
        shape.connects(source, steps, target),
        shape.is_simple(source, steps),
        shape.cost(steps) == cost,
{
    let last = choose|last: int| #[trigger]
        is_last(shape, markers, last) && settled(shape, markers, source, cost, last);
    lemma_last_is_target(shape, markers, source, target, last);
    let steps = choose|steps: Seq<int>|
        #[trigger] shape.connects(source, steps, target) && shape.cost(steps) == cost && climbs(
            shape,
            markers,
            source,
            steps,
            steps.len() as int + 1,
        );
    lemma_climb_is_simple(shape, markers, source, steps);
    steps
}

/// The entries that a stack or a queue of pairs `(cost, node)` holds.
pub open spec fn entries(items: Seq<(u64, usize)>) -> Set<(int, int)> {
    Set::new(
        |p: (int, int)|
            exists|i: int|
                0 <= i < items.len() && #[trigger] items[i] == (p.0 as u64, p.1 as usize) && 0
                    <= p.0 <= u64::MAX && 0 <= p.1 <= usize::MAX,
    )
}

/// Pushing an item adds its entry.
pub proof fn lemma_entries_push(items: Seq<(u64, usize)>, item: (u64, usize))
    ensures
        entries(items.push(item)) == entries(items).insert((item.0 as int, item.1 as int)),
{
    let more = items.push(item);
    let own = (item.0 as int, item.1 as int);
    assert forall|p: (int, int)| entries(more).contains(p) <==> entries(items).insert(own).contains(
        p,
    ) by {
        if entries(more).contains(p) {
            let i = choose|i: int|
                0 <= i < more.len() && #[trigger] more[i] == (p.0 as u64, p.1 as usize);
            if i < items.len() {
                assert(items[i] == more[i]);
            }
        }
        if entries(items).contains(p) {
            let i = choose|i: int|
                0 <= i < items.len() && #[trigger] items[i] == (p.0 as u64, p.1 as usize);
            assert(more[i] == items[i]);
        }
        if p == own {
            assert(more[items.len() as int] == item);
        }
    }
    assert(entries(more) =~= entries(items).insert(own));
}

/// Taking the item at `at` out removes no entry but, at most, its own.
pub proof fn lemma_entries_remove(items: Seq<(u64, usize)>, at: int)
    requires
        0 <= at < items.len(),
    ensures
        entries(items).contains((items[at].0 as int, items[at].1 as int)),
        entries(items.remove(at)).subset_of(entries(items)),
        entries(items).subset_of(
            entries(items.remove(at)).insert((items[at].0 as int, items[at].1 as int)),
        ),
{
    let rest = items.remove(at);
    let own = (items[at].0 as int, items[at].1 as int);
    assert forall|p: (int, int)| entries(rest).contains(p) implies entries(items).contains(p) by {
        let i = choose|i: int|
                0 <= i < rest.len() && #[trigger] rest[i] == (p.0 as u64, p.1 as usize);
        if i < at {
            assert(items[i] == rest[i]);
        } else {
            assert(items[i + 1] == rest[i]);
        }
    }
    assert forall|p: (int, int)| entries(items).contains(p) implies entries(rest).insert(
        own,
    ).contains(p) by {
        let i = choose|i: int|
                0 <= i < items.len() && #[trigger] items[i] == (p.0 as u64, p.1 as usize);
        if i < at {
            assert(rest[i] == items[i]);
        } else if i > at {
            assert(rest[i - 1] == items[i]);
        }
    }
}

} // verus!
