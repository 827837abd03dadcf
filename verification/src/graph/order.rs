//! Which node a search visits next, stated over the ranks that it leaves.
//!
//! When a search gives out a rank, the edges that lead from a node visited
//! before to a node not visited before are open. The search follows one of
//! them: the stack the one that it met last, the queue the one that it met
//! first, the heap one whose entry precedes all others.

use super::paths::Shape;
use super::search::{is_last, Search};
use vstd::prelude::*;

verus! {

/// How a search picks, among the open edges, the one that it follows.
pub enum Order {
    /// The edge met last: of the node visited last and, among its edges,
    /// the last in its list.
    Latest,
    /// The edge met first: of the node visited first and, among its edges,
    /// the first in its list.
    Earliest,
    /// An edge whose entry has the least sum of cost and the estimate given
    /// here; among these, one of highest cost; among these, one that leads
    /// to the highest node.
    Least(Seq<u64>),
}

/// When rank `r` was given out, edge `i` of node `x` was open: `x` had been
/// visited, and the node to which the edge leads had not.
pub open spec fn open_at(shape: Shape, markers: Seq<u64>, r: int, x: int, i: int) -> bool {
    &&& 0 <= x < shape.node_count()
    &&& 0 <= i < shape.adjacency[x].len()
    &&& 0 < markers[x] < r
    &&& (markers[shape.targets[shape.adjacency[x][i]] as int] == 0
        || markers[shape.targets[shape.adjacency[x][i]] as int] >= r)
}

/// The cost of the entry that edge `a.1` of node `a.0` gives.
pub open spec fn cost_along(shape: Shape, cost: Seq<int>, a: (int, int)) -> int {
    cost[a.0] + shape.weights[shape.adjacency[a.0][a.1]]
}

/// The node to which edge `a.1` of node `a.0` leads.
pub open spec fn end_of(shape: Shape, a: (int, int)) -> int {
    shape.targets[shape.adjacency[a.0][a.1]] as int
}

/// Under `order`, edge `a` is followed no later than edge `b`. An edge is
/// given as a node and a place in the list of its edges.
pub open spec fn prefers(
    shape: Shape,
    markers: Seq<u64>,
    cost: Seq<int>,
    order: Order,
    a: (int, int),
    b: (int, int),
) -> bool {
    match order {
        Order::Latest => markers[b.0] < markers[a.0] || (markers[b.0] == markers[a.0] && b.1
            <= a.1),
        Order::Earliest => markers[a.0] < markers[b.0] || (markers[a.0] == markers[b.0] && a.1
            <= b.1),
        Order::Least(h) => {
            let ca = cost_along(shape, cost, a);
            let cb = cost_along(shape, cost, b);
            let ka = ca + h[end_of(shape, a)];
            let kb = cb + h[end_of(shape, b)];
            ka < kb || (ka == kb && (ca > cb || (ca == cb && end_of(shape, a) >= end_of(shape, b))))
        },
    }
}

/// Node `v` was visited by following edge `by`: that edge was open and
/// leads to `v`, the cost noted for `v` is the cost along it, and it is
/// followed no later than any other edge that was open.
pub open spec fn taken(
    shape: Shape,
    markers: Seq<u64>,
    cost: Seq<int>,
    order: Order,
    v: int,
    by: (int, int),
) -> bool {
    &&& open_at(shape, markers, markers[v] as int, by.0, by.1)
    &&& end_of(shape, by) == v
    &&& cost[v] == cost_along(shape, cost, by)
    &&& forall|x: int, i: int| #[trigger]
        open_at(shape, markers, markers[v] as int, x, i) ==> prefers(
            shape,
            markers,
            cost,
            order,
            by,
            (x, i),
        )
}

/// The ranks are those of a search from `source` that picked its edges by
/// `order`, with `cost` the cost noted for each visited node and `via` the
/// edge by which each visited node but the source was visited.
#[verifier::opaque]
pub open spec fn scheduled(
    shape: Shape,
    markers: Seq<u64>,
    source: int,
    order: Order,
    cost: Seq<int>,
    via: Seq<(int, int)>,
) -> bool {
    &&& cost.len() == shape.node_count()
    &&& via.len() == shape.node_count()
    &&& markers[source] != 0 ==> cost[source] == 0
    &&& forall|v: int|
        0 <= v < shape.node_count() && #[trigger] markers[v] != 0 && v != source ==> taken(
            shape,
            markers,
            cost,
            order,
            v,
            via[v],
        )
}

/// The ranks are those of a search from `source` that picked its edges by
/// `order`, and `result` is the cost that it noted for the node that it
/// visited last.
pub open spec fn followed(
    shape: Shape,
    markers: Seq<u64>,
    source: int,
    order: Order,
    result: int,
) -> bool {
    exists|cost: Seq<int>, via: Seq<(int, int)>| #[trigger]
        scheduled(shape, markers, source, order, cost, via) && forall|last: int|
            is_last(shape, markers, last) ==> #[trigger] cost[last] == result
}

impl Search {
    /// Before the first visit nothing has been picked.
    pub proof fn lemma_initial_scheduled(shape: Shape, source: int, order: Order)
        requires
            0 <= source < shape.node_count(),
        ensures
            scheduled(
                shape,
                Search::initial(shape, source).markers,
                source,
                order,
                Search::initial(shape, source).cost,
                Seq::new(shape.node_count() as nat, |u: int| (0int, 0int)),
            ),
    {
        reveal(scheduled);
    }

    /// Visiting a node by the edge that `order` prefers among the open
    /// edges keeps the ranks scheduled.
    pub proof fn lemma_visit_scheduled(
        self,
        shape: Shape,
        order: Order,
        via: Seq<(int, int)>,
        p: (int, int),
        rest: Set<(int, int)>,
        by: (int, int),
    )
        requires
            self.inv(shape),
            scheduled(shape, self.markers, self.source, order, self.cost, via),
            self.frontier.contains(p),
            !self.visited(p.1),
            self.count() > 0 ==> self.fed(shape, by.0, by.1, p),
            self.count() > 0 ==> forall|x: int, i: int|
                0 <= x < shape.node_count() && self.visited(x) && 0 <= i < shape.adjacency[x].len()
                    && !self.visited(end_of(shape, (x, i))) ==> #[trigger] prefers(
                    shape,
                    self.markers,
                    self.cost,
                    order,
                    by,
                    (x, i),
                ),
        ensures
            scheduled(
                shape,
                self.visit(p.0, p.1, rest).markers,
                self.source,
                order,
                self.visit(p.0, p.1, rest).cost,
                via.update(p.1, by),
            ),
    {
        let next = self.visit(p.0, p.1, rest);
        let after = via.update(p.1, by);
        let n = shape.node_count();
        let u = p.1;
        let r = self.count() + 1;
        self.lemma_entry(shape, p);
        self.lemma_basics(shape);
        self.lemma_ranks(shape);
        self.lemma_room(shape, u);
        reveal(scheduled);
        assert(next.markers[u] == r);
        assert forall|v: int| 0 <= v < n && #[trigger] next.markers[v] != 0 && v != self.source implies taken(
            shape,
            next.markers,
            next.cost,
            order,
            v,
            after[v],
        ) by {
            if v == u {
                assert(self.count() > 0);
                assert(self.markers[by.0] <= self.count());
                assert forall|x: int, i: int| #[trigger]
                    open_at(shape, next.markers, r, x, i) implies prefers(
                    shape,
                    next.markers,
                    next.cost,
                    order,
                    by,
                    (x, i),
                ) by {
                    assert(x != u);
                    assert(self.visited(x));
                    let y = end_of(shape, (x, i));
                    assert(!self.visited(y));
                    assert(prefers(shape, self.markers, self.cost, order, by, (x, i)));
                }
            } else {
                let b = via[v];
                let rv = self.markers[v] as int;
                assert(self.markers[v] != 0);
                assert(self.markers[v] <= self.count());
                assert(taken(shape, self.markers, self.cost, order, v, b));
                assert forall|x: int, i: int| #[trigger]
                    open_at(shape, next.markers, rv, x, i) implies prefers(
                    shape,
                    next.markers,
                    next.cost,
                    order,
                    b,
                    (x, i),
                ) by {
                    assert(x != u);
                    assert(open_at(shape, self.markers, rv, x, i));
                    assert(prefers(shape, self.markers, self.cost, order, b, (x, i)));
                }
            }
        }
    }

    /// When a search stops, the cost noted for the node visited last is
    /// the result of the schedule that it followed.
    pub proof fn lemma_followed_schedule(
        self,
        shape: Shape,
        order: Order,
        via: Seq<(int, int)>,
    )
        requires
            self.inv(shape),
            self.count() > 0,
            scheduled(shape, self.markers, self.source, order, self.cost, via),
        ensures
            followed(shape, self.markers, self.source, order, self.cost[self.order.last()]),
    {
        self.lemma_ranks(shape);
        self.lemma_last(shape);
        let end = self.order.last();
        assert forall|last: int| is_last(shape, self.markers, last) implies #[trigger] self.cost[last]
            == self.cost[end] by {
            assert(self.markers[last] <= self.markers[end]);
            assert(self.markers[end] <= self.markers[last]);
            assert(self.visited(last));
        }
    }
}

} // verus!
