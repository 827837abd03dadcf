//! How the stack of the depth-first search and the queue of the
//! breadth-first search hold their entries: in the order in which the edges
//! that gave them were met.

use super::order::{end_of, prefers, Order};
use super::paths::Shape;
use super::search::{entries, lemma_entries_remove, Search};
use vstd::prelude::*;

verus! {

/// Edge `a` was met before edge `b`: its node was visited earlier or, if
/// both leave one node, it stands earlier in the list of that node's edges.
pub open spec fn met_before(markers: Seq<u64>, a: (int, int), b: (int, int)) -> bool {
    markers[a.0] < markers[b.0] || (markers[a.0] == markers[b.0] && a.1 < b.1)
}

/// `origin` names, for each of `items`, the edge that gave it. The items
/// stand in the order in which their edges were met, and every followed edge
/// from a visited node to an unvisited one has its item. Before the first
/// visit there is one item, which no edge gave.
#[verifier::opaque]
pub open spec fn lined(
    st: Search,
    shape: Shape,
    items: Seq<(u64, usize)>,
    origin: Seq<(int, int)>,
) -> bool {
    &&& origin.len() == items.len()
    &&& st.count() == 0 ==> items.len() == 1
    &&& st.count() > 0 ==> forall|k: int|
        0 <= k < items.len() ==> st.fed(
            shape,
            (#[trigger] origin[k]).0,
            origin[k].1,
            (items[k].0 as int, items[k].1 as int),
        )
    &&& forall|k: int, l: int|
        0 <= k < l < items.len() ==> met_before(
            st.markers,
            #[trigger] origin[k],
            #[trigger] origin[l],
        )
    &&& forall|x: int, i: int|
        0 <= x < shape.node_count() && st.visited(x) && 0 <= i < shape.adjacency[x].len() && (x
            != st.cur || i < st.done) && !st.visited(#[trigger] end_of(shape, (x, i)))
            ==> exists|k: int| 0 <= k < origin.len() && #[trigger] origin[k] == (x, i)
}

/// The place that an item has after the item at `at` was taken out.
pub open spec fn moved(at: int, j: int) -> int {
    if j < at {
        j
    } else {
        j - 1
    }
}

/// The place that an item had before the item at `at` was taken out.
pub open spec fn unmoved(at: int, k: int) -> int {
    if k < at {
        k
    } else {
        k + 1
    }
}

impl Search {
    /// The line with which a search starts.
    pub proof fn lemma_lined_initial(shape: Shape, source: usize)
        requires
            0 <= source < shape.node_count(),
        ensures
            lined(
                Search::initial(shape, source as int),
                shape,
                seq![(0u64, source)],
                seq![(0int, 0int)],
            ),
    {
        reveal(lined);
    }

    /// Taking out an item for a visited node keeps the line.
    pub proof fn lemma_lined_dropped(
        self,
        shape: Shape,
        items: Seq<(u64, usize)>,
        origin: Seq<(int, int)>,
        at: int,
    )
        requires
            self.inv(shape),
            self.frontier == entries(items),
            lined(self, shape, items, origin),
            0 <= at < items.len(),
            self.visited(items[at].1 as int),
        ensures
            lined(
                self.dropped(entries(items.remove(at))),
                shape,
                items.remove(at),
                origin.remove(at),
            ),
    {
        let next = self.dropped(entries(items.remove(at)));
        let items2 = items.remove(at);
        let origin2 = origin.remove(at);
        reveal(lined);
        self.lemma_basics(shape);
        self.lemma_ranks(shape);
        lemma_entries_remove(items, at);
        self.lemma_entry(shape, (items[at].0 as int, items[at].1 as int));
        assert(self.count() > 0);
        assert forall|k: int| 0 <= k < items2.len() implies next.fed(
            shape,
            (#[trigger] origin2[k]).0,
            origin2[k].1,
            (items2[k].0 as int, items2[k].1 as int),
        ) by {
            let j = unmoved(at, k);
            assert(origin2[k] == origin[j] && items2[k] == items[j]);
            assert(self.fed(
                shape,
                origin[j].0,
                origin[j].1,
                (items[j].0 as int, items[j].1 as int),
            ));
        }
        assert forall|k: int, l: int| 0 <= k < l < items2.len() implies met_before(
            next.markers,
            #[trigger] origin2[k],
            #[trigger] origin2[l],
        ) by {
            assert(origin2[k] == origin[unmoved(at, k)] && origin2[l] == origin[unmoved(at, l)]);
            assert(met_before(self.markers, origin[unmoved(at, k)], origin[unmoved(at, l)]));
        }
        assert forall|x: int, i: int|
            0 <= x < shape.node_count() && next.visited(x) && 0 <= i < shape.adjacency[x].len() && (
            x != next.cur || i < next.done) && !next.visited(
                #[trigger] end_of(shape, (x, i)),
            ) implies exists|k: int| 0 <= k < origin2.len() && #[trigger] origin2[k] == (x, i) by {
            let j = choose|j: int| 0 <= j < origin.len() && #[trigger] origin[j] == (x, i);
            assert(self.fed(
                shape,
                origin[at].0,
                origin[at].1,
                (items[at].0 as int, items[at].1 as int),
            ));
            assert(j != at);
            assert(origin2[moved(at, j)] == (x, i));
        }
    }

    /// Taking out an item for an unvisited node, and visiting that node,
    /// keeps the line.
    pub proof fn lemma_lined_visit(
        self,
        shape: Shape,
        items: Seq<(u64, usize)>,
        origin: Seq<(int, int)>,
        at: int,
    )
        requires
            self.inv(shape),
            self.done == shape.adjacency[self.cur].len(),
            self.frontier == entries(items),
            lined(self, shape, items, origin),
            0 <= at < items.len(),
            !self.visited(items[at].1 as int),
        ensures
            lined(
                self.visit(items[at].0 as int, items[at].1 as int, entries(items.remove(at))),
                shape,
                items.remove(at),
                origin.remove(at),
            ),
    {
        let u = items[at].1 as int;
        let next = self.visit(items[at].0 as int, u, entries(items.remove(at)));
        let items2 = items.remove(at);
        let origin2 = origin.remove(at);
        reveal(lined);
        self.lemma_basics(shape);
        self.lemma_ranks(shape);
        lemma_entries_remove(items, at);
        self.lemma_entry(shape, (items[at].0 as int, u));
        self.lemma_room(shape, u);
        assert forall|x: int| 0 <= x < shape.node_count() && x != u implies (next.visited(x)
            <==> self.visited(x)) && next.markers[x] == self.markers[x] && next.cost[x]
            == self.cost[x] by {}
        assert(next.visited(u));
        if self.count() > 0 {
            assert forall|k: int| 0 <= k < items2.len() implies next.fed(
                shape,
                (#[trigger] origin2[k]).0,
                origin2[k].1,
                (items2[k].0 as int, items2[k].1 as int),
            ) by {
                let j = unmoved(at, k);
                assert(origin2[k] == origin[j] && items2[k] == items[j]);
                assert(self.fed(
                    shape,
                    origin[j].0,
                    origin[j].1,
                    (items[j].0 as int, items[j].1 as int),
                ));
            }
            assert forall|k: int, l: int| 0 <= k < l < items2.len() implies met_before(
                next.markers,
                #[trigger] origin2[k],
                #[trigger] origin2[l],
            ) by {
                let jk = unmoved(at, k);
                let jl = unmoved(at, l);
                assert(origin2[k] == origin[jk] && origin2[l] == origin[jl]);
                assert(met_before(self.markers, origin[jk], origin[jl]));
                assert(self.fed(
                    shape,
                    origin[jk].0,
                    origin[jk].1,
                    (items[jk].0 as int, items[jk].1 as int),
                ));
                assert(self.fed(
                    shape,
                    origin[jl].0,
                    origin[jl].1,
                    (items[jl].0 as int, items[jl].1 as int),
                ));
            }
            assert forall|x: int, i: int|
                0 <= x < shape.node_count() && next.visited(x) && 0 <= i
                    < shape.adjacency[x].len() && (x != next.cur || i < next.done) && !next.visited(
                    #[trigger] end_of(shape, (x, i)),
                ) implies exists|k: int| 0 <= k < origin2.len() && #[trigger] origin2[k] == (
                x,
                i,
            ) by {
                assert(x != u);
                assert(self.visited(x));
                let y = end_of(shape, (x, i));
                assert(0 <= y < shape.node_count());
                assert(!self.visited(y));
                let j = choose|j: int| 0 <= j < origin.len() && #[trigger] origin[j] == (x, i);
                assert(self.fed(
                    shape,
                    origin[at].0,
                    origin[at].1,
                    (items[at].0 as int, items[at].1 as int),
                ));
                assert(j != at);
                assert(origin2[moved(at, j)] == (x, i));
            }
        } else {
            assert(items2.len() == 0);
        }
    }

    /// Following an edge of `cur` to a visited node keeps the line.
    pub proof fn lemma_lined_passed(
        self,
        shape: Shape,
        items: Seq<(u64, usize)>,
        origin: Seq<(int, int)>,
    )
        requires
            self.inv(shape),
            lined(self, shape, items, origin),
            self.done < shape.adjacency[self.cur].len(),
            self.visited(shape.targets[shape.adjacency[self.cur][self.done]] as int),
        ensures
            lined(self.passed(), shape, items, origin),
    {
        let next = self.passed();
        reveal(lined);
        self.lemma_basics(shape);
        self.lemma_ranks(shape);
        assert(self.count() > 0);
        assert forall|k: int| 0 <= k < items.len() implies next.fed(
            shape,
            (#[trigger] origin[k]).0,
            origin[k].1,
            (items[k].0 as int, items[k].1 as int),
        ) by {
            assert(self.fed(
                shape,
                origin[k].0,
                origin[k].1,
                (items[k].0 as int, items[k].1 as int),
            ));
        }
        assert forall|x: int, i: int|
            0 <= x < shape.node_count() && next.visited(x) && 0 <= i < shape.adjacency[x].len() && (
            x != next.cur || i < next.done) && !next.visited(
                #[trigger] end_of(shape, (x, i)),
            ) implies exists|k: int| 0 <= k < origin.len() && #[trigger] origin[k] == (x, i) by {
            assert(x != self.cur || i != self.done);
        }
    }

    /// Following an edge of the visited node `cur` to an unvisited node,
    /// and adding the item for it at the end, keeps the line.
    pub proof fn lemma_lined_pushed(
        self,
        shape: Shape,
        items: Seq<(u64, usize)>,
        origin: Seq<(int, int)>,
        item: (u64, usize),
    )
        requires
            self.inv(shape),
            lined(self, shape, items, origin),
            self.visited(self.cur),
            self.done < shape.adjacency[self.cur].len(),
            item.1 == shape.targets[shape.adjacency[self.cur][self.done]],
            item.0 == self.cost[self.cur] + shape.weights[shape.adjacency[self.cur][self.done]],
            !self.visited(item.1 as int),
        ensures
            lined(
                self.pushed(item.0 as int, item.1 as int),
                shape,
                items.push(item),
                origin.push((self.cur, self.done)),
            ),
    {
        let next = self.pushed(item.0 as int, item.1 as int);
        let items2 = items.push(item);
        let origin2 = origin.push((self.cur, self.done));
        reveal(lined);
        self.lemma_basics(shape);
        self.lemma_ranks(shape);
        assert(self.count() > 0);
        self.lemma_cur_is_last(shape);
        assert forall|k: int| 0 <= k < items2.len() implies next.fed(
            shape,
            (#[trigger] origin2[k]).0,
            origin2[k].1,
            (items2[k].0 as int, items2[k].1 as int),
        ) by {
            if k < items.len() {
                assert(origin2[k] == origin[k] && items2[k] == items[k]);
                assert(self.fed(
                    shape,
                    origin[k].0,
                    origin[k].1,
                    (items[k].0 as int, items[k].1 as int),
                ));
            }
        }
        assert forall|k: int, l: int| 0 <= k < l < items2.len() implies met_before(
            next.markers,
            #[trigger] origin2[k],
            #[trigger] origin2[l],
        ) by {
            assert(origin2[k] == origin[k]);
            assert(self.fed(
                shape,
                origin[k].0,
                origin[k].1,
                (items[k].0 as int, items[k].1 as int),
            ));
            if l < items.len() {
                assert(origin2[l] == origin[l]);
                assert(met_before(self.markers, origin[k], origin[l]));
            } else {
                let x = origin[k].0;
                assert(self.markers[x] <= self.markers[self.cur]);
                if self.markers[x] == self.markers[self.cur] {
                    assert(x == self.cur);
                }
            }
        }
        assert forall|x: int, i: int|
            0 <= x < shape.node_count() && next.visited(x) && 0 <= i < shape.adjacency[x].len() && (
            x != next.cur || i < next.done) && !next.visited(
                #[trigger] end_of(shape, (x, i)),
            ) implies exists|k: int| 0 <= k < origin2.len() && #[trigger] origin2[k] == (x, i) by {
            if x == self.cur && i == self.done {
                assert(origin2[origin.len() as int] == (x, i));
            } else {
                let k = choose|k: int| 0 <= k < origin.len() && #[trigger] origin[k] == (x, i);
                assert(origin2[k] == (x, i));
            }
        }
    }

    /// After the first visit, the item at place `at` was given by the edge
    /// that `origin` names for it.
    pub proof fn lemma_lined_fed(
        self,
        shape: Shape,
        items: Seq<(u64, usize)>,
        origin: Seq<(int, int)>,
        at: int,
    )
        requires
            lined(self, shape, items, origin),
            self.count() > 0,
            0 <= at < items.len(),
        ensures
            origin.len() == items.len(),
            self.fed(shape, origin[at].0, origin[at].1, (items[at].0 as int, items[at].1 as int)),
    {
        reveal(lined);
    }

    /// The edge of the last item is preferred to every open edge when the
    /// edge met last is to be followed.
    pub proof fn lemma_latest_preferred(
        self,
        shape: Shape,
        items: Seq<(u64, usize)>,
        origin: Seq<(int, int)>,
    )
        requires
            self.inv(shape),
            self.done == shape.adjacency[self.cur].len(),
            lined(self, shape, items, origin),
            items.len() > 0,
        ensures
            forall|x: int, i: int|
                0 <= x < shape.node_count() && self.visited(x) && 0 <= i < shape.adjacency[x].len()
                    && !self.visited(end_of(shape, (x, i))) ==> #[trigger] prefers(
                    shape,
                    self.markers,
                    self.cost,
                    Order::Latest,
                    origin.last(),
                    (x, i),
                ),
    {
        reveal(lined);
        let top = origin.len() - 1;
        assert forall|x: int, i: int|
            0 <= x < shape.node_count() && self.visited(x) && 0 <= i < shape.adjacency[x].len()
                && !self.visited(end_of(shape, (x, i))) implies #[trigger] prefers(
            shape,
            self.markers,
            self.cost,
            Order::Latest,
            origin.last(),
            (x, i),
        ) by {
            let k = choose|k: int| 0 <= k < origin.len() && #[trigger] origin[k] == (x, i);
            if k < top {
                assert(met_before(self.markers, origin[k], origin[top]));
            }
        }
    }

    /// The edge of the first item is preferred to every open edge when the
    /// edge met first is to be followed.
    pub proof fn lemma_earliest_preferred(
        self,
        shape: Shape,
        items: Seq<(u64, usize)>,
        origin: Seq<(int, int)>,
    )
        requires
            self.inv(shape),
            self.done == shape.adjacency[self.cur].len(),
            lined(self, shape, items, origin),
            items.len() > 0,
        ensures
            forall|x: int, i: int|
                0 <= x < shape.node_count() && self.visited(x) && 0 <= i < shape.adjacency[x].len()
                    && !self.visited(end_of(shape, (x, i))) ==> #[trigger] prefers(
                    shape,
                    self.markers,
                    self.cost,
                    Order::Earliest,
                    origin[0],
                    (x, i),
                ),
    {
        reveal(lined);
        assert forall|x: int, i: int|
            0 <= x < shape.node_count() && self.visited(x) && 0 <= i < shape.adjacency[x].len()
                && !self.visited(end_of(shape, (x, i))) implies #[trigger] prefers(
            shape,
            self.markers,
            self.cost,
            Order::Earliest,
            origin[0],
            (x, i),
        ) by {
            let k = choose|k: int| 0 <= k < origin.len() && #[trigger] origin[k] == (x, i);
            if k > 0 {
                assert(met_before(self.markers, origin[0], origin[k]));
            }
        }
    }
}

} // verus!
