//! Why a search that always takes the entry of least priority visits every
//! node at the cost of a cheapest walk to it, where the priority of an entry
//! is its cost plus a consistent estimate for its node.

use super::heap::{precedes, Entry};
use super::order::{cost_along, end_of, prefers, Order};
use super::paths::Shape;
use super::search::{
    cheapest, is_last, lemma_cost_of_a_walk, lemma_last_is_target, searched, settled, Search,
};
use vstd::multiset::Multiset;
use vstd::prelude::*;

verus! {

/// The entries `(cost, node)` that a heap of items `(priority, cost, node)`
/// holds.
pub open spec fn heap_entries(items: Multiset<Entry>) -> Set<(int, int)> {
    Set::new(
        |p: (int, int)|
            exists|e: Entry| #[trigger] items.count(e) > 0 && e.1 == p.0 && e.2 == p.1,
    )
}

/// The priority of every item is its cost plus the estimate for its node.
pub open spec fn keyed(items: Multiset<Entry>, h: Seq<u64>) -> bool {
    forall|e: Entry| #[trigger] items.count(e) > 0 ==> e.2 < h.len() && e.0 == e.1 + h[e.2 as int]
}

/// No walk from the source to a visited node costs less than the cost noted
/// for that node.
#[verifier::opaque]
pub open spec fn lower(shape: Shape, source: int, markers: Seq<u64>, cost: Seq<int>) -> bool {
    forall|u: int, steps: Seq<int>|
        0 <= u < shape.node_count() && markers[u] != 0 && #[trigger] shape.connects(
            source,
            steps,
            u,
        ) ==> cost[u] <= shape.cost(steps)
}

/// The sum of noted cost and estimate rises with the rank of the visited
/// nodes, and no entry of the frontier lies below it.
#[verifier::opaque]
pub open spec fn sorted(
    shape: Shape,
    markers: Seq<u64>,
    cost: Seq<int>,
    frontier: Set<(int, int)>,
    h: Seq<u64>,
) -> bool {
    &&& forall|u: int, v: int|
        0 <= u < shape.node_count() && 0 <= v < shape.node_count() && markers[u] != 0 && markers[u]
            < markers[v] ==> #[trigger] cost[u] + h[u] <= #[trigger] cost[v] + h[v]
    &&& forall|u: int, q: (int, int)|
        0 <= u < shape.node_count() && markers[u] != 0 && #[trigger] frontier.contains(q)
            ==> #[trigger] cost[u] + h[u] <= q.0 + h[q.1]
}

/// The nodes were visited in rising order of the sum of their distance from
/// `source` and the estimate `h`.
pub open spec fn in_order(shape: Shape, markers: Seq<u64>, source: int, h: Seq<u64>) -> bool {
    forall|u: int, v: int, du: int, dv: int|
        0 <= u < shape.node_count() && 0 <= v < shape.node_count() && markers[u] != 0 && markers[u]
            < markers[v] && #[trigger] shape.is_distance(source, u, du) && #[trigger] shape.is_distance(
            source,
            v,
            dv,
        ) ==> du + h[u] <= dv + h[v]
}

/// The estimate that is zero for every node.
pub open spec fn no_estimate(shape: Shape) -> Seq<u64> {
    Seq::new(shape.node_count() as nat, |u: int| 0u64)
}

/// Estimating zero everywhere is consistent.
pub proof fn lemma_no_estimate(shape: Shape)
    ensures
        shape.consistent(no_estimate(shape)),
{
}

/// Adding an item to the heap adds its entry.
pub proof fn lemma_heap_entries_insert(items: Multiset<Entry>, item: Entry)
    ensures
        heap_entries(items.insert(item)) == heap_entries(items).insert(
            (item.1 as int, item.2 as int),
        ),
{
    let more = items.insert(item);
    let own = (item.1 as int, item.2 as int);
    assert forall|p: (int, int)| heap_entries(more).contains(p) <==> heap_entries(items).insert(
        own,
    ).contains(p) by {
        if heap_entries(more).contains(p) {
            let e = choose|e: Entry| #[trigger] more.count(e) > 0 && e.1 == p.0 && e.2 == p.1;
            if e != item {
                assert(items.count(e) > 0);
            }
        }
        if heap_entries(items).contains(p) {
            let e = choose|e: Entry| #[trigger] items.count(e) > 0 && e.1 == p.0 && e.2 == p.1;
            assert(more.count(e) > 0);
        }
        if p == own {
            assert(more.count(item) > 0);
        }
    }
    assert(heap_entries(more) =~= heap_entries(items).insert(own));
}

/// Taking an item out of the heap removes no entry but, at most, its own.
pub proof fn lemma_heap_entries_remove(items: Multiset<Entry>, item: Entry)
    requires
        items.count(item) > 0,
    ensures
        heap_entries(items).contains((item.1 as int, item.2 as int)),
        heap_entries(items.remove(item)).subset_of(heap_entries(items)),
        heap_entries(items).subset_of(
            heap_entries(items.remove(item)).insert((item.1 as int, item.2 as int)),
        ),
{
    let rest = items.remove(item);
    let own = (item.1 as int, item.2 as int);
    assert forall|p: (int, int)| heap_entries(rest).contains(p) implies heap_entries(
        items,
    ).contains(p) by {
        let e = choose|e: Entry| #[trigger] rest.count(e) > 0 && e.1 == p.0 && e.2 == p.1;
        assert(items.count(e) > 0);
    }
    assert forall|p: (int, int)| heap_entries(items).contains(p) implies heap_entries(rest).insert(
        own,
    ).contains(p) by {
        let e = choose|e: Entry| #[trigger] items.count(e) > 0 && e.1 == p.0 && e.2 == p.1;
        if e != item {
            assert(rest.count(e) > 0);
        }
    }
}

/// A keyed heap stays keyed when an item of the right priority is added.
pub proof fn lemma_keyed_insert(items: Multiset<Entry>, h: Seq<u64>, item: Entry)
    requires
        keyed(items, h),
        item.2 < h.len(),
        item.0 == item.1 + h[item.2 as int],
    ensures
        keyed(items.insert(item), h),
{
    assert forall|e: Entry| #[trigger] items.insert(item).count(e) > 0 implies e.2 < h.len() && e.0
        == e.1 + h[e.2 as int] by {
        if e != item {
            assert(items.count(e) > 0);
        }
    }
}

/// A keyed heap stays keyed when an item is taken out.
pub proof fn lemma_keyed_remove(items: Multiset<Entry>, h: Seq<u64>, item: Entry)
    requires
        keyed(items, h),
        items.count(item) > 0,
    ensures
        keyed(items.remove(item), h),
        items.remove(item).len() == items.len() - 1,
{
    assert forall|e: Entry| #[trigger] items.remove(item).count(e) > 0 implies e.2 < h.len() && e.0
        == e.1 + h[e.2 as int] by {
        assert(items.count(e) > 0);
    }
}

/// The item that precedes all items of a keyed heap has the least sum of
/// cost and estimate among its entries.
pub proof fn lemma_least_entry(items: Multiset<Entry>, h: Seq<u64>, first: Entry)
    requires
        keyed(items, h),
        items.count(first) > 0,
        forall|y: Entry| items.count(y) > 0 ==> precedes(first, y),
    ensures
        forall|q: (int, int)| #[trigger]
            heap_entries(items).contains(q) ==> 0 <= q.1 < h.len() && first.1 + h[first.2 as int]
                <= q.0 + h[q.1],
{
    assert forall|q: (int, int)| #[trigger] heap_entries(items).contains(q) implies 0 <= q.1
        < h.len() && first.1 + h[first.2 as int] <= q.0 + h[q.1] by {
        let e = choose|e: Entry| #[trigger] items.count(e) > 0 && e.1 == q.0 && e.2 == q.1;
        assert(precedes(first, e));
    }
}

impl Search {
    /// On a walk that starts at a visited node and ends at an unvisited one,
    /// some step leads from a visited node to an unvisited one.
    pub proof fn lemma_crossing(self, shape: Shape, steps: Seq<int>, lo: int, hi: int) -> (i: int)
        requires
            0 <= lo < hi <= steps.len(),
            self.visited(shape.node_at(self.source, steps, lo)),
            !self.visited(shape.node_at(self.source, steps, hi)),
        ensures
            lo <= i < hi,
            self.visited(shape.node_at(self.source, steps, i)),
            !self.visited(shape.node_at(self.source, steps, i + 1)),
        decreases hi - lo,
    {
        if self.visited(shape.node_at(self.source, steps, hi - 1)) {
            hi - 1
        } else {
            self.lemma_crossing(shape, steps, lo, hi - 1)
        }
    }

    /// The entry with the least sum of cost and estimate, if it is for an
    /// unvisited node, has the cost of a cheapest walk to that node.
    pub proof fn lemma_least_is_cheapest(
        self,
        shape: Shape,
        h: Seq<u64>,
        p: (int, int),
        steps: Seq<int>,
    )
        requires
            self.inv(shape),
            self.done == shape.adjacency[self.cur].len(),
            shape.consistent(h),
            lower(shape, self.source, self.markers, self.cost),
            self.frontier.contains(p),
            !self.visited(p.1),
            forall|q: (int, int)| #[trigger]
                self.frontier.contains(q) ==> 0 <= q.1 < h.len() && p.0 + h[p.1] <= q.0 + h[q.1],
            shape.connects(self.source, steps, p.1),
        ensures
            p.0 <= shape.cost(steps),
    {
        let s = self.source;
        self.lemma_entry(shape, p);
        self.lemma_ranks(shape);
        self.lemma_basics(shape);
        shape.lemma_cost_nonnegative(steps);
        if self.count() > 0 {
            let len = steps.len() as int;
            let i = self.lemma_crossing(shape, steps, 0, len);
            let x = shape.node_at(s, steps, i);
            let e = steps[i];
            let y = shape.node_at(s, steps, i + 1);
            shape.lemma_walk_nodes(s, steps, i);
            shape.lemma_walk_nodes(s, steps, i + 1);
            assert(shape.leaves(e, x));
            let k = choose|k: int| 0 <= k < shape.adjacency[x].len() && shape.adjacency[x][k] == e;
            let q = (self.cost[x] + shape.weights[shape.adjacency[x][k]], y);
            assert(self.frontier.contains(q)) by {
                self.lemma_followed(shape, x, k);
            }
            assert(self.cost[x] <= shape.cost(steps.take(i))) by {
                reveal(lower);
                shape.lemma_walk_take(s, steps, i);
                assert(shape.connects(s, steps.take(i), x));
            }
            shape.lemma_cost_take(steps, i);
            shape.lemma_estimate_grows(s, steps, h, i + 1, len);
            assert(steps.take(len) =~= steps);
        }
    }

    /// Visiting the node of the entry with the least sum of cost and
    /// estimate keeps the noted costs lowest.
    pub proof fn lemma_visit_lowest(
        self,
        shape: Shape,
        h: Seq<u64>,
        p: (int, int),
        rest: Set<(int, int)>,
    )
        requires
            self.inv(shape),
            self.done == shape.adjacency[self.cur].len(),
            shape.consistent(h),
            lower(shape, self.source, self.markers, self.cost),
            self.frontier.contains(p),
            !self.visited(p.1),
            forall|q: (int, int)| #[trigger]
                self.frontier.contains(q) ==> 0 <= q.1 < h.len() && p.0 + h[p.1] <= q.0 + h[q.1],
        ensures
            lower(
                shape,
                self.source,
                self.visit(p.0, p.1, rest).markers,
                self.visit(p.0, p.1, rest).cost,
            ),
    {
        let next = self.visit(p.0, p.1, rest);
        self.lemma_entry(shape, p);
        self.lemma_basics(shape);
        assert forall|u: int, steps: Seq<int>|
            0 <= u < shape.node_count() && next.markers[u] != 0 && #[trigger] shape.connects(
                self.source,
                steps,
                u,
            ) implies next.cost[u] <= shape.cost(steps) by {
            if u == p.1 {
                self.lemma_least_is_cheapest(shape, h, p, steps);
            } else {
                reveal(lower);
                assert(self.markers[u] != 0);
            }
        }
        reveal(lower);
    }

    /// Before the first visit no cost is noted, so none is too high.
    pub proof fn lemma_initial_lowest(shape: Shape, source: int)
        ensures
            lower(
                shape,
                source,
                Search::initial(shape, source).markers,
                Search::initial(shape, source).cost,
            ),
    {
        reveal(lower);
    }

    /// Where the noted costs are lowest, the cost noted for the node
    /// visited last is that of a cheapest walk to it.
    pub proof fn lemma_cheapest(self, shape: Shape)
        requires
            self.inv(shape),
            self.count() > 0,
            lower(shape, self.source, self.markers, self.cost),
        ensures
            cheapest(shape, self.markers, self.source, self.cost[self.order.last()]),
    {
        self.lemma_ranks(shape);
        self.lemma_last(shape);
        let end = self.order.last();
        assert forall|last: int, steps: Seq<int>|
            is_last(shape, self.markers, last) && #[trigger] shape.connects(
                self.source,
                steps,
                last,
            ) implies self.cost[end] <= shape.cost(steps) by {
            assert(self.markers[end] <= self.markers[last]);
            assert(self.markers[last] <= self.markers[end]);
            assert(self.visited(last));
            assert(last == end);
            reveal(lower);
        }
    }

    /// The item that precedes all items of the heap, if it is for an
    /// unvisited node, was given by an edge that is preferred to every open
    /// edge when the least entry is to be taken.
    pub proof fn lemma_least_preferred(
        self,
        shape: Shape,
        h: Seq<u64>,
        items: Multiset<Entry>,
        first: Entry,
    ) -> (by: (int, int))
        requires
            self.inv(shape),
            self.done == shape.adjacency[self.cur].len(),
            self.count() > 0,
            self.frontier == heap_entries(items),
            keyed(items, h),
            items.count(first) > 0,
            forall|y: Entry| items.count(y) > 0 ==> precedes(first, y),
            !self.visited(first.2 as int),
        ensures
            self.fed(shape, by.0, by.1, (first.1 as int, first.2 as int)),
            forall|x: int, i: int|
                0 <= x < shape.node_count() && self.visited(x) && 0 <= i < shape.adjacency[x].len()
                    && !self.visited(end_of(shape, (x, i))) ==> #[trigger] prefers(
                    shape,
                    self.markers,
                    self.cost,
                    Order::Least(h),
                    by,
                    (x, i),
                ),
    {
        let p = (first.1 as int, first.2 as int);
        assert(heap_entries(items).contains(p));
        let by = self.lemma_origin(shape, p);
        assert forall|x: int, i: int|
            0 <= x < shape.node_count() && self.visited(x) && 0 <= i < shape.adjacency[x].len()
                && !self.visited(end_of(shape, (x, i))) implies #[trigger] prefers(
            shape,
            self.markers,
            self.cost,
            Order::Least(h),
            by,
            (x, i),
        ) by {
            self.lemma_followed(shape, x, i);
            let q = (cost_along(shape, self.cost, (x, i)), end_of(shape, (x, i)));
            assert(heap_entries(items).contains(q));
            let e = choose|e: Entry| #[trigger] items.count(e) > 0 && e.1 == q.0 && e.2 == q.1;
            assert(precedes(first, e));
        }
        by
    }

    /// Before the first visit nothing is out of order.
    pub proof fn lemma_initial_sorted(shape: Shape, source: int, h: Seq<u64>)
        ensures
            sorted(
                shape,
                Search::initial(shape, source).markers,
                Search::initial(shape, source).cost,
                Search::initial(shape, source).frontier,
                h,
            ),
    {
        reveal(sorted);
    }

    /// Taking an entry out of the frontier leaves the order as it was.
    pub proof fn lemma_dropped_sorted(self, shape: Shape, h: Seq<u64>, rest: Set<(int, int)>)
        requires
            sorted(shape, self.markers, self.cost, self.frontier, h),
            rest.subset_of(self.frontier),
        ensures
            sorted(shape, self.markers, self.cost, rest, h),
    {
        reveal(sorted);
        assert forall|u: int, q: (int, int)|
            0 <= u < shape.node_count() && self.markers[u] != 0 && #[trigger] rest.contains(q)
            implies #[trigger] self.cost[u] + h[u] <= q.0 + h[q.1] by {
            assert(self.frontier.contains(q));
        }
    }

    /// Visiting the node of the entry with the least sum of cost and
    /// estimate keeps the order.
    pub proof fn lemma_visit_sorted(
        self,
        shape: Shape,
        h: Seq<u64>,
        p: (int, int),
        rest: Set<(int, int)>,
    )
        requires
            self.inv(shape),
            sorted(shape, self.markers, self.cost, self.frontier, h),
            self.frontier.contains(p),
            !self.visited(p.1),
            rest.subset_of(self.frontier),
            forall|q: (int, int)| #[trigger]
                self.frontier.contains(q) ==> 0 <= q.1 < h.len() && p.0 + h[p.1] <= q.0 + h[q.1],
        ensures
            sorted(
                shape,
                self.visit(p.0, p.1, rest).markers,
                self.visit(p.0, p.1, rest).cost,
                rest,
                h,
            ),
    {
        let next = self.visit(p.0, p.1, rest);
        let n = shape.node_count();
        self.lemma_entry(shape, p);
        self.lemma_basics(shape);
        self.lemma_ranks(shape);
        self.lemma_room(shape, p.1);
        reveal(sorted);
        assert forall|u: int, v: int|
            0 <= u < n && 0 <= v < n && next.markers[u] != 0 && next.markers[u]
                < next.markers[v] implies #[trigger] next.cost[u] + h[u] <= #[trigger] next.cost[v]
            + h[v] by {
            assert(self.markers[v] <= self.count());
            assert(next.markers[v] <= self.count() + 1);
            assert(u != p.1);
            assert(self.markers[u] <= self.count());
            if v == p.1 {
                assert(self.cost[u] + h[u] <= p.0 + h[p.1]);
            } else {
                assert(self.cost[u] + h[u] <= self.cost[v] + h[v]);
            }
        }
        assert forall|u: int, q: (int, int)|
            0 <= u < n && next.markers[u] != 0 && #[trigger] rest.contains(q) implies 
            #[trigger] next.cost[u] + h[u] <= q.0 + h[q.1] by {
            assert(self.frontier.contains(q));
            if u != p.1 {
                assert(self.cost[u] + h[u] <= q.0 + h[q.1]);
            }
        }
    }

    /// Adding the entry for an edge of the node visited last keeps the
    /// order, where the estimate is consistent.
    pub proof fn lemma_pushed_sorted(self, shape: Shape, h: Seq<u64>, c: int, v: int)
        requires
            self.inv(shape),
            shape.consistent(h),
            sorted(shape, self.markers, self.cost, self.frontier, h),
            self.count() > 0,
            self.cur == self.order.last(),
            self.done < shape.adjacency[self.cur].len(),
            v == shape.targets[shape.adjacency[self.cur][self.done]],
            c == self.cost[self.cur] + shape.weights[shape.adjacency[self.cur][self.done]],
        ensures
            sorted(shape, self.markers, self.cost, self.frontier.insert((c, v)), h),
    {
        let n = shape.node_count();
        let top = self.cur;
        self.lemma_basics(shape);
        self.lemma_ranks(shape);
        self.lemma_last(shape);
        reveal(sorted);
        assert(h[top] <= shape.weights[shape.adjacency[top][self.done]] + h[v]);
        assert forall|u: int, q: (int, int)|
            0 <= u < n && self.markers[u] != 0 && #[trigger] self.frontier.insert((c, v)).contains(
                q,
            ) implies #[trigger] self.cost[u] + h[u] <= q.0 + h[q.1] by {
            if q == (c, v) {
                assert(self.markers[u] <= self.markers[top]);
                if u != top {
                    assert(self.visited(u));
                    assert(self.markers[u] != self.markers[top]);
                    assert(self.cost[u] + h[u] <= self.cost[top] + h[top]);
                }
            } else {
                assert(self.frontier.contains(q));
            }
        }
    }

    /// Where the noted costs are lowest, the cost noted for a visited node
    /// is its distance from the source.
    pub proof fn lemma_noted_distance(self, shape: Shape, u: int, d: int)
        requires
            self.inv(shape),
            lower(shape, self.source, self.markers, self.cost),
            0 <= u < shape.node_count(),
            self.visited(u),
            shape.is_distance(self.source, u, d),
        ensures
            d == self.cost[u],
    {
        let route = self.lemma_route(shape, u);
        let best = choose|steps: Seq<int>|
            #[trigger] shape.connects(self.source, steps, u) && shape.cost(steps) == d;
        reveal(lower);
    }

    /// Where the noted costs are lowest and in order, the nodes were visited
    /// in rising order of distance plus estimate.
    pub proof fn lemma_in_order(self, shape: Shape, h: Seq<u64>)
        requires
            self.inv(shape),
            lower(shape, self.source, self.markers, self.cost),
            sorted(shape, self.markers, self.cost, self.frontier, h),
        ensures
            in_order(shape, self.markers, self.source, h),
    {
        let n = shape.node_count();
        self.lemma_ranks(shape);
        assert forall|u: int, v: int, du: int, dv: int|
            0 <= u < n && 0 <= v < n && self.markers[u] != 0 && self.markers[u] < self.markers[v]
                && #[trigger] shape.is_distance(self.source, u, du) && #[trigger] shape.is_distance(
                self.source,
                v,
                dv,
            ) implies du + h[u] <= dv + h[v] by {
            self.lemma_noted_distance(shape, u, du);
            self.lemma_noted_distance(shape, v, dv);
            reveal(sorted);
            assert(self.cost[u] + h[u] <= self.cost[v] + h[v]);
        }
    }
}

/// The cost that a cheapest-first search returns for a target that can be
/// reached is the least cost of all walks from the source to the target. A
/// walk that passes no node twice has that cost, so it is the least cost of
/// those walks too.
pub proof fn lemma_least_cost(
    shape: Shape,
    markers: Seq<u64>,
    source: int,
    target: int,
    cost: int,
    path: Seq<usize>,
) -> (steps: Seq<int>)
    requires
        0 <= target < shape.node_count(),
        searched(shape, markers, source, target, cost, path),
        cheapest(shape, markers, source, cost),
        shape.reachable(source, target),
    ensures
        shape.is_distance(source, target, cost),
        shape.connects(source, steps, target),
        shape.is_simple(source, steps),
        shape.cost(steps) == cost,
{
    let last = choose|last: int| #[trigger]
        is_last(shape, markers, last) && settled(shape, markers, source, cost, last);
    lemma_last_is_target(shape, markers, source, target, last);
    let steps = lemma_cost_of_a_walk(shape, markers, source, target, cost, path);
    steps
}

/// The cost that a cheapest-first search returns is the distance of the
/// node that it visited last.
pub proof fn lemma_cost_is_distance(
    shape: Shape,
    markers: Seq<u64>,
    source: int,
    target: int,
    cost: int,
    path: Seq<usize>,
) -> (last: int)
    requires
        searched(shape, markers, source, target, cost, path),
        cheapest(shape, markers, source, cost),
    ensures
        is_last(shape, markers, last),
        shape.is_distance(source, last, cost),
{
    let last = choose|last: int| #[trigger]
        is_last(shape, markers, last) && settled(shape, markers, source, cost, last);
    let steps = choose|steps: Seq<int>|
        #[trigger] shape.connects(source, steps, last) && shape.cost(steps) == cost;
    last
}

} // verus!
