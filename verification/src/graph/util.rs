//! The four searches: depth-first, breadth-first, uniform-cost and heuristic.

use super::heap::MinHeap;
use super::line::lined;
use super::order::{followed, scheduled, Order};
use super::search::{
    cheapest, entries, is_trail, lemma_entries_push, lemma_entries_remove, searched, Search,
};
use super::shortest::{
    heap_entries, in_order, keyed, lemma_heap_entries_insert, lemma_heap_entries_remove,
    lemma_keyed_insert, lemma_keyed_remove, lemma_least_entry, lemma_no_estimate, lower,
    no_estimate, sorted,
};
use super::Graph;
use std::collections::{HashMap, VecDeque};
use vstd::multiset::Multiset;
use vstd::prelude::*;

verus! {

broadcast use vstd::std_specs::hash::group_hash_axioms;

impl<T: PartialEq> Graph<T> {
    /// Depth-first search from `source` for `target`.
    ///
    /// Unmarks all nodes, then visits nodes from a stack of entries
    /// `(cost, node)` until it has visited the target or the stack is empty.
    /// A visit gives the node the next rank as its marker and adds an entry
    /// for every edge of the node that leads to an unvisited node; an edge
    /// from a node to itself adds none. Returns the cost of the entry by
    /// which the last node was visited, and the path that leads from the
    /// target back along the nodes that last added an entry for their
    /// successor: it starts at the source if the target was reached, and is
    /// the target alone if not. The cost need not be the least.
    ///
    /// The costs of all walks from the source that pass no node twice must
    /// fit in a `u64`; `costs_bounded` tells whether that is known.
    pub fn dfs(&mut self, source: usize, target: usize) -> (r: (u64, VecDeque<usize>))
        requires
            old(self).wf(),
            source < old(self).node_count(),
            target < old(self).node_count(),
            old(self).shape().costs_fit(source as int),
        ensures
            final(self).wf(),
            final(self).same_structure(old(self)),
            searched(
                old(self).shape(),
                final(self).markers(),
                source as int,
                target as int,
                r.0 as int,
                r.1@,
            ),
            followed(
                old(self).shape(),
                final(self).markers(),
                source as int,
                Order::Latest,
                r.0 as int,
            ),
    {
        self.unmark();
        let ghost shape = self.shape();
        let mut stack: Vec<(u64, usize)> = Vec::new();
        let mut map: HashMap<usize, usize> = HashMap::new();
        let mut visits: u64 = 0;
        let mut dist: u64 = 0;
        stack.push((dist, source));
        let ghost mut st = Search::initial(shape, source as int);
        let ghost mut via = Seq::new(shape.node_count() as nat, |u: int| (0int, 0int));
        let ghost mut origin = seq![(0int, 0int)];
        proof {
            self.lemma_shape_wf();
            Search::lemma_initial(shape, source as int);
            assert(st.markers =~= self.markers());
            lemma_entries_push(Seq::empty(), (dist, source));
            assert(st.frontier =~= entries(stack@));
            assert(st.parent =~= map@);
            Search::lemma_initial_scheduled(shape, source as int, Order::Latest);
            Search::lemma_lined_initial(shape, source);
            assert(stack@ =~= seq![(0u64, source)]);
        }
        loop
            invariant_except_break
                !st.visited(target as int),
            invariant
                self.wf(),
                self.same_structure(old(self)),
                self.shape() == shape,
                shape.costs_fit(source as int),
                target < shape.node_count(),
                st.inv(shape),
                st.source == source,
                st.markers == self.markers(),
                st.frontier == entries(stack@),
                st.parent == map@,
                st.count() == visits,
                st.done == shape.adjacency[st.cur].len(),
                lined(st, shape, stack@, origin),
                scheduled(shape, st.markers, source as int, Order::Latest, st.cost, via),
                visits > 0 ==> dist == st.cost[st.order.last()],
            ensures
                st.visited(target as int) ==> st.order.last() == target,
                !st.visited(target as int) ==> stack@.len() == 0,
            decreases shape.node_count() - visits, stack.len(),
        {
            let ghost before = stack@;
            match stack.pop() {
                None => {
                    break ;
                },
                Some((dist_u, u)) => {
                    proof {
                        lemma_entries_remove(before, before.len() - 1);
                        assert(before.remove(before.len() - 1) =~= stack@);
                        st.lemma_entry(shape, (dist_u as int, u as int));
                    }
                    if self.marker(u) != 0 {
                        proof {
                            st.lemma_lined_dropped(shape, before, origin, before.len() - 1);
                            origin = origin.remove(before.len() - 1);
                            st.lemma_dropped(shape, (dist_u as int, u as int), entries(stack@));
                            st = st.dropped(entries(stack@));
                        }
                    } else {
                        proof {
                            st.lemma_basics(shape);
                            let by = origin.last();
                            if visits > 0 {
                                st.lemma_lined_fed(shape, before, origin, before.len() - 1);
                                st.lemma_latest_preferred(shape, before, origin);
                            }
                            st.lemma_visit_scheduled(
                                shape,
                                Order::Latest,
                                via,
                                (dist_u as int, u as int),
                                entries(stack@),
                                by,
                            );
                            st.lemma_lined_visit(shape, before, origin, before.len() - 1);
                            via = via.update(u as int, by);
                            origin = origin.remove(before.len() - 1);
                            st.lemma_visit(shape, (dist_u as int, u as int), entries(stack@));
                            st = st.visit(dist_u as int, u as int, entries(stack@));
                        }
                        visits += 1;
                        self.mark(u, visits);
                        let mut it = self.adj_list(u);
                        loop
                            invariant
                                self.wf(),
                                self.shape() == shape,
                                shape.costs_fit(source as int),
                                it.wf(),
                                it.graph() == *self,
                                it.remaining() == shape.adjacency[u as int].skip(st.done),
                                st.inv(shape),
                                st.source == source,
                                st.markers == self.markers(),
                                st.frontier == entries(stack@),
                                st.parent == map@,
                                lined(st, shape, stack@, origin),
                                scheduled(
                                    shape,
                                    st.markers,
                                    source as int,
                                    Order::Latest,
                                    st.cost,
                                    via,
                                ),
                                st.count() == visits,
                                visits > 0,
                                st.cur == u,
                                st.visited(u as int),
                                st.cost[u as int] == dist_u,
                                st.order.last() == u,
                                0 <= st.done <= shape.adjacency[u as int].len(),
                            ensures
                                st.done == shape.adjacency[u as int].len(),
                            decreases shape.adjacency[u as int].len() - st.done,
                        {
                            match it.next() {
                                None => {
                                    break ;
                                },
                                Some((e, v)) => {
                                    if self.marker(v) == 0 {
                                        proof {
                                            st.lemma_entry_fits(shape);
                                        }
                                        let dist_v = dist_u + self.weight(e);
                                        proof {
                                            lemma_entries_push(stack@, (dist_v, v));
                                            st.lemma_lined_pushed(
                                                shape,
                                                stack@,
                                                origin,
                                                (dist_v, v),
                                            );
                                            origin = origin.push((st.cur, st.done));
                                            st.lemma_pushed(shape, dist_v as int, v as int);
                                            st = st.pushed(dist_v as int, v as int);
                                        }
                                        stack.push((dist_v, v));
                                        map.insert(v, u);
                                    } else {
                                        proof {
                                            st.lemma_lined_passed(shape, stack@, origin);
                                            st.lemma_passed(shape);
                                            st = st.passed();
                                        }
                                    }
                                },
                            }
                        }
                        dist = dist_u;
                        if u == target {
                            break ;
                        }
                    }
                },
            }
        }
        proof {
            st.lemma_parents_descend(shape);
        }
        let path = Self::parse_path(source, target, map, Ghost(|v: usize| st.rank(v)));
        proof {
            st.lemma_finished(shape, target, dist as int, path@);
            st.lemma_explored(shape, target as int);
            st.lemma_followed_schedule(shape, Order::Latest, via);
        }
        (dist, path)
    }

    /// Breadth-first search from `source` for `target`.
    ///
    /// As `dfs`, with a queue in place of the stack: of the edges that lead
    /// to an unvisited node it follows the one that it met first. The cost
    /// returned is that of the first entry added for the last node, and need
    /// not be the least nor the cost of the path returned.
    pub fn bfs(&mut self, source: usize, target: usize) -> (r: (u64, VecDeque<usize>))
        requires
            old(self).wf(),
            source < old(self).node_count(),
            target < old(self).node_count(),
            old(self).shape().costs_fit(source as int),
        ensures
            final(self).wf(),
            final(self).same_structure(old(self)),
            searched(
                old(self).shape(),
                final(self).markers(),
                source as int,
                target as int,
                r.0 as int,
                r.1@,
            ),
            followed(
                old(self).shape(),
                final(self).markers(),
                source as int,
                Order::Earliest,
                r.0 as int,
            ),
    {
        self.unmark();
        let ghost shape = self.shape();
        let mut queue: VecDeque<(u64, usize)> = VecDeque::new();
        let mut map: HashMap<usize, usize> = HashMap::new();
        let mut visits: u64 = 0;
        let mut dist: u64 = 0;
        queue.push_back((dist, source));
        let ghost mut st = Search::initial(shape, source as int);
        let ghost mut via = Seq::new(shape.node_count() as nat, |u: int| (0int, 0int));
        let ghost mut origin = seq![(0int, 0int)];
        proof {
            self.lemma_shape_wf();
            Search::lemma_initial(shape, source as int);
            assert(st.markers =~= self.markers());
            lemma_entries_push(Seq::empty(), (dist, source));
            assert(st.frontier =~= entries(queue@));
            assert(st.parent =~= map@);
            Search::lemma_initial_scheduled(shape, source as int, Order::Earliest);
            Search::lemma_lined_initial(shape, source);
            assert(queue@ =~= seq![(0u64, source)]);
        }
        loop
            invariant_except_break
                !st.visited(target as int),
            invariant
                self.wf(),
                self.same_structure(old(self)),
                self.shape() == shape,
                shape.costs_fit(source as int),
                target < shape.node_count(),
                st.inv(shape),
                st.source == source,
                st.markers == self.markers(),
                st.frontier == entries(queue@),
                st.parent == map@,
                st.count() == visits,
                st.done == shape.adjacency[st.cur].len(),
                lined(st, shape, queue@, origin),
                scheduled(shape, st.markers, source as int, Order::Earliest, st.cost, via),
                visits > 0 ==> dist == st.cost[st.order.last()],
            ensures
                st.visited(target as int) ==> st.order.last() == target,
                !st.visited(target as int) ==> queue@.len() == 0,
            decreases shape.node_count() - visits, queue.len(),
        {
            let ghost before = queue@;
            match queue.pop_front() {
                None => {
                    break ;
                },
                Some((dist_u, u)) => {
                    proof {
                        lemma_entries_remove(before, 0);
                        assert(before.remove(0) =~= queue@);
                        st.lemma_entry(shape, (dist_u as int, u as int));
                    }
                    if self.marker(u) != 0 {
                        proof {
                            st.lemma_lined_dropped(shape, before, origin, 0);
                            origin = origin.remove(0);
                            st.lemma_dropped(shape, (dist_u as int, u as int), entries(queue@));
                            st = st.dropped(entries(queue@));
                        }
                    } else {
                        proof {
                            st.lemma_basics(shape);
                            let by = origin[0];
                            if visits > 0 {
                                st.lemma_lined_fed(shape, before, origin, 0);
                                st.lemma_earliest_preferred(shape, before, origin);
                            }
                            st.lemma_visit_scheduled(
                                shape,
                                Order::Earliest,
                                via,
                                (dist_u as int, u as int),
                                entries(queue@),
                                by,
                            );
                            st.lemma_lined_visit(shape, before, origin, 0);
                            via = via.update(u as int, by);
                            origin = origin.remove(0);
                            st.lemma_visit(shape, (dist_u as int, u as int), entries(queue@));
                            st = st.visit(dist_u as int, u as int, entries(queue@));
                        }
                        visits += 1;
                        self.mark(u, visits);
                        let mut it = self.adj_list(u);
                        loop
                            invariant
                                self.wf(),
                                self.shape() == shape,
                                shape.costs_fit(source as int),
                                it.wf(),
                                it.graph() == *self,
                                it.remaining() == shape.adjacency[u as int].skip(st.done),
                                st.inv(shape),
                                st.source == source,
                                st.markers == self.markers(),
                                st.frontier == entries(queue@),
                                st.parent == map@,
                                lined(st, shape, queue@, origin),
                                scheduled(
                                    shape,
                                    st.markers,
                                    source as int,
                                    Order::Earliest,
                                    st.cost,
                                    via,
                                ),
                                st.count() == visits,
                                visits > 0,
                                st.cur == u,
                                st.visited(u as int),
                                st.cost[u as int] == dist_u,
                                st.order.last() == u,
                                0 <= st.done <= shape.adjacency[u as int].len(),
                            ensures
                                st.done == shape.adjacency[u as int].len(),
                            decreases shape.adjacency[u as int].len() - st.done,
                        {
                            match it.next() {
                                None => {
                                    break ;
                                },
                                Some((e, v)) => {
                                    if self.marker(v) == 0 {
                                        proof {
                                            st.lemma_entry_fits(shape);
                                        }
                                        let dist_v = dist_u + self.weight(e);
                                        proof {
                                            lemma_entries_push(queue@, (dist_v, v));
                                            st.lemma_lined_pushed(
                                                shape,
                                                queue@,
                                                origin,
                                                (dist_v, v),
                                            );
                                            origin = origin.push((st.cur, st.done));
                                            st.lemma_pushed(shape, dist_v as int, v as int);
                                            st = st.pushed(dist_v as int, v as int);
                                        }
                                        queue.push_back((dist_v, v));
                                        map.insert(v, u);
                                    } else {
                                        proof {
                                            st.lemma_lined_passed(shape, queue@, origin);
                                            st.lemma_passed(shape);
                                            st = st.passed();
                                        }
                                    }
                                },
                            }
                        }
                        dist = dist_u;
                        if u == target {
                            break ;
                        }
                    }
                },
            }
        }
        proof {
            st.lemma_parents_descend(shape);
        }
        let path = Self::parse_path(source, target, map, Ghost(|v: usize| st.rank(v)));
        proof {
            st.lemma_finished(shape, target, dist as int, path@);
            st.lemma_explored(shape, target as int);
            st.lemma_followed_schedule(shape, Order::Earliest, via);
        }
        (dist, path)
    }

    /// Single-source shortest paths on a graph with non-negative weights:
    /// uniform-cost search from `source` for `target`.
    ///
    /// As `dfs`, with a heap in place of the stack: it takes the entry of
    /// least cost first and, among entries of one cost, the one for the
    /// highest node. Nodes are visited in rising order of their distance from
    /// the source, and the cost returned is the distance of the node visited
    /// last: of the target, if it can be reached. The path returned follows
    /// the nodes that last added an entry and need not be a cheapest one.
    pub fn dijsktra(&mut self, source: usize, target: usize) -> (r: (u64, VecDeque<usize>))
        requires
            old(self).wf(),
            source < old(self).node_count(),
            target < old(self).node_count(),
            old(self).shape().costs_fit(source as int),
        ensures
            final(self).wf(),
            final(self).same_structure(old(self)),
            searched(
                old(self).shape(),
                final(self).markers(),
                source as int,
                target as int,
                r.0 as int,
                r.1@,
            ),
            followed(
                old(self).shape(),
                final(self).markers(),
                source as int,
                Order::Least(no_estimate(old(self).shape())),
                r.0 as int,
            ),
            cheapest(old(self).shape(), final(self).markers(), source as int, r.0 as int),
            in_order(
                old(self).shape(),
                final(self).markers(),
                source as int,
                no_estimate(old(self).shape()),
            ),
    {
        self.unmark();
        let ghost shape = self.shape();
        let mut heap = MinHeap::new();
        let ghost h = no_estimate(shape);
        let mut map: HashMap<usize, usize> = HashMap::new();
        let mut visits: u64 = 0;
        let mut dist: u64 = 0;
        heap.push((0, 0, source));
        let ghost mut st = Search::initial(shape, source as int);
        let ghost mut via = Seq::new(shape.node_count() as nat, |u: int| (0int, 0int));
        proof {
            self.lemma_shape_wf();
            Search::lemma_initial(shape, source as int);
            assert(st.markers =~= self.markers());
            lemma_heap_entries_insert(Multiset::empty(), (0, 0, source));
            assert(st.frontier =~= heap_entries(heap@));
            lemma_no_estimate(shape);
            Search::lemma_initial_scheduled(shape, source as int, Order::Least(h));
            Search::lemma_initial_lowest(shape, source as int);
            Search::lemma_initial_sorted(shape, source as int, h);
            assert(st.parent =~= map@);
        }
        loop
            invariant_except_break
                !st.visited(target as int),
            invariant
                self.wf(),
                self.same_structure(old(self)),
                self.shape() == shape,
                shape.costs_fit(source as int),
                target < shape.node_count(),
                st.inv(shape),
                st.source == source,
                st.markers == self.markers(),
                st.frontier == heap_entries(heap@),
                st.parent == map@,
                st.count() == visits,
                st.done == shape.adjacency[st.cur].len(),
                heap.wf(),
                h == no_estimate(shape),
                shape.consistent(h),
                keyed(heap@, h),
                scheduled(shape, st.markers, source as int, Order::Least(h), st.cost, via),
                lower(shape, source as int, st.markers, st.cost),
                sorted(shape, st.markers, st.cost, st.frontier, h),
                visits > 0 ==> dist == st.cost[st.order.last()],
            ensures
                st.visited(target as int) ==> st.order.last() == target,
                !st.visited(target as int) ==> heap@.len() == 0,
            decreases shape.node_count() - visits, heap@.len(),
        {
            let ghost before = heap@;
            match heap.pop() {
                None => {
                    break ;
                },
                Some((key_u, dist_u, u)) => {
                    proof {
                        lemma_heap_entries_remove(before, (key_u, dist_u, u));
                        lemma_least_entry(before, h, (key_u, dist_u, u));
                        st.lemma_entry(shape, (dist_u as int, u as int));
                        lemma_keyed_remove(before, h, (key_u, dist_u, u));
                    }
                    if self.marker(u) != 0 {
                        proof {
                            st.lemma_dropped(
                                shape,
                                (dist_u as int, u as int),
                                heap_entries(heap@),
                            );
                            st.lemma_dropped_sorted(shape, h, heap_entries(heap@));
                            st = st.dropped(heap_entries(heap@));
                        }
                    } else {
                        proof {
                            st.lemma_basics(shape);
                            let by = if visits > 0 {
                                st.lemma_least_preferred(shape, h, before, (key_u, dist_u, u))
                            } else {
                                (0int, 0int)
                            };
                            st.lemma_visit_scheduled(
                                shape,
                                Order::Least(h),
                                via,
                                (dist_u as int, u as int),
                                heap_entries(heap@),
                                by,
                            );
                            via = via.update(u as int, by);
                            st.lemma_visit(shape, (dist_u as int, u as int), heap_entries(heap@));
                            st.lemma_visit_lowest(
                                shape,
                                h,
                                (dist_u as int, u as int),
                                heap_entries(heap@),
                            );
                            st.lemma_visit_sorted(
                                shape,
                                h,
                                (dist_u as int, u as int),
                                heap_entries(heap@),
                            );
                            st = st.visit(dist_u as int, u as int, heap_entries(heap@));
                        }
                        visits += 1;
                        self.mark(u, visits);
                        let mut it = self.adj_list(u);
                        loop
                            invariant
                                self.wf(),
                                self.shape() == shape,
                                shape.costs_fit(source as int),
                                it.wf(),
                                it.graph() == *self,
                                it.remaining() == shape.adjacency[u as int].skip(st.done),
                                st.inv(shape),
                                st.source == source,
                                st.markers == self.markers(),
                                st.frontier == heap_entries(heap@),
                                st.parent == map@,
                                st.count() == visits,
                                visits > 0,
                                st.cur == u,
                                heap.wf(),
                                h == no_estimate(shape),
                                keyed(heap@, h),
                                scheduled(
                                    shape,
                                    st.markers,
                                    source as int,
                                    Order::Least(h),
                                    st.cost,
                                    via,
                                ),
                                shape.consistent(h),
                                lower(shape, source as int, st.markers, st.cost),
                                sorted(shape, st.markers, st.cost, st.frontier, h),
                                st.visited(u as int),
                                st.cost[u as int] == dist_u,
                                st.order.last() == u,
                                0 <= st.done <= shape.adjacency[u as int].len(),
                            ensures
                                st.done == shape.adjacency[u as int].len(),
                            decreases shape.adjacency[u as int].len() - st.done,
                        {
                            match it.next() {
                                None => {
                                    break ;
                                },
                                Some((e, v)) => {
                                    if self.marker(v) == 0 {
                                        proof {
                                            st.lemma_entry_fits(shape);
                                        }
                                        let dist_v = dist_u + self.weight(e);
                                        proof {
                                            lemma_heap_entries_insert(heap@, (dist_v, dist_v, v));
                                            lemma_keyed_insert(heap@, h, (dist_v, dist_v, v));
                                            st.lemma_pushed_sorted(
                                                shape,
                                                h,
                                                dist_v as int,
                                                v as int,
                                            );
                                            st.lemma_pushed(shape, dist_v as int, v as int);
                                            st = st.pushed(dist_v as int, v as int);
                                        }
                                        heap.push((dist_v, dist_v, v));
                                        map.insert(v, u);
                                    } else {
                                        proof {
                                            st.lemma_passed(shape);
                                            st = st.passed();
                                        }
                                    }
                                },
                            }
                        }
                        dist = dist_u;
                        if u == target {
                            break ;
                        }
                    }
                },
            }
        }
        proof {
            st.lemma_parents_descend(shape);
        }
        let path = Self::parse_path(source, target, map, Ghost(|v: usize| st.rank(v)));
        proof {
            st.lemma_finished(shape, target, dist as int, path@);
            st.lemma_explored(shape, target as int);
            st.lemma_followed_schedule(shape, Order::Least(h), via);
            st.lemma_cheapest(shape);
            st.lemma_in_order(shape, h);
        }
        (dist, path)
    }

    /// Same as dijsktra but with heuristics: `heu` holds, for every node, an
    /// estimate of what it costs to get from there to the target.
    ///
    /// The heap gives out the entry with the least sum of cost and estimate
    /// first; among entries of one sum, the one of highest cost; among these,
    /// the one for the highest node. Where no estimate drops by more than an
    /// edge's weight along that edge, the cost returned is the distance of
    /// the node visited last; nothing checks that, and with other estimates
    /// the cost returned may be higher.
    ///
    /// The costs of all walks from the source that pass no node twice, each
    /// with the estimate added for the node where it ends, must fit in a
    /// `u64`; `estimates_bounded` tells whether that is known.
    pub fn astar(&mut self, source: usize, target: usize, heu: &Vec<u64>) -> (r: (
        u64,
        VecDeque<usize>,
    ))
        requires
            old(self).wf(),
            source < old(self).node_count(),
            target < old(self).node_count(),
            heu@.len() >= old(self).node_count(),
            old(self).shape().estimates_fit(source as int, heu@),
        ensures
            final(self).wf(),
            final(self).same_structure(old(self)),
            searched(
                old(self).shape(),
                final(self).markers(),
                source as int,
                target as int,
                r.0 as int,
                r.1@,
            ),
            followed(
                old(self).shape(),
                final(self).markers(),
                source as int,
                Order::Least(heu@),
                r.0 as int,
            ),
            old(self).shape().consistent(heu@) ==> cheapest(
                old(self).shape(),
                final(self).markers(),
                source as int,
                r.0 as int,
            ) && in_order(old(self).shape(), final(self).markers(), source as int, heu@),
    {
        self.unmark();
        let ghost shape = self.shape();
        let mut heap = MinHeap::new();
        let ghost h = heu@;
        let cost_h = heu[source];
        let mut map: HashMap<usize, usize> = HashMap::new();
        let mut visits: u64 = 0;
        let mut dist: u64 = 0;
        heap.push((cost_h, dist, source));
        let ghost mut st = Search::initial(shape, source as int);
        let ghost mut via = Seq::new(shape.node_count() as nat, |u: int| (0int, 0int));
        proof {
            self.lemma_shape_wf();
            Search::lemma_initial(shape, source as int);
            assert(st.markers =~= self.markers());
            lemma_heap_entries_insert(Multiset::empty(), (cost_h, dist, source));
            assert(st.frontier =~= heap_entries(heap@));
            lemma_keyed_insert(Multiset::empty(), h, (cost_h, dist, source));
            Search::lemma_initial_scheduled(shape, source as int, Order::Least(h));
            Search::lemma_initial_lowest(shape, source as int);
            Search::lemma_initial_sorted(shape, source as int, h);
            assert(st.parent =~= map@);
        }
        loop
            invariant_except_break
                !st.visited(target as int),
            invariant
                self.wf(),
                self.same_structure(old(self)),
                self.shape() == shape,
                target < shape.node_count(),
                st.inv(shape),
                st.source == source,
                st.markers == self.markers(),
                st.frontier == heap_entries(heap@),
                st.parent == map@,
                st.count() == visits,
                st.done == shape.adjacency[st.cur].len(),
                heap.wf(),
                h == heu@,
                h.len() >= shape.node_count(),
                shape.estimates_fit(source as int, h),
                keyed(heap@, h),
                scheduled(shape, st.markers, source as int, Order::Least(h), st.cost, via),
                shape.consistent(h) ==> lower(shape, source as int, st.markers, st.cost),
                shape.consistent(h) ==> sorted(shape, st.markers, st.cost, st.frontier, h),
                visits > 0 ==> dist == st.cost[st.order.last()],
            ensures
                st.visited(target as int) ==> st.order.last() == target,
                !st.visited(target as int) ==> heap@.len() == 0,
            decreases shape.node_count() - visits, heap@.len(),
        {
            let ghost before = heap@;
            match heap.pop() {
                None => {
                    break ;
                },
                Some((key_u, dist_u, u)) => {
                    proof {
                        lemma_heap_entries_remove(before, (key_u, dist_u, u));
                        lemma_least_entry(before, h, (key_u, dist_u, u));
                        st.lemma_entry(shape, (dist_u as int, u as int));
                        lemma_keyed_remove(before, h, (key_u, dist_u, u));
                    }
                    if self.marker(u) != 0 {
                        proof {
                            st.lemma_dropped(
                                shape,
                                (dist_u as int, u as int),
                                heap_entries(heap@),
                            );
                            if shape.consistent(h) {
                                st.lemma_dropped_sorted(shape, h, heap_entries(heap@));
                            }
                            st = st.dropped(heap_entries(heap@));
                        }
                    } else {
                        proof {
                            st.lemma_basics(shape);
                            let by = if visits > 0 {
                                st.lemma_least_preferred(shape, h, before, (key_u, dist_u, u))
                            } else {
                                (0int, 0int)
                            };
                            st.lemma_visit_scheduled(
                                shape,
                                Order::Least(h),
                                via,
                                (dist_u as int, u as int),
                                heap_entries(heap@),
                                by,
                            );
                            via = via.update(u as int, by);
                            st.lemma_visit(shape, (dist_u as int, u as int), heap_entries(heap@));
                            if shape.consistent(h) {
                                st.lemma_visit_lowest(
                                    shape,
                                    h,
                                    (dist_u as int, u as int),
                                    heap_entries(heap@),
                                );
                                st.lemma_visit_sorted(
                                    shape,
                                    h,
                                    (dist_u as int, u as int),
                                    heap_entries(heap@),
                                );
                            }
                            st = st.visit(dist_u as int, u as int, heap_entries(heap@));
                        }
                        visits += 1;
                        self.mark(u, visits);
                        let mut it = self.adj_list(u);
                        loop
                            invariant
                                self.wf(),
                                self.shape() == shape,
                                                it.wf(),
                                it.graph() == *self,
                                it.remaining() == shape.adjacency[u as int].skip(st.done),
                                st.inv(shape),
                                st.source == source,
                                st.markers == self.markers(),
                                st.frontier == heap_entries(heap@),
                                st.parent == map@,
                                st.count() == visits,
                                visits > 0,
                                st.cur == u,
                                heap.wf(),
                                h == heu@,
                                h.len() >= shape.node_count(),
                                shape.estimates_fit(source as int, h),
                                keyed(heap@, h),
                                scheduled(
                                    shape,
                                    st.markers,
                                    source as int,
                                    Order::Least(h),
                                    st.cost,
                                    via,
                                ),
                                shape.consistent(h) ==> lower(
                                    shape,
                                    source as int,
                                    st.markers,
                                    st.cost,
                                ),
                                shape.consistent(h) ==> sorted(
                                    shape,
                                    st.markers,
                                    st.cost,
                                    st.frontier,
                                    h,
                                ),
                                st.visited(u as int),
                                st.cost[u as int] == dist_u,
                                st.order.last() == u,
                                0 <= st.done <= shape.adjacency[u as int].len(),
                            ensures
                                st.done == shape.adjacency[u as int].len(),
                            decreases shape.adjacency[u as int].len() - st.done,
                        {
                            match it.next() {
                                None => {
                                    break ;
                                },
                                Some((e, v)) => {
                                    if self.marker(v) == 0 {
                                        proof {
                                            st.lemma_estimate_fits(shape, h);
                                        }
                                        let dist_v = dist_u + self.weight(e);  // g(n)
                                        let cost_h = dist_v + heu[v];  // f(n) = g(n) + h(n)
                                        proof {
                                            lemma_heap_entries_insert(heap@, (cost_h, dist_v, v));
                                            lemma_keyed_insert(heap@, h, (cost_h, dist_v, v));
                                            if shape.consistent(h) {
                                                st.lemma_pushed_sorted(
                                                    shape,
                                                    h,
                                                    dist_v as int,
                                                    v as int,
                                                );
                                            }
                                            st.lemma_pushed(shape, dist_v as int, v as int);
                                            st = st.pushed(dist_v as int, v as int);
                                        }
                                        heap.push((cost_h, dist_v, v));
                                        map.insert(v, u);
                                    } else {
                                        proof {
                                            st.lemma_passed(shape);
                                            st = st.passed();
                                        }
                                    }
                                },
                            }
                        }
                        dist = dist_u;
                        if u == target {
                            break ;
                        }
                    }
                },
            }
        }
        proof {
            st.lemma_parents_descend(shape);
        }
        let path = Self::parse_path(source, target, map, Ghost(|v: usize| st.rank(v)));
        proof {
            st.lemma_finished(shape, target, dist as int, path@);
            st.lemma_explored(shape, target as int);
            st.lemma_followed_schedule(shape, Order::Least(h), via);
            if shape.consistent(h) {
                st.lemma_cheapest(shape);
                st.lemma_in_order(shape, h);
            }
        }
        (dist, path)
    }

    /// Create the path from the map of parents: from `target` back to
    /// `source`, or to the first node without a parent.
    fn parse_path(
        source: usize,
        target: usize,
        map: HashMap<usize, usize>,
        Ghost(rank): Ghost<spec_fn(usize) -> nat>,
    ) -> (path: VecDeque<usize>)
        requires
            forall|v: usize| #[trigger] map@.contains_key(v) ==> rank(map@[v]) < rank(v),
        ensures
            is_trail(map@, source, target, path@),
    {
        let mut path = VecDeque::new();
        path.push_front(target);
        let mut cur = target;
        while cur != source
            invariant
                path@.len() >= 1,
                path@[0] == cur,
                path@.last() == target,
                forall|i: int|
                    0 <= i < path@.len() - 1 ==> {
                        &&& #[trigger] path@[i + 1] != source
                        &&& map@.contains_key(path@[i + 1])
                        &&& map@[path@[i + 1]] == path@[i]
                    },
                forall|v: usize| #[trigger] map@.contains_key(v) ==> rank(map@[v]) < rank(v),
            ensures
                cur == source || !map@.contains_key(cur),
            decreases rank(cur),
        {
            match map.get(&cur) {
                Some(n) => {
                    let ghost was = path@;
                    path.push_front(*n);
                    proof {
                        assert forall|i: int| 0 <= i < path@.len() - 1 implies {
                            &&& #[trigger] path@[i + 1] != source
                            &&& map@.contains_key(path@[i + 1])
                            &&& map@[path@[i + 1]] == path@[i]
                        } by {
                            if i > 0 {
                                assert(path@[i + 1] == was[i - 1 + 1]);
                            }
                        }
                    }
                    cur = *n;
                },
                None => {
                    break ;
                },
            }
        }
        path
    }
}

} // verus!
