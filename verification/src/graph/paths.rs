//! Walks through a graph, stated over its shape alone: which edges leave
//! which node, where each edge leads and what it weighs.

use vstd::prelude::*;
use vstd::set_lib::{lemma_int_range, lemma_len_subset, set_int_range};

verus! {

/// The highest of the numbers, zero where there is none.
pub open spec fn highest(numbers: Seq<u64>) -> int
    decreases numbers.len(),
{
    if numbers.len() == 0 {
        0
    } else if numbers.last() > highest(numbers.drop_last()) {
        numbers.last() as int
    } else {
        highest(numbers.drop_last())
    }
}

/// None of the numbers is above their highest.
pub proof fn lemma_highest(numbers: Seq<u64>)
    ensures
        0 <= highest(numbers) <= u64::MAX,
        forall|i: int| 0 <= i < numbers.len() ==> #[trigger] numbers[i] <= highest(numbers),
    decreases numbers.len(),
{
    if numbers.len() > 0 {
        lemma_highest(numbers.drop_last());
        assert forall|i: int| 0 <= i < numbers.len() implies #[trigger] numbers[i] <= highest(
            numbers,
        ) by {
            if i < numbers.len() - 1 {
                assert(numbers.drop_last()[i] == numbers[i]);
            }
        }
    }
}

/// What a search reads of a graph. Node `u` has the outgoing edges
/// `adjacency[u]`, in the order in which they are enumerated; edge `e` leads
/// to `targets[e]` and weighs `weights[e]`.
pub struct Shape {
    pub adjacency: Seq<Seq<int>>,
    pub targets: Seq<usize>,
    pub weights: Seq<u64>,
}

impl Shape {
    pub open spec fn node_count(self) -> int {
        self.adjacency.len() as int
    }

    pub open spec fn edge_count(self) -> int {
        self.targets.len() as int
    }

    /// Every listed edge exists and leads to a node.
    pub open spec fn wf(self) -> bool {
        &&& self.weights.len() == self.targets.len()
        &&& forall|u: int, i: int|
            0 <= u < self.node_count() && 0 <= i < self.adjacency[u].len() ==> {
                &&& 0 <= #[trigger] self.adjacency[u][i] < self.edge_count()
                &&& self.targets[self.adjacency[u][i]] < self.node_count()
            }
    }

    /// Edge `e` is one of the edges that leave node `u`.
    pub open spec fn leaves(self, e: int, u: int) -> bool {
        0 <= u < self.node_count() && self.adjacency[u].contains(e)
    }

    /// Some edge leads from `u` to `v`.
    pub open spec fn adjacent(self, u: int, v: int) -> bool {
        exists|e: int| #[trigger] self.leaves(e, u) && self.targets[e] == v
    }

    /// The node at which one stands after the first `i` of `steps`, having
    /// started at `from`.
    pub open spec fn node_at(self, from: int, steps: Seq<int>, i: int) -> int {
        if i <= 0 {
            from
        } else {
            self.targets[steps[i - 1]] as int
        }
    }

    /// `steps` is a sequence of edges that can be followed one after another
    /// from the node `from`.
    pub open spec fn is_walk(self, from: int, steps: Seq<int>) -> bool {
        &&& 0 <= from < self.node_count()
        &&& forall|i: int|
            0 <= i < steps.len() ==> self.leaves(steps[i], #[trigger] self.node_at(from, steps, i))
    }

    /// Where the walk ends.
    pub open spec fn end(self, from: int, steps: Seq<int>) -> int {
        self.node_at(from, steps, steps.len() as int)
    }

    /// `steps` is a walk from `from` to `to`.
    pub open spec fn connects(self, from: int, steps: Seq<int>, to: int) -> bool {
        self.is_walk(from, steps) && self.end(from, steps) == to
    }

    /// The sum of the weights of the edges walked.
    pub open spec fn cost(self, steps: Seq<int>) -> int
        decreases steps.len(),
    {
        if steps.len() == 0 {
            0
        } else {
            self.cost(steps.drop_last()) + self.weights[steps.last()]
        }
    }

    /// The walk passes no node twice.
    pub open spec fn is_simple(self, from: int, steps: Seq<int>) -> bool {
        forall|i: int, j: int|
            0 <= i < j <= steps.len() ==> self.node_at(from, steps, i) != self.node_at(
                from,
                steps,
                j,
            )
    }

    /// Some walk leads from `from` to `to`.
    pub open spec fn reachable(self, from: int, to: int) -> bool {
        exists|steps: Seq<int>| self.connects(from, steps, to)
    }

    /// `d` is the cost of a cheapest walk from `from` to `to`.
    pub open spec fn is_distance(self, from: int, to: int, d: int) -> bool {
        &&& exists|steps: Seq<int>|
            #[trigger] self.connects(from, steps, to) && self.cost(steps) == d
        &&& forall|steps: Seq<int>|
            #[trigger] self.connects(from, steps, to) ==> d <= self.cost(steps)
    }

    /// The cost of every walk from `from` that passes no node twice can be
    /// held in a `u64`.
    pub open spec fn costs_fit(self, from: int) -> bool {
        forall|steps: Seq<int>|
            #[trigger] self.is_walk(from, steps) && self.is_simple(from, steps) ==> self.cost(steps)
                <= u64::MAX
    }

    /// The cost of every walk from `from` that passes no node twice, plus the
    /// estimate `h` for the node where it ends, can be held in a `u64`.
    pub open spec fn estimates_fit(self, from: int, h: Seq<u64>) -> bool {
        forall|steps: Seq<int>|
            #[trigger] self.is_walk(from, steps) && self.is_simple(from, steps) ==> {
                &&& 0 <= self.end(from, steps) < h.len()
                &&& self.cost(steps) + h[self.end(from, steps)] <= u64::MAX
            }
    }

    /// `h` never drops by more than an edge's weight along that edge.
    pub open spec fn consistent(self, h: Seq<u64>) -> bool {
        &&& h.len() >= self.node_count()
        &&& forall|u: int, i: int|
            0 <= u < self.node_count() && 0 <= i < self.adjacency[u].len() ==> h[u]
                <= self.weights[#[trigger] self.adjacency[u][i]]
                + h[self.targets[self.adjacency[u][i]] as int]
    }

    /// A walk costs nothing less than zero.
    pub proof fn lemma_cost_nonnegative(self, steps: Seq<int>)
        ensures
            0 <= self.cost(steps),
        decreases steps.len(),
    {
        if steps.len() > 0 {
            self.lemma_cost_nonnegative(steps.drop_last());
        }
    }

    /// Every node on a walk is a node of the graph.
    pub proof fn lemma_walk_nodes(self, from: int, steps: Seq<int>, i: int)
        requires
            self.wf(),
            self.is_walk(from, steps),
            0 <= i <= steps.len(),
        ensures
            0 <= self.node_at(from, steps, i) < self.node_count(),
    {
        if i > 0 {
            let e = steps[i - 1];
            let u = self.node_at(from, steps, i - 1);
            assert(self.leaves(e, u));
            let k = choose|k: int| 0 <= k < self.adjacency[u].len() && self.adjacency[u][k] == e;
            assert(self.targets[self.adjacency[u][k]] < self.node_count());
        }
    }

    /// Following one more edge from the end of a walk gives a walk again,
    /// which ends where that edge leads and costs that edge's weight more.
    pub proof fn lemma_walk_push(self, from: int, steps: Seq<int>, e: int)
        requires
            self.is_walk(from, steps),
            self.leaves(e, self.end(from, steps)),
        ensures
            self.is_walk(from, steps.push(e)),
            self.end(from, steps.push(e)) == self.targets[e],
            self.cost(steps.push(e)) == self.cost(steps) + self.weights[e],
            forall|i: int|
                0 <= i <= steps.len() ==> #[trigger] self.node_at(from, steps.push(e), i)
                    == self.node_at(from, steps, i),
    {
        let more = steps.push(e);
        assert(more.drop_last() =~= steps);
        assert forall|i: int| 0 <= i < more.len() implies self.leaves(
            #[trigger] more[i],
            self.node_at(from, more, i),
        ) by {
            if i < steps.len() {
                assert(more[i] == steps[i]);
                assert(self.node_at(from, more, i) == self.node_at(from, steps, i));
            }
        }
    }

    /// The first `n` steps of a walk are a walk, through the same nodes.
    pub proof fn lemma_walk_take(self, from: int, steps: Seq<int>, n: int)
        requires
            self.is_walk(from, steps),
            0 <= n <= steps.len(),
        ensures
            self.is_walk(from, steps.take(n)),
            self.end(from, steps.take(n)) == self.node_at(from, steps, n),
            forall|i: int|
                0 <= i <= n ==> #[trigger] self.node_at(from, steps.take(n), i) == self.node_at(
                    from,
                    steps,
                    i,
                ),
    {
        let part = steps.take(n);
        assert forall|i: int| 0 <= i < part.len() implies self.leaves(
            #[trigger] part[i],
            self.node_at(from, part, i),
        ) by {
            assert(part[i] == steps[i]);
            assert(self.node_at(from, part, i) == self.node_at(from, steps, i));
        }
    }

    /// One step more costs that step's weight more.
    pub proof fn lemma_cost_take(self, steps: Seq<int>, n: int)
        requires
            0 <= n < steps.len(),
        ensures
            self.cost(steps.take(n + 1)) == self.cost(steps.take(n)) + self.weights[steps[n]],
    {
        assert(steps.take(n + 1).drop_last() =~= steps.take(n));
    }

    /// Along a walk, cost so far plus a consistent estimate never decreases.
    pub proof fn lemma_estimate_grows(self, from: int, steps: Seq<int>, h: Seq<u64>, i: int, j: int)
        requires
            self.wf(),
            self.is_walk(from, steps),
            self.consistent(h),
            0 <= i <= j <= steps.len(),
        ensures
            self.cost(steps.take(i)) + h[self.node_at(from, steps, i)] <= self.cost(steps.take(j))
                + h[self.node_at(from, steps, j)],
        decreases j - i,
    {
        if i < j {
            self.lemma_estimate_grows(from, steps, h, i, j - 1);
            self.lemma_cost_take(steps, j - 1);
            self.lemma_walk_nodes(from, steps, j - 1);
            let u = self.node_at(from, steps, j - 1);
            let e = steps[j - 1];
            assert(self.leaves(e, u));
            let k = choose|k: int| 0 <= k < self.adjacency[u].len() && self.adjacency[u][k] == e;
            assert(h[u] <= self.weights[self.adjacency[u][k]]
                + h[self.targets[self.adjacency[u][k]] as int]);
        }
    }

    /// No edge weighs more than `bound`.
    pub open spec fn weights_within(self, bound: int) -> bool {
        forall|e: int| 0 <= e < self.weights.len() ==> #[trigger] self.weights[e] <= bound
    }

    /// The highest weight of an edge, zero where there is none.
    pub open spec fn top_weight(self) -> int {
        highest(self.weights)
    }

    /// No edge weighs more than the highest weight.
    pub proof fn lemma_top_weight(self)
        ensures
            self.weights_within(self.top_weight()),
            0 <= self.top_weight() <= u64::MAX,
    {
        lemma_highest(self.weights);
    }

    /// A walk that passes no node twice has fewer steps than there are nodes.
    pub proof fn lemma_simple_is_short(self, from: int, steps: Seq<int>)
        requires
            self.wf(),
            self.is_walk(from, steps),
            self.is_simple(from, steps),
        ensures
            steps.len() < self.node_count(),
    {
        let nodes = Seq::new(steps.len() + 1, |i: int| self.node_at(from, steps, i));
        let all = set_int_range(0, self.node_count());
        lemma_int_range(0, self.node_count());
        assert(nodes.no_duplicates());
        nodes.unique_seq_to_set();
        assert(nodes.to_set().subset_of(all)) by {
            assert forall|x: int| nodes.to_set().contains(x) implies all.contains(x) by {
                let i = choose|i: int| 0 <= i < nodes.len() && nodes[i] == x;
                self.lemma_walk_nodes(from, steps, i);
            }
        }
        lemma_len_subset(nodes.to_set(), all);
    }

    /// A walk costs no more than its number of steps times the highest
    /// weight.
    pub proof fn lemma_cost_within(self, from: int, steps: Seq<int>, bound: int)
        requires
            self.wf(),
            self.is_walk(from, steps),
            self.weights_within(bound),
        ensures
            self.cost(steps) <= steps.len() * bound,
        decreases steps.len(),
    {
        if steps.len() > 0 {
            let n = steps.len() as int;
            self.lemma_walk_take(from, steps, n - 1);
            assert(steps.take(n - 1) =~= steps.drop_last());
            self.lemma_cost_within(from, steps.drop_last(), bound);
            let u = self.node_at(from, steps, n - 1);
            self.lemma_walk_nodes(from, steps, n - 1);
            assert(self.leaves(steps[n - 1], u));
            let k = choose|k: int|
                0 <= k < self.adjacency[u].len() && self.adjacency[u][k] == steps[n - 1];
            assert(0 <= self.adjacency[u][k] < self.edge_count());
            assert(self.weights[steps.last()] <= bound);
            assert((n - 1) * bound + bound == n * bound) by (nonlinear_arith);
        }
    }

    /// Where no edge weighs more than `bound`, and one less than the number
    /// of nodes times `bound` fits in a `u64`, the costs fit.
    pub proof fn lemma_costs_fit(self, from: int, bound: int)
        requires
            self.wf(),
            0 <= bound,
            self.weights_within(bound),
            (self.node_count() - 1) * bound <= u64::MAX,
        ensures
            self.costs_fit(from),
    {
        assert forall|steps: Seq<int>|
            #[trigger] self.is_walk(from, steps) && self.is_simple(from, steps) implies self.cost(
            steps,
        ) <= u64::MAX by {
            self.lemma_simple_is_short(from, steps);
            self.lemma_cost_within(from, steps, bound);
            let len = steps.len() as int;
            let most = self.node_count() - 1;
            assert(len * bound <= most * bound) by (nonlinear_arith)
                requires
                    0 <= len <= most,
                    0 <= bound,
            ;
        }
    }

    /// Where moreover no estimate is above `top`, and `top` can still be
    /// added, the estimates fit.
    pub proof fn lemma_estimates_fit(self, from: int, bound: int, h: Seq<u64>, top: int)
        requires
            self.wf(),
            0 <= bound,
            self.weights_within(bound),
            h.len() >= self.node_count(),
            forall|u: int| 0 <= u < h.len() ==> #[trigger] h[u] <= top,
            (self.node_count() - 1) * bound + top <= u64::MAX,
        ensures
            self.estimates_fit(from, h),
    {
        assert forall|steps: Seq<int>|
            #[trigger] self.is_walk(from, steps) && self.is_simple(from, steps) implies {
            &&& 0 <= self.end(from, steps) < h.len()
            &&& self.cost(steps) + h[self.end(from, steps)] <= u64::MAX
        } by {
            self.lemma_simple_is_short(from, steps);
            self.lemma_cost_within(from, steps, bound);
            self.lemma_walk_nodes(from, steps, steps.len() as int);
            let len = steps.len() as int;
            let most = self.node_count() - 1;
            assert(len * bound <= most * bound) by (nonlinear_arith)
                requires
                    0 <= len <= most,
                    0 <= bound,
            ;
        }
    }
}

} // verus!
