//! What the searches ensure leaves room for one outcome only: the ranks,
//! the cost and the path are determined by the graph, the source, the target
//! and the order in which edges are followed.

use super::order::{cost_along, end_of, followed, open_at, prefers, scheduled, taken, Order};
use super::paths::Shape;
use super::search::{explored, has_rank, is_last, is_route, searched, settled};
use super::shortest::no_estimate;
use vstd::prelude::*;

verus! {

/// Two searches gave the ranks up to `r` to the same nodes, and noted the
/// same costs for them.
pub open spec fn agree_upto(
    shape: Shape,
    m1: Seq<u64>,
    cost1: Seq<int>,
    m2: Seq<u64>,
    cost2: Seq<int>,
    r: int,
) -> bool {
    forall|v: int|
        0 <= v < shape.node_count() ==> {
            &&& 0 < #[trigger] m1[v] <= r ==> m2[v] == m1[v] && cost1[v] == cost2[v]
            &&& 0 < #[trigger] m2[v] <= r ==> m1[v] == m2[v]
        }
}

/// An edge that was open for one of two searches that agree up to the rank
/// before `r` was open for the other.
proof fn lemma_open_for_both(
    shape: Shape,
    m1: Seq<u64>,
    cost1: Seq<int>,
    m2: Seq<u64>,
    cost2: Seq<int>,
    r: int,
    x: int,
    i: int,
)
    requires
        shape.wf(),
        m1.len() == shape.node_count(),
        m2.len() == shape.node_count(),
        agree_upto(shape, m1, cost1, m2, cost2, r - 1),
        open_at(shape, m1, r, x, i),
    ensures
        open_at(shape, m2, r, x, i),
        m2[x] == m1[x],
        cost2[x] == cost1[x],
{
    let y = end_of(shape, (x, i));
    assert(0 <= shape.adjacency[x][i] < shape.edge_count());
    assert(0 <= y < shape.node_count());
    assert(0 < m1[x] <= r - 1);
    if 0 < m2[y] <= r - 1 {
        assert(m1[y] == m2[y]);
    }
}

/// Of two edges between visited nodes of which each is followed no later
/// than the other, both lead to one node at one cost.
proof fn lemma_prefers_one(
    shape: Shape,
    markers: Seq<u64>,
    source: int,
    target: int,
    cost: Seq<int>,
    order: Order,
    a: (int, int),
    b: (int, int),
)
    requires
        explored(shape, markers, source, target),
        0 <= a.0 < shape.node_count(),
        0 <= b.0 < shape.node_count(),
        markers[a.0] != 0,
        prefers(shape, markers, cost, order, a, b),
        prefers(shape, markers, cost, order, b, a),
    ensures
        end_of(shape, a) == end_of(shape, b),
        cost_along(shape, cost, a) == cost_along(shape, cost, b),
{
    match order {
        Order::Latest => {
            assert(markers[a.0] == markers[b.0]);
            assert(a.0 == b.0);
        },
        Order::Earliest => {
            assert(markers[a.0] == markers[b.0]);
            assert(a.0 == b.0);
        },
        Order::Least(h) => {},
    }
}

/// Where two searches agree up to the rank before `r`, the node to which
/// the first gave rank `r` got it from the second too, at the same cost.
proof fn lemma_rank_agrees(
    shape: Shape,
    source: int,
    target: int,
    order: Order,
    m1: Seq<u64>,
    cost1: Seq<int>,
    via1: Seq<(int, int)>,
    last1: int,
    m2: Seq<u64>,
    cost2: Seq<int>,
    via2: Seq<(int, int)>,
    last2: int,
    r: int,
    v1: int,
)
    requires
        shape.wf(),
        0 <= source < shape.node_count(),
        0 <= target < shape.node_count(),
        explored(shape, m1, source, target),
        explored(shape, m2, source, target),
        is_last(shape, m1, last1),
        is_last(shape, m2, last2),
        scheduled(shape, m1, source, order, cost1, via1),
        scheduled(shape, m2, source, order, cost2, via2),
        agree_upto(shape, m1, cost1, m2, cost2, r - 1),
        agree_upto(shape, m2, cost2, m1, cost1, r - 1),
        0 <= v1 < shape.node_count(),
        m1[v1] == r,
        r >= 1,
    ensures
        m2[v1] == r,
        cost1[v1] == cost2[v1],
{
    reveal(scheduled);
    if r == 1 {
        assert(v1 == source);
    } else {
        assert(v1 != source);
        // the second search gave out rank r as well
        if shape.reachable(source, target) {
            assert(m1[v1] <= m1[target]);
            if 0 < m2[target] <= r - 1 {
                assert(m1[target] == m2[target]);
            }
            assert(m2[target] <= m2[last2]);
        } else {
            assert(m1[v1] != 0);
            assert(shape.reachable(source, v1));
            assert(m2[v1] != 0);
            if 0 < m2[v1] <= r - 1 {
                assert(m1[v1] == m2[v1]);
            }
            assert(m2[v1] <= m2[last2]);
        }
        assert(has_rank(m2, r));
        let v2 = choose|v: int| 0 <= v < m2.len() && #[trigger] m2[v] == r;
        assert(v2 != source);
        let by1 = via1[v1];
        let by2 = via2[v2];
        assert(taken(shape, m1, cost1, order, v1, by1));
        assert(taken(shape, m2, cost2, order, v2, by2));
        lemma_open_for_both(shape, m1, cost1, m2, cost2, r, by1.0, by1.1);
        lemma_open_for_both(shape, m2, cost2, m1, cost1, r, by2.0, by2.1);
        assert(prefers(shape, m1, cost1, order, by1, by2));
        assert(prefers(shape, m2, cost2, order, by2, by1));
        assert(prefers(shape, m1, cost1, order, by2, by1));
        lemma_prefers_one(shape, m1, source, target, cost1, order, by1, by2);
        assert(v1 == v2);
    }
}

/// Two searches on one graph, from one source for one target and in one
/// order, agree on all ranks and on the costs noted.
proof fn lemma_ranks_agree(
    shape: Shape,
    source: int,
    target: int,
    order: Order,
    m1: Seq<u64>,
    cost1: Seq<int>,
    via1: Seq<(int, int)>,
    last1: int,
    m2: Seq<u64>,
    cost2: Seq<int>,
    via2: Seq<(int, int)>,
    last2: int,
    r: int,
)
    requires
        shape.wf(),
        0 <= source < shape.node_count(),
        0 <= target < shape.node_count(),
        explored(shape, m1, source, target),
        explored(shape, m2, source, target),
        is_last(shape, m1, last1),
        is_last(shape, m2, last2),
        scheduled(shape, m1, source, order, cost1, via1),
        scheduled(shape, m2, source, order, cost2, via2),
        r >= 0,
    ensures
        agree_upto(shape, m1, cost1, m2, cost2, r),
        agree_upto(shape, m2, cost2, m1, cost1, r),
    decreases r,
{
    if r > 0 {
        lemma_ranks_agree(
            shape,
            source,
            target,
            order,
            m1,
            cost1,
            via1,
            last1,
            m2,
            cost2,
            via2,
            last2,
            r - 1,
        );
        assert forall|v: int| 0 <= v < shape.node_count() implies {
            &&& 0 < #[trigger] m1[v] <= r ==> m2[v] == m1[v] && cost1[v] == cost2[v]
            &&& 0 < #[trigger] m2[v] <= r ==> m1[v] == m2[v]
        } by {
            if m1[v] == r {
                lemma_rank_agrees(
                    shape,
                    source,
                    target,
                    order,
                    m1,
                    cost1,
                    via1,
                    last1,
                    m2,
                    cost2,
                    via2,
                    last2,
                    r,
                    v,
                );
            }
            if m2[v] == r {
                lemma_rank_agrees(
                    shape,
                    source,
                    target,
                    order,
                    m2,
                    cost2,
                    via2,
                    last2,
                    m1,
                    cost1,
                    via1,
                    last1,
                    r,
                    v,
                );
            }
        }
    }
}

/// From the end, two routes to one target through the same ranks pass the
/// same nodes.
proof fn lemma_routes_agree(
    shape: Shape,
    markers: Seq<u64>,
    source: int,
    target: int,
    path1: Seq<usize>,
    path2: Seq<usize>,
    k: int,
)
    requires
        explored(shape, markers, source, target),
        is_route(shape, markers, source, target, path1),
        is_route(shape, markers, source, target, path2),
        0 <= k < path1.len(),
    ensures
        k < path2.len(),
        path1[path1.len() - 1 - k] == path2[path2.len() - 1 - k],
    decreases k,
{
    if k > 0 {
        lemma_routes_agree(shape, markers, source, target, path1, path2, k - 1);
        let i1 = path1.len() - 1 - k;
        let i2 = path2.len() - 1 - k;
        let next = path1[i1 + 1];
        assert(next == path2[path2.len() - 1 - (k - 1)]);
        assert(markers[path1[i1] as int] < markers[path1[i1 + 1] as int]);
        // the node before `next` on the first route ranks above one, so
        // `next` is not the source, and the second route goes on as well
        if i2 < 0 {
            assert(path2[0] == source);
            assert(markers[path1[i1] as int] != 0);
        }
        assert(path2[i2 + 1] == next);
        let a = path1[i1] as int;
        let b = path2[i2] as int;
        assert(shape.adjacent(a, path1[i1 + 1] as int));
        assert(shape.adjacent(b, path2[i2 + 1] as int));
        let ea = choose|e: int| #[trigger] shape.leaves(e, a) && shape.targets[e] == next;
        let eb = choose|e: int| #[trigger] shape.leaves(e, b) && shape.targets[e] == next;
        let ka = choose|j: int| 0 <= j < shape.adjacency[a].len() && shape.adjacency[a][j] == ea;
        let kb = choose|j: int| 0 <= j < shape.adjacency[b].len() && shape.adjacency[b][j] == eb;
        assert(shape.targets[shape.adjacency[a][ka]] == path2[i2 + 1]);
        assert(shape.targets[shape.adjacency[b][kb]] == path1[i1 + 1]);
        assert(markers[b] < markers[path2[i2 + 1] as int]);
        assert(markers[a] <= markers[b]);
        assert(markers[b] <= markers[a]);
    }
}

/// What a search ensures determines what it leaves and returns: two
/// outcomes of a search on one graph, from one source for one target and in
/// one order, are the same in ranks, cost and path.
pub proof fn lemma_one_outcome(
    shape: Shape,
    source: int,
    target: int,
    order: Order,
    markers1: Seq<u64>,
    cost1: int,
    path1: Seq<usize>,
    markers2: Seq<u64>,
    cost2: int,
    path2: Seq<usize>,
)
    requires
        shape.wf(),
        0 <= source < shape.node_count(),
        0 <= target < shape.node_count(),
        searched(shape, markers1, source, target, cost1, path1),
        followed(shape, markers1, source, order, cost1),
        searched(shape, markers2, source, target, cost2, path2),
        followed(shape, markers2, source, order, cost2),
    ensures
        markers1 == markers2,
        cost1 == cost2,
        path1 == path2,
{
    let n = shape.node_count();
    let last1 = choose|last: int| #[trigger]
        is_last(shape, markers1, last) && settled(shape, markers1, source, cost1, last);
    let last2 = choose|last: int| #[trigger]
        is_last(shape, markers2, last) && settled(shape, markers2, source, cost2, last);
    let (c1, via1) = choose|cost: Seq<int>, via: Seq<(int, int)>| #[trigger]
        scheduled(shape, markers1, source, order, cost, via) && forall|last: int|
            is_last(shape, markers1, last) ==> #[trigger] cost[last] == cost1;
    let (c2, via2) = choose|cost: Seq<int>, via: Seq<(int, int)>| #[trigger]
        scheduled(shape, markers2, source, order, cost, via) && forall|last: int|
            is_last(shape, markers2, last) ==> #[trigger] cost[last] == cost2;
    let top = markers1[last1] + markers2[last2];
    lemma_ranks_agree(
        shape,
        source,
        target,
        order,
        markers1,
        c1,
        via1,
        last1,
        markers2,
        c2,
        via2,
        last2,
        top,
    );
    assert forall|v: int| 0 <= v < n implies markers1[v] == markers2[v] by {
        assert(markers1[v] <= markers1[last1]);
        assert(markers2[v] <= markers2[last2]);
    }
    assert(markers1 =~= markers2);
    assert(is_last(shape, markers2, last1));
    assert(c1[last1] == cost1);
    assert(c2[last1] == cost2);
    if shape.reachable(source, target) {
        if path1.len() <= path2.len() {
            lemma_equal_routes(shape, markers1, source, target, path1, path2);
        } else {
            lemma_equal_routes(shape, markers1, source, target, path2, path1);
        }
    } else {
        assert(path1 =~= path2);
    }
}

/// Two routes to one target through the same ranks are one route.
proof fn lemma_equal_routes(
    shape: Shape,
    markers: Seq<u64>,
    source: int,
    target: int,
    path1: Seq<usize>,
    path2: Seq<usize>,
)
    requires
        explored(shape, markers, source, target),
        is_route(shape, markers, source, target, path1),
        is_route(shape, markers, source, target, path2),
    ensures
        path1 == path2,
{
    lemma_routes_agree(shape, markers, source, target, path1, path2, path1.len() - 1);
    lemma_routes_agree(shape, markers, source, target, path2, path1, path2.len() - 1);
    assert(path1.len() == path2.len());
    assert forall|i: int| 0 <= i < path1.len() implies path1[i] == path2[i] by {
        lemma_routes_agree(shape, markers, source, target, path1, path2, path1.len() - 1 - i);
    }
    assert(path1 =~= path2);
}

/// A node taken by least cost plus estimate is taken by least cost where
/// the estimate is zero for every node.
proof fn lemma_taken_without_estimate(
    shape: Shape,
    markers: Seq<u64>,
    cost: Seq<int>,
    h: Seq<u64>,
    v: int,
    by: (int, int),
)
    requires
        shape.wf(),
        0 <= v < shape.node_count(),
        h.len() >= shape.node_count(),
        forall|i: int| 0 <= i < h.len() ==> h[i] == 0,
        taken(shape, markers, cost, Order::Least(h), v, by),
    ensures
        taken(shape, markers, cost, Order::Least(no_estimate(shape)), v, by),
{
    let none = no_estimate(shape);
    assert forall|x: int, i: int| #[trigger]
        open_at(shape, markers, markers[v] as int, x, i) implies prefers(
        shape,
        markers,
        cost,
        Order::Least(none),
        by,
        (x, i),
    ) by {
        assert(prefers(shape, markers, cost, Order::Least(h), by, (x, i)));
        assert(0 <= shape.adjacency[x][i] < shape.edge_count());
        assert(0 <= end_of(shape, (x, i)) < shape.node_count());
        assert(h[end_of(shape, (x, i))] == 0);
        assert(h[end_of(shape, by)] == 0);
    }
}

/// A schedule by least cost plus estimate is a schedule by least cost where
/// the estimate is zero for every node.
proof fn lemma_scheduled_without_estimate(
    shape: Shape,
    markers: Seq<u64>,
    source: int,
    h: Seq<u64>,
    cost: Seq<int>,
    via: Seq<(int, int)>,
)
    requires
        shape.wf(),
        h.len() >= shape.node_count(),
        forall|i: int| 0 <= i < h.len() ==> h[i] == 0,
        scheduled(shape, markers, source, Order::Least(h), cost, via),
    ensures
        scheduled(shape, markers, source, Order::Least(no_estimate(shape)), cost, via),
{
    reveal(scheduled);
    assert forall|v: int|
        0 <= v < shape.node_count() && #[trigger] markers[v] != 0 && v != source implies taken(
        shape,
        markers,
        cost,
        Order::Least(no_estimate(shape)),
        v,
        via[v],
    ) by {
        lemma_taken_without_estimate(shape, markers, cost, h, v, via[v]);
    }
}

/// What followed a schedule by least cost plus estimate followed one by
/// least cost, where the estimate is zero for every node.
proof fn lemma_zero_estimate_is_none(
    shape: Shape,
    markers: Seq<u64>,
    source: int,
    h: Seq<u64>,
    result: int,
)
    requires
        shape.wf(),
        h.len() >= shape.node_count(),
        forall|i: int| 0 <= i < h.len() ==> h[i] == 0,
        followed(shape, markers, source, Order::Least(h), result),
    ensures
        followed(shape, markers, source, Order::Least(no_estimate(shape)), result),
{
    let (cost, via) = choose|cost: Seq<int>, via: Seq<(int, int)>| #[trigger]
        scheduled(shape, markers, source, Order::Least(h), cost, via) && forall|last: int|
            is_last(shape, markers, last) ==> #[trigger] cost[last] == result;
    lemma_scheduled_without_estimate(shape, markers, source, h, cost, via);
}

/// Heuristic search with an estimate of zero for every node leaves and
/// returns what uniform-cost search does, on the same graph and for the same
/// source and target: the same ranks, the same cost and the same path.
pub proof fn lemma_zero_estimate_agrees(
    shape: Shape,
    source: int,
    target: int,
    h: Seq<u64>,
    markers_u: Seq<u64>,
    cost_u: int,
    path_u: Seq<usize>,
    markers_e: Seq<u64>,
    cost_e: int,
    path_e: Seq<usize>,
)
    requires
        shape.wf(),
        0 <= source < shape.node_count(),
        0 <= target < shape.node_count(),
        h.len() >= shape.node_count(),
        forall|i: int| 0 <= i < h.len() ==> h[i] == 0,
        searched(shape, markers_u, source, target, cost_u, path_u),
        followed(shape, markers_u, source, Order::Least(no_estimate(shape)), cost_u),
        searched(shape, markers_e, source, target, cost_e, path_e),
        followed(shape, markers_e, source, Order::Least(h), cost_e),
    ensures
        markers_u == markers_e,
        cost_u == cost_e,
        path_u == path_e,
{
    lemma_zero_estimate_is_none(shape, markers_e, source, h, cost_e);
    lemma_one_outcome(
        shape,
        source,
        target,
        Order::Least(no_estimate(shape)),
        markers_u,
        cost_u,
        path_u,
        markers_e,
        cost_e,
        path_e,
    );
}

} // verus!
