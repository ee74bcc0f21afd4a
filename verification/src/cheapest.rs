//! Why the route that a search returns is a cheapest one: the estimate of
//! what is left never exceeds what is left, so a node is settled with the cost
//! of a cheapest way to it.

use crate::bookkeeping::{
    closure, lemma_expand, lemma_neighbours, lemma_push_member, lemma_relax, lemma_settle,
    node_inv, reached, search_inv, step_inv,
};
use crate::path::{NodeIndex, NodeView};
use crate::routes::{lemma_ancestry, lemma_route_cost};
use crate::search::{
    ancestry, cost_less, expand, is_pick, is_walk, joined, leads, neighbours, priority, relax,
    route_cost, Edge, Frontier,
};
use crate::vector::{lemma_distance_symmetric, lemma_triangle, Vector};
use vstd::prelude::*;

verus! {

/// The cost that `nodes` holds for the node `v`.
pub open spec fn g_cost_of(nodes: Seq<NodeView>, v: NodeIndex) -> nat {
    nodes[v.0 as int].g_cost.unwrap()
}

/// The estimate of what is left from the node `v` to `target`: their
/// distance, rounded down.
pub open spec fn estimate(positions: Seq<Vector>, target: NodeIndex, v: NodeIndex) -> nat {
    positions[target.0 as int].spec_distance(positions[v.0 as int])
}

/// The cost of the step from the node `from` to the node `to`: their
/// distance, rounded up.
pub open spec fn step_cost(positions: Seq<Vector>, from: NodeIndex, to: NodeIndex) -> nat {
    positions[from.0 as int].spec_distance_up(positions[to.0 as int])
}

/// No chain of edges from `start` to a settled node costs less than that
/// node does.
pub open spec fn settled_cheapest(
    positions: Seq<Vector>,
    edges: Seq<Edge>,
    nodes: Seq<NodeView>,
    closed: Seq<NodeIndex>,
    start: NodeIndex,
) -> bool {
    forall|walk: Seq<NodeIndex>, v: NodeIndex|
        closed.contains(v) && #[trigger] leads(edges, walk, start, v) ==> g_cost_of(nodes, v)
            <= route_cost(positions, walk)
}

/// The node `to` costs no more than the way over the node `from`.
pub open spec fn relaxed(
    positions: Seq<Vector>,
    nodes: Seq<NodeView>,
    from: NodeIndex,
    to: NodeIndex,
) -> bool {
    g_cost_of(nodes, to) <= g_cost_of(nodes, from) + step_cost(positions, from, to)
}

/// Every edge that leaves a node of `done` leads to a node that costs no more
/// than the way over that edge.
pub open spec fn edges_relaxed(
    positions: Seq<Vector>,
    edges: Seq<Edge>,
    nodes: Seq<NodeView>,
    done: Seq<NodeIndex>,
) -> bool {
    forall|e: int|
        0 <= e < edges.len() && done.contains((#[trigger] edges[e]).0) ==> relaxed(
            positions,
            nodes,
            edges[e].0,
            edges[e].1,
        )
}

/// What holds of the costs between two steps of a search.
pub open spec fn cheapest_inv(
    positions: Seq<Vector>,
    edges: Seq<Edge>,
    nodes: Seq<NodeView>,
    closed: Seq<NodeIndex>,
    start: NodeIndex,
) -> bool {
    &&& settled_cheapest(positions, edges, nodes, closed, start)
    &&& edges_relaxed(positions, edges, nodes, closed)
}

/// A chain of edges with one more edge at its end is a chain of edges, and
/// costs what the chain costs and the step along that edge.
pub proof fn lemma_walk_push(
    positions: Seq<Vector>,
    edges: Seq<Edge>,
    walk: Seq<NodeIndex>,
    next: NodeIndex,
)
    requires
        walk.len() > 0,
    ensures
        route_cost(positions, walk.push(next)) == route_cost(positions, walk) + step_cost(
            positions,
            walk.last(),
            next,
        ),
        is_walk(edges, walk) && edges.contains((walk.last(), next)) ==> is_walk(
            edges,
            walk.push(next),
        ),
{
    let longer = walk.push(next);
    assert(longer.drop_last() =~= walk);
    assert(longer[longer.len() - 2] == walk.last());
    if is_walk(edges, walk) && edges.contains((walk.last(), next)) {
        assert forall|i: int|
            0 <= i < longer.len() - 1 implies #[trigger] joined(edges, longer, i) by {
            if i < walk.len() - 1 {
                assert(joined(edges, walk, i));
            }
        }
    }
}

/// The beginning of a chain of edges is a chain of edges.
pub proof fn lemma_walk_take(edges: Seq<Edge>, walk: Seq<NodeIndex>, k: int)
    requires
        is_walk(edges, walk),
        0 <= k <= walk.len(),
    ensures
        is_walk(edges, walk.take(k)),
{
    assert forall|i: int| 0 <= i < walk.take(k).len() - 1 implies #[trigger] joined(
        edges,
        walk.take(k),
        i,
    ) by {
        assert(joined(edges, walk, i));
    }
}

/// Along any sequence of nodes, what the way so far costs together with the
/// estimate of what is left never falls: each step costs at least as much as
/// it takes off the estimate.
pub proof fn lemma_estimate_falls(
    positions: Seq<Vector>,
    target: NodeIndex,
    walk: Seq<NodeIndex>,
    i: int,
    j: int,
)
    requires
        0 <= i <= j < walk.len(),
    ensures
        route_cost(positions, walk.take(i + 1)) + estimate(positions, target, walk[i])
            <= route_cost(positions, walk.take(j + 1)) + estimate(positions, target, walk[j]),
    decreases j - i,
{
    if i < j {
        lemma_estimate_falls(positions, target, walk, i, j - 1);
        let before = walk.take(j);
        assert(before.push(walk[j]) =~= walk.take(j + 1));
        assert(before.last() == walk[j - 1]);
        lemma_walk_push(positions, Seq::empty(), before, walk[j]);
        let from = positions[walk[j - 1].0 as int];
        let to = positions[walk[j].0 as int];
        let goal = positions[target.0 as int];
        lemma_triangle(from, to, goal);
        lemma_distance_symmetric(from, goal);
        lemma_distance_symmetric(to, goal);
    }
}

/// A sequence of nodes that begins among the settled nodes and ends outside
/// them leaves them somewhere.
pub proof fn lemma_first_unsettled(closed: Seq<NodeIndex>, walk: Seq<NodeIndex>, from: int) -> (i:
    int)
    requires
        0 <= from < walk.len(),
        closed.contains(walk[from]),
        !closed.contains(walk.last()),
    ensures
        from < i < walk.len(),
        closed.contains(walk[i - 1]),
        !closed.contains(walk[i]),
    decreases walk.len() - from,
{
    if closed.contains(walk[from + 1]) {
        lemma_first_unsettled(closed, walk, from + 1)
    } else {
        from + 1
    }
}

/// The member of the open list that is settled next costs what a cheapest way
/// to it costs.
pub proof fn lemma_settle_cheapest(
    positions: Seq<Vector>,
    edges: Seq<Edge>,
    frontier: Frontier,
    closed: Seq<NodeIndex>,
    start: NodeIndex,
    end: NodeIndex,
    i: int,
)
    requires
        step_inv(positions, edges, frontier, closed, start, end),
        cheapest_inv(positions, edges, frontier.nodes, closed, start),
        is_pick(frontier.nodes, frontier.open, i),
    ensures
        settled_cheapest(positions, edges, frontier.nodes, closed.push(frontier.open[i]), start),
{
    let nodes = frontier.nodes;
    let current = frontier.open[i];
    let settled = closed.push(current);
    lemma_push_member(closed, current);
    assert(frontier.open.contains(current));
    assert(node_inv(positions, edges, frontier, closed, start, end, current));
    assert forall|walk: Seq<NodeIndex>, v: NodeIndex|
        settled.contains(v) && #[trigger] leads(edges, walk, start, v) implies g_cost_of(nodes, v)
        <= route_cost(positions, walk) by {
        if !closed.contains(v) {
            if closed.len() == 0 {
                assert(frontier.open[i] == start);
            } else {
                assert(closed[0] == start);
                let m = lemma_first_unsettled(closed, walk, 0);
                let last = walk.len() - 1;
                let x = walk[m - 1];
                let y = walk[m];
                assert(joined(edges, walk, m - 1));
                let e = choose|e: int| 0 <= e < edges.len() && edges[e] == (x, y);
                assert(closed.contains(edges[e].0));
                assert(reached(frontier.open, closed, edges[e].1));
                assert(relaxed(positions, nodes, edges[e].0, edges[e].1));
                let j = choose|j: int| 0 <= j < frontier.open.len() && frontier.open[j] == y;
                assert(edges[e].1.0 < positions.len());
                assert(node_inv(positions, edges, frontier, closed, start, end, y));
                lemma_walk_take(edges, walk, m);
                assert(walk.take(m).last() == x);
                assert(leads(edges, walk.take(m), start, x));
                assert(walk.take(m).push(y) =~= walk.take(m + 1));
                lemma_walk_push(positions, edges, walk.take(m), y);
                lemma_estimate_falls(positions, end, walk, m, last);
                assert(walk.take(last + 1) =~= walk);
                assert(!cost_less(
                    priority(nodes, frontier.open, j),
                    priority(nodes, frontier.open, i),
                ));
            }
        }
    }
}

/// Looking from the node settled last at one of its neighbours leaves the
/// costs in order: the settled nodes keep theirs, no node that was found
/// becomes dearer, and the neighbour costs no more than the way over the node
/// settled last.
pub proof fn lemma_relax_cheapest(
    positions: Seq<Vector>,
    edges: Seq<Edge>,
    frontier: Frontier,
    closed: Seq<NodeIndex>,
    start: NodeIndex,
    end: NodeIndex,
    done: Seq<NodeIndex>,
    neighbour: NodeIndex,
)
    requires
        search_inv(positions, edges, frontier, closed, start, end),
        closed.len() > 0,
        edges.contains((closed.last(), neighbour)),
        settled_cheapest(positions, edges, frontier.nodes, closed, start),
        edges_relaxed(positions, edges, frontier.nodes, done),
        closure(edges, frontier.open, closed, done),
        forall|v: NodeIndex| done.contains(v) ==> closed.contains(v),
    ensures
        ({
            let next = relax(frontier, closed, closed.last(), neighbour, positions[end.0 as int]);
            &&& settled_cheapest(positions, edges, next.nodes, closed, start)
            &&& edges_relaxed(positions, edges, next.nodes, done)
            &&& relaxed(positions, next.nodes, closed.last(), neighbour)
            &&& forall|v: NodeIndex|
                closed.contains(v) ==> #[trigger] g_cost_of(next.nodes, v) == g_cost_of(
                    frontier.nodes,
                    v,
                )
            &&& forall|v: NodeIndex|
                reached(frontier.open, closed, v) ==> #[trigger] g_cost_of(next.nodes, v)
                    <= g_cost_of(frontier.nodes, v)
        }),
{
    let n = positions.len();
    let current = closed.last();
    let next = relax(frontier, closed, current, neighbour, positions[end.0 as int]);
    let e = choose|e: int| 0 <= e < edges.len() && edges[e] == (current, neighbour);
    assert(edges[e].1.0 < n);
    assert(closed[closed.len() - 1] == current);
    assert(closed.contains(current));
    assert(node_inv(positions, edges, frontier, closed, start, end, neighbour));
    assert(node_inv(positions, edges, frontier, closed, start, end, current));
    assert forall|v: NodeIndex| closed.contains(v) implies next.nodes[v.0 as int]
        == frontier.nodes[v.0 as int] by {}
    assert forall|v: NodeIndex| closed.contains(v) implies #[trigger] g_cost_of(next.nodes, v)
        == g_cost_of(frontier.nodes, v) by {
        assert(next.nodes[v.0 as int] == frontier.nodes[v.0 as int]);
    }
    assert forall|v: NodeIndex| reached(frontier.open, closed, v) implies #[trigger] g_cost_of(
        next.nodes,
        v,
    ) <= g_cost_of(frontier.nodes, v) by {
        if v != neighbour {
            if frontier.open.contains(v) {
                let j = choose|j: int| 0 <= j < frontier.open.len() && frontier.open[j] == v;
                assert(frontier.open[j].0 < n);
            } else {
                let j = choose|j: int| 0 <= j < closed.len() && closed[j] == v;
                assert(closed[j].0 < n);
            }
            assert(next.nodes[v.0 as int] == frontier.nodes[v.0 as int]);
        }
    }
    assert forall|walk: Seq<NodeIndex>, v: NodeIndex|
        closed.contains(v) && #[trigger] leads(edges, walk, start, v) implies g_cost_of(
        next.nodes,
        v,
    ) <= route_cost(positions, walk) by {
        assert(g_cost_of(next.nodes, v) == g_cost_of(frontier.nodes, v));
    }
    assert forall|d: int|
        0 <= d < edges.len() && done.contains((#[trigger] edges[d]).0) implies relaxed(
        positions,
        next.nodes,
        edges[d].0,
        edges[d].1,
    ) by {
        assert(relaxed(positions, frontier.nodes, edges[d].0, edges[d].1));
        assert(closed.contains(edges[d].0));
        assert(reached(frontier.open, closed, edges[d].1));
        assert(g_cost_of(next.nodes, edges[d].0) == g_cost_of(frontier.nodes, edges[d].0));
        assert(g_cost_of(next.nodes, edges[d].1) <= g_cost_of(frontier.nodes, edges[d].1));
    }
    if closed.contains(neighbour) {
        let k = closed.len() - 1;
        let route = ancestry(frontier.nodes, closed[k], k as nat).reverse();
        lemma_ancestry(positions, edges, frontier, closed, start, end, k, k as nat);
        lemma_route_cost(positions, edges, frontier.nodes, route, start, current, end);
        lemma_walk_push(positions, edges, route, neighbour);
        assert(leads(edges, route.push(neighbour), start, neighbour));
    }
}

/// Looking from the node settled last at some of its neighbours, one after
/// the other, leaves the costs in order, and each of these neighbours costs
/// no more than the way over the node settled last.
pub proof fn lemma_expand_cheapest(
    positions: Seq<Vector>,
    edges: Seq<Edge>,
    frontier: Frontier,
    closed: Seq<NodeIndex>,
    start: NodeIndex,
    end: NodeIndex,
    done: Seq<NodeIndex>,
    towards: Seq<NodeIndex>,
)
    requires
        search_inv(positions, edges, frontier, closed, start, end),
        closed.len() > 0,
        forall|j: int|
            0 <= j < towards.len() ==> edges.contains((closed.last(), #[trigger] towards[j])),
        settled_cheapest(positions, edges, frontier.nodes, closed, start),
        edges_relaxed(positions, edges, frontier.nodes, done),
        closure(edges, frontier.open, closed, done),
        forall|v: NodeIndex| done.contains(v) ==> closed.contains(v),
    ensures
        ({
            let next = expand(frontier, closed, closed.last(), towards, positions[end.0 as int]);
            &&& settled_cheapest(positions, edges, next.nodes, closed, start)
            &&& edges_relaxed(positions, edges, next.nodes, done)
            &&& forall|j: int|
                0 <= j < towards.len() ==> relaxed(
                    positions,
                    next.nodes,
                    closed.last(),
                    #[trigger] towards[j],
                )
            &&& forall|v: NodeIndex|
                closed.contains(v) ==> #[trigger] g_cost_of(next.nodes, v) == g_cost_of(
                    frontier.nodes,
                    v,
                )
            &&& forall|v: NodeIndex|
                reached(frontier.open, closed, v) ==> #[trigger] g_cost_of(next.nodes, v)
                    <= g_cost_of(frontier.nodes, v)
        }),
    decreases towards.len(),
{
    if towards.len() > 0 {
        let target = positions[end.0 as int];
        let current = closed.last();
        let before = towards.drop_last();
        let middle = expand(frontier, closed, current, before, target);
        let next = expand(frontier, closed, current, towards, target);
        assert forall|j: int| 0 <= j < before.len() implies edges.contains(
            (closed.last(), #[trigger] before[j]),
        ) by {
            assert(before[j] == towards[j]);
        }
        lemma_expand(positions, edges, frontier, closed, start, end, before);
        lemma_expand_cheapest(positions, edges, frontier, closed, start, end, done, before);
        assert(towards[towards.len() - 1] == towards.last());
        assert forall|d: int|
            0 <= d < edges.len() && done.contains((#[trigger] edges[d]).0) implies reached(
            middle.open,
            closed,
            edges[d].1,
        ) by {
            assert(reached(frontier.open, closed, edges[d].1));
        }
        lemma_relax(positions, edges, middle, closed, start, end, towards.last());
        lemma_relax_cheapest(positions, edges, middle, closed, start, end, done, towards.last());
        assert(closed[closed.len() - 1] == current);
        assert(closed.contains(current));
        assert forall|j: int| 0 <= j < towards.len() implies relaxed(
            positions,
            next.nodes,
            closed.last(),
            #[trigger] towards[j],
        ) by {
            if j < before.len() {
                assert(before[j] == towards[j]);
                assert(relaxed(positions, middle.nodes, current, before[j]));
                assert(reached(middle.open, closed, before[j]));
                assert(g_cost_of(next.nodes, before[j]) <= g_cost_of(middle.nodes, before[j]));
                assert(g_cost_of(next.nodes, current) == g_cost_of(middle.nodes, current));
            }
        }
        assert forall|v: NodeIndex| closed.contains(v) implies #[trigger] g_cost_of(next.nodes, v)
            == g_cost_of(frontier.nodes, v) by {
            assert(g_cost_of(middle.nodes, v) == g_cost_of(frontier.nodes, v));
        }
        assert forall|v: NodeIndex| reached(frontier.open, closed, v) implies #[trigger] g_cost_of(
            next.nodes,
            v,
        ) <= g_cost_of(frontier.nodes, v) by {
            assert(reached(middle.open, closed, v));
            assert(g_cost_of(middle.nodes, v) <= g_cost_of(frontier.nodes, v));
        }
    }
}

/// One whole step of the search leaves the costs in order.
pub proof fn lemma_step_cheapest(
    positions: Seq<Vector>,
    edges: Seq<Edge>,
    frontier: Frontier,
    closed: Seq<NodeIndex>,
    start: NodeIndex,
    end: NodeIndex,
    i: int,
)
    requires
        step_inv(positions, edges, frontier, closed, start, end),
        cheapest_inv(positions, edges, frontier.nodes, closed, start),
        is_pick(frontier.nodes, frontier.open, i),
    ensures
        cheapest_inv(
            positions,
            edges,
            expand(
                Frontier { nodes: frontier.nodes, open: frontier.open.remove(i) },
                closed.push(frontier.open[i]),
                frontier.open[i],
                neighbours(edges, frontier.open[i]),
                positions[end.0 as int],
            ).nodes,
            closed.push(frontier.open[i]),
            start,
        ),
{
    let current = frontier.open[i];
    let rest = Frontier { nodes: frontier.nodes, open: frontier.open.remove(i) };
    let settled = closed.push(current);
    let towards = neighbours(edges, current);
    let next = expand(rest, settled, current, towards, positions[end.0 as int]);
    lemma_settle(positions, edges, frontier, closed, start, end, i);
    lemma_settle_cheapest(positions, edges, frontier, closed, start, end, i);
    lemma_neighbours(edges, current);
    lemma_push_member(closed, current);
    assert(settled.last() == current);
    lemma_expand_cheapest(positions, edges, rest, settled, start, end, closed, towards);
    assert forall|e: int|
        0 <= e < edges.len() && settled.contains((#[trigger] edges[e]).0) implies relaxed(
        positions,
        next.nodes,
        edges[e].0,
        edges[e].1,
    ) by {
        if !closed.contains(edges[e].0) {
            assert(towards.contains(edges[e].1));
            let j = choose|j: int| 0 <= j < towards.len() && towards[j] == edges[e].1;
            assert(relaxed(positions, next.nodes, settled.last(), towards[j]));
        }
    }
}

} // verus!
