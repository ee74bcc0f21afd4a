//! Routes: what it means that the bookkeeping records one, and the proof that
//! the parent links of a search do.

use crate::bookkeeping::{in_range, lemma_lists_bounded, node_inv, search_inv};
use crate::path::{NodeIndex, NodeView};
use crate::search::{
    ancestry, is_walk, joined, positions_of, route_cost, trace, Edge, Frontier,
};
use crate::vector::Vector;
use vstd::prelude::*;

verus! {

/// `nodes` records the step to the `i`-th node of `route`: that node has the
/// node before it as its parent, and costs what that one costs and the step
/// between them.
pub open spec fn recorded(
    positions: Seq<Vector>,
    nodes: Seq<NodeView>,
    route: Seq<NodeIndex>,
    i: int,
) -> bool {
    let node = nodes[route[i].0 as int];
    let before = nodes[route[i - 1].0 as int];
    &&& node.parent == Some(route[i - 1])
    &&& before.g_cost is Some
    &&& node.g_cost == Some(
        before.g_cost.unwrap() + positions[route[i - 1].0 as int].spec_distance_up(
            positions[route[i].0 as int],
        ),
    )
}

/// `route` leads from `start` to `last` along edges of the graph, through
/// nodes that are all different, and `nodes` records it: `start` costs
/// nothing and has no parent, `nodes` records every step of the route, and
/// each node of the route knows its distance to `target`.
pub open spec fn records_route(
    positions: Seq<Vector>,
    edges: Seq<Edge>,
    nodes: Seq<NodeView>,
    route: Seq<NodeIndex>,
    start: NodeIndex,
    last: NodeIndex,
    target: NodeIndex,
) -> bool {
    &&& route.len() > 0
    &&& route[0] == start
    &&& route.last() == last
    &&& in_range(route, positions.len())
    &&& route.no_duplicates()
    &&& is_walk(edges, route)
    &&& nodes[start.0 as int].parent is None
    &&& nodes[start.0 as int].g_cost == Some(0nat)
    &&& forall|i: int| 0 < i < route.len() ==> #[trigger] recorded(positions, nodes, route, i)
    &&& forall|i: int|
        0 <= i < route.len() ==> nodes[(#[trigger] route[i]).0 as int].h_cost == Some(
            positions[target.0 as int].spec_distance(positions[route[i].0 as int]),
        )
}

/// `route` is a route from `start` to `end` that `nodes` records, with all
/// distances measured to `end`.
pub open spec fn is_route(
    positions: Seq<Vector>,
    edges: Seq<Edge>,
    nodes: Seq<NodeView>,
    route: Seq<NodeIndex>,
    start: NodeIndex,
    end: NodeIndex,
) -> bool {
    records_route(positions, edges, nodes, route, start, end, end)
}

/// The place of the settled node `v` among the settled nodes.
pub open spec fn place(closed: Seq<NodeIndex>, v: NodeIndex) -> int {
    choose|r: int| 0 <= r < closed.len() && closed[r] == v
}

/// The parent links lead from every settled node back to `start`, through
/// nodes that were settled ever earlier: read backwards they are a route.
pub proof fn lemma_ancestry(
    positions: Seq<Vector>,
    edges: Seq<Edge>,
    frontier: Frontier,
    closed: Seq<NodeIndex>,
    start: NodeIndex,
    end: NodeIndex,
    k: int,
    steps: nat,
)
    requires
        search_inv(positions, edges, frontier, closed, start, end),
        0 <= k < closed.len(),
        steps >= k,
    ensures
        ancestry(frontier.nodes, closed[k], steps).last() == start,
        records_route(
            positions,
            edges,
            frontier.nodes,
            ancestry(frontier.nodes, closed[k], steps).reverse(),
            start,
            closed[k],
            end,
        ),
        forall|i: int|
            0 <= i < ancestry(frontier.nodes, closed[k], steps).len() ==> closed.contains(
                #[trigger] ancestry(frontier.nodes, closed[k], steps).reverse()[i],
            ) && place(closed, ancestry(frontier.nodes, closed[k], steps).reverse()[i]) <= k,
    decreases k,
{
    let nodes = frontier.nodes;
    let back = ancestry(nodes, closed[k], steps);
    let route = back.reverse();
    assert(closed.contains(closed[k]));
    assert(place(closed, closed[k]) == k);
    assert(closed[0] == start);
    assert(closed.contains(start));
    assert(node_inv(positions, edges, frontier, closed, start, end, closed[k]));
    assert(node_inv(positions, edges, frontier, closed, start, end, start));
    assert(positions_of(nodes)[closed[k].0 as int] == positions[closed[k].0 as int]);
    if closed[k] == start {
        assert(back =~= seq![closed[k]]);
        assert(route =~= seq![closed[k]]);
    } else {
        let node = nodes[closed[k].0 as int];
        let j = choose|j: int| 0 <= j < k && node.parent == Some(#[trigger] closed[j]);
        let rest = ancestry(nodes, closed[j], (steps - 1) as nat);
        let shorter = rest.reverse();
        lemma_ancestry(positions, edges, frontier, closed, start, end, j, (steps - 1) as nat);
        assert(back =~= seq![closed[k]] + rest);
        assert(back.last() == rest.last());
        assert(route =~= shorter.push(closed[k]));
        lemma_one_more_step(positions, edges, nodes, shorter, start, closed[j], closed[k], end);
        assert forall|i: int|
            0 <= i < route.len() implies closed.contains(#[trigger] route[i]) && place(
            closed,
            route[i],
        ) <= k by {
            if i < shorter.len() {
                assert(route[i] == shorter[i]);
                assert(closed.contains(shorter[i]) && place(closed, shorter[i]) <= j);
            }
        }
        assert forall|a: int, b: int|
            0 <= a < route.len() && 0 <= b < route.len() && a != b implies route[a]
            != route[b] by {
            if a < shorter.len() {
                assert(route[a] == shorter[a]);
                assert(closed.contains(shorter[a]) && place(closed, shorter[a]) <= j);
            }
            if b < shorter.len() {
                assert(route[b] == shorter[b]);
                assert(closed.contains(shorter[b]) && place(closed, shorter[b]) <= j);
            }
        }
    }
}

/// A recorded route with one more recorded step at its end has everything of
/// a recorded route, except that the new node may be one of the old ones.
pub proof fn lemma_one_more_step(
    positions: Seq<Vector>,
    edges: Seq<Edge>,
    nodes: Seq<NodeView>,
    route: Seq<NodeIndex>,
    start: NodeIndex,
    last: NodeIndex,
    next: NodeIndex,
    target: NodeIndex,
)
    requires
        records_route(positions, edges, nodes, route, start, last, target),
        next.0 < positions.len(),
        edges.contains((last, next)),
        nodes[next.0 as int].parent == Some(last),
        nodes[last.0 as int].g_cost is Some,
        nodes[next.0 as int].g_cost == Some(
            nodes[last.0 as int].g_cost.unwrap() + positions[last.0 as int].spec_distance_up(
                positions[next.0 as int],
            ),
        ),
        nodes[next.0 as int].h_cost == Some(
            positions[target.0 as int].spec_distance(positions[next.0 as int]),
        ),
    ensures
        route.push(next).len() > 0,
        route.push(next)[0] == start,
        route.push(next).last() == next,
        in_range(route.push(next), positions.len()),
        is_walk(edges, route.push(next)),
        forall|i: int|
            0 < i < route.push(next).len() ==> #[trigger] recorded(
                positions,
                nodes,
                route.push(next),
                i,
            ),
        forall|i: int|
            0 <= i < route.push(next).len() ==> nodes[(#[trigger] route.push(
                next,
            )[i]).0 as int].h_cost == Some(
                positions[target.0 as int].spec_distance(
                    positions[route.push(next)[i].0 as int],
                ),
            ),
{
    let longer = route.push(next);
    assert forall|i: int|
        0 <= i < longer.len() implies (#[trigger] longer[i]).0 < positions.len() by {
        if i < route.len() {
            assert(longer[i] == route[i]);
        }
    }
    assert forall|i: int| 0 <= i < longer.len() - 1 implies #[trigger] joined(edges, longer, i) by {
        if i < route.len() - 1 {
            assert(joined(edges, route, i));
            assert(longer[i] == route[i] && longer[i + 1] == route[i + 1]);
        } else {
            assert(longer[i] == last && longer[i + 1] == next);
        }
    }
    assert forall|i: int| 0 < i < longer.len() implies #[trigger] recorded(
        positions,
        nodes,
        longer,
        i,
    ) by {
        if i < route.len() {
            assert(recorded(positions, nodes, route, i));
            assert(longer[i] == route[i] && longer[i - 1] == route[i - 1]);
        } else {
            assert(longer[i - 1] == last && longer[i] == next);
        }
    }
    assert forall|i: int|
        0 <= i < longer.len() implies nodes[(#[trigger] longer[i]).0 as int].h_cost
        == Some(positions[target.0 as int].spec_distance(positions[longer[i].0 as int])) by {
        if i < route.len() {
            assert(longer[i] == route[i]);
        }
    }
}

/// Once `end` is settled, the parent links give a route from `start` to
/// `end`.
pub proof fn lemma_trace(
    positions: Seq<Vector>,
    edges: Seq<Edge>,
    frontier: Frontier,
    closed: Seq<NodeIndex>,
    start: NodeIndex,
    end: NodeIndex,
)
    requires
        search_inv(positions, edges, frontier, closed, start, end),
        closed.contains(end),
    ensures
        trace(frontier.nodes, start, end) is Ok,
        is_route(
            positions,
            edges,
            frontier.nodes,
            trace(frontier.nodes, start, end).unwrap(),
            start,
            end,
        ),
{
    let k = choose|k: int| 0 <= k < closed.len() && closed[k] == end;
    lemma_lists_bounded(positions, edges, frontier, closed, start, end);
    lemma_ancestry(positions, edges, frontier, closed, start, end, k, frontier.nodes.len());
}

/// The node at the end of a recorded route costs what the route costs.
pub proof fn lemma_route_cost(
    positions: Seq<Vector>,
    edges: Seq<Edge>,
    nodes: Seq<NodeView>,
    route: Seq<NodeIndex>,
    start: NodeIndex,
    last: NodeIndex,
    target: NodeIndex,
)
    requires
        records_route(positions, edges, nodes, route, start, last, target),
    ensures
        nodes[last.0 as int].g_cost == Some(route_cost(positions, route)),
    decreases route.len(),
{
    if route.len() > 1 {
        let shorter = route.drop_last();
        let before = route[route.len() - 2];
        assert(recorded(positions, nodes, route, route.len() - 1));
        assert forall|i: int|
            0 <= i < shorter.len() - 1 implies #[trigger] joined(edges, shorter, i) by {
            assert(joined(edges, route, i));
        }
        assert forall|i: int| 0 < i < shorter.len() implies #[trigger] recorded(
            positions,
            nodes,
            shorter,
            i,
        ) by {
            assert(recorded(positions, nodes, route, i));
        }
        assert forall|i: int|
            0 <= i < shorter.len() implies nodes[(#[trigger] shorter[i]).0 as int].h_cost
            == Some(positions[target.0 as int].spec_distance(positions[shorter[i].0 as int])) by {
            assert(shorter[i] == route[i]);
        }
        assert(in_range(shorter, positions.len())) by {
            assert forall|i: int| 0 <= i < shorter.len() implies (#[trigger] shorter[i]).0
                < positions.len() by {
                assert(shorter[i] == route[i]);
            }
        }
        lemma_route_cost(positions, edges, nodes, shorter, start, before, target);
    }
}

} // verus!
