//! What holds of every graph and of every search, proved from the model.

use crate::bookkeeping::{
    h_cost_of, h_costs_kept, lemma_first_frontier, lemma_lists_bounded, lemma_pick_exists,
    lemma_pick_unique, lemma_settle, lemma_step, node_inv, reached, search_inv, step_inv,
};
use crate::cheapest::{
    cheapest_inv, g_cost_of, lemma_settle_cheapest, lemma_step_cheapest,
};
use crate::path::{NodeIndex, NodeView, SearchError};
use crate::routes::{is_route, lemma_route_cost, lemma_trace};
use crate::search::{
    distinct, edges_in_range, expand, find_route, first_frontier, is_walk, joined, leads,
    neighbours, pick, positions_of, reachable, route_cost, search, Edge, Frontier,
};
use crate::vector::Vector;
use vstd::prelude::*;

verus! {

/// Storing each edge once loses no edge and invents none, and no edge is
/// stored twice.
pub proof fn lemma_distinct_members(edges: Seq<Edge>)
    ensures
        distinct(edges).no_duplicates(),
        forall|edge: Edge| #[trigger] distinct(edges).contains(edge) <==> edges.contains(edge),
    decreases edges.len(),
{
    if edges.len() > 0 {
        let before = edges.drop_last();
        let last = edges.last();
        let kept = distinct(before);
        lemma_distinct_members(before);
        assert forall|edge: Edge|
            #[trigger] distinct(edges).contains(edge) <==> edges.contains(edge) by {
            if distinct(edges).contains(edge) {
                let j = choose|j: int| 0 <= j < distinct(edges).len() && distinct(edges)[j] == edge;
                if j < kept.len() {
                    assert(kept[j] == edge);
                    assert(kept.contains(edge));
                    let k = choose|k: int| 0 <= k < before.len() && before[k] == edge;
                    assert(edges[k] == edge);
                } else {
                    assert(edges[edges.len() - 1] == edge);
                }
            }
            if edges.contains(edge) {
                let k = choose|k: int| 0 <= k < edges.len() && edges[k] == edge;
                if k < before.len() {
                    assert(before[k] == edge);
                    assert(kept.contains(edge));
                    let j = choose|j: int| 0 <= j < kept.len() && kept[j] == edge;
                    assert(distinct(edges)[j] == edge);
                } else if !kept.contains(edge) {
                    assert(distinct(edges)[kept.len() as int] == edge);
                }
            }
        }
        if !kept.contains(last) {
            assert forall|j: int, k: int|
                0 <= j < distinct(edges).len() && 0 <= k < distinct(edges).len() && j != k
                implies distinct(edges)[j] != distinct(edges)[k] by {
                if j < kept.len() {
                    assert(kept.contains(kept[j]));
                }
                if k < kept.len() {
                    assert(kept.contains(kept[k]));
                }
            }
        }
    }
}

/// As many edges are stored as the input holds different ones.
pub proof fn lemma_distinct_count(edges: Seq<Edge>)
    ensures
        distinct(edges).len() == edges.to_set().len(),
        distinct(edges).len() <= edges.len(),
    decreases edges.len(),
{
    lemma_distinct_members(edges);
    distinct(edges).unique_seq_to_set();
    assert(distinct(edges).to_set() =~= edges.to_set());
    if edges.len() > 0 {
        lemma_distinct_count(edges.drop_last());
    }
}

/// A list of edges that holds none twice is stored as it is.
pub proof fn lemma_distinct_of_distinct(edges: Seq<Edge>)
    requires
        edges.no_duplicates(),
    ensures
        distinct(edges) == edges,
    decreases edges.len(),
{
    if edges.len() > 0 {
        let before = edges.drop_last();
        lemma_distinct_of_distinct(before);
        if before.contains(edges.last()) {
            let j = choose|j: int| 0 <= j < before.len() && before[j] == edges.last();
            assert(edges[j] == edges[edges.len() - 1]);
        }
        assert(before.push(edges.last()) =~= edges);
    } else {
        assert(edges =~= Seq::<Edge>::empty());
    }
}

/// `i` is the first place at which `edge` occurs in `edges`.
pub open spec fn is_first_place(edges: Seq<Edge>, edge: Edge, i: int) -> bool {
    &&& 0 <= i < edges.len()
    &&& edges[i] == edge
    &&& forall|k: int| 0 <= k < i ==> edges[k] != edge
}

/// The first place at which `edge` occurs in `edges`.
pub open spec fn first_place(edges: Seq<Edge>, edge: Edge) -> int {
    choose|i: int| is_first_place(edges, edge, i)
}

/// An edge occurs first at one place only.
pub proof fn lemma_first_place_unique(edges: Seq<Edge>, edge: Edge, i: int)
    requires
        is_first_place(edges, edge, i),
    ensures
        first_place(edges, edge) == i,
{
    let p = first_place(edges, edge);
    assert(is_first_place(edges, edge, p));
    if p < i {
        assert(edges[p] != edge);
    }
    if i < p {
        assert(edges[i] != edge);
    }
}

/// An edge that occurs in a list has a first place there.
pub proof fn lemma_first_place_exists(edges: Seq<Edge>, edge: Edge)
    requires
        edges.contains(edge),
    ensures
        is_first_place(edges, edge, first_place(edges, edge)),
    decreases edges.len(),
{
    let before = edges.drop_last();
    if before.contains(edge) {
        lemma_first_place_exists(before, edge);
        let p = first_place(before, edge);
        assert(edges[p] == before[p]);
        assert forall|k: int| 0 <= k < p implies edges[k] != edge by {
            assert(edges[k] == before[k]);
        }
        assert(is_first_place(edges, edge, p));
    } else {
        let i = choose|i: int| 0 <= i < edges.len() && edges[i] == edge;
        if i < before.len() {
            assert(before[i] == edge);
        }
        assert forall|k: int| 0 <= k < edges.len() - 1 implies edges[k] != edge by {
            assert(before[k] == edges[k]);
        }
        assert(is_first_place(edges, edge, edges.len() - 1));
    }
}

/// The edges are stored in the order in which they first occur.
pub proof fn lemma_distinct_order(edges: Seq<Edge>)
    ensures
        forall|i: int, j: int|
            0 <= i < j < distinct(edges).len() ==> first_place(edges, #[trigger] distinct(edges)[i])
                < first_place(edges, #[trigger] distinct(edges)[j]),
    decreases edges.len(),
{
    if edges.len() > 0 {
        let before = edges.drop_last();
        let last = edges.last();
        let kept = distinct(before);
        let stored = distinct(edges);
        lemma_distinct_order(before);
        lemma_distinct_members(before);
        assert forall|i: int| 0 <= i < kept.len() implies first_place(edges, #[trigger] kept[i])
            == first_place(before, kept[i]) && first_place(edges, kept[i]) < before.len() by {
            assert(kept.contains(kept[i]));
            lemma_first_place_exists(before, kept[i]);
            let p = first_place(before, kept[i]);
            assert(edges[p] == before[p]);
            assert forall|k: int| 0 <= k < p implies edges[k] != kept[i] by {
                assert(edges[k] == before[k]);
            }
            lemma_first_place_unique(edges, kept[i], p);
        }
        assert forall|i: int, j: int| 0 <= i < j < stored.len() implies first_place(
            edges,
            #[trigger] stored[i],
        ) < first_place(edges, #[trigger] stored[j]) by {
            assert(stored[i] == kept[i]);
            if j < kept.len() {
                assert(stored[j] == kept[j]);
            } else {
                assert(stored[j] == last);
                assert forall|k: int| 0 <= k < edges.len() - 1 implies edges[k] != last by {
                    assert(before[k] == edges[k]);
                    assert(before.contains(before[k]));
                }
                lemma_first_place_unique(edges, last, edges.len() - 1);
            }
        }
    }
}

/// Every distance that `nodes` holds is the distance from that node to the
/// node `target`.
pub open spec fn measured(positions: Seq<Vector>, nodes: Seq<NodeView>, target: NodeIndex) -> bool {
    forall|v: NodeIndex|
        v.0 < positions.len() ==> (#[trigger] h_cost_of(nodes, v) matches Some(h) ==> h
            == positions[target.0 as int].spec_distance(positions[v.0 as int]))
}

/// Where the open list is empty between two steps, no chain of edges leads
/// from `start` to `end`.
proof fn lemma_unreachable(
    positions: Seq<Vector>,
    edges: Seq<Edge>,
    frontier: Frontier,
    closed: Seq<NodeIndex>,
    start: NodeIndex,
    end: NodeIndex,
)
    requires
        step_inv(positions, edges, frontier, closed, start, end),
        frontier.open.len() == 0,
    ensures
        !reachable(edges, start, end),
{
    assert forall|walk: Seq<NodeIndex>| !#[trigger] leads(edges, walk, start, end) by {
        if leads(edges, walk, start, end) {
            lemma_walk_stays(positions, edges, frontier, closed, start, end, walk, walk.len() - 1);
        }
    }
}

/// A chain of edges that starts at `start` never leaves the settled nodes,
/// where the open list is empty between two steps.
proof fn lemma_walk_stays(
    positions: Seq<Vector>,
    edges: Seq<Edge>,
    frontier: Frontier,
    closed: Seq<NodeIndex>,
    start: NodeIndex,
    end: NodeIndex,
    walk: Seq<NodeIndex>,
    i: int,
)
    requires
        step_inv(positions, edges, frontier, closed, start, end),
        frontier.open.len() == 0,
        0 <= i < walk.len(),
        walk[0] == start,
        is_walk(edges, walk),
    ensures
        closed.contains(walk[i]),
    decreases i,
{
    if i == 0 {
        if closed.len() == 0 {
            assert(frontier.open.len() == 1);
        }
        assert(closed[0] == start);
    } else {
        lemma_walk_stays(positions, edges, frontier, closed, start, end, walk, i - 1);
        assert(joined(edges, walk, i - 1));
        let e = choose|e: int| 0 <= e < edges.len() && edges[e] == (walk[i - 1], walk[i]);
        assert(closed.contains(edges[e].0));
        assert(reached(frontier.open, closed, edges[e].1));
        if frontier.open.contains(walk[i]) {
            let j = choose|j: int| 0 <= j < frontier.open.len() && frontier.open[j] == walk[i];
        }
    }
}

/// No chain of edges from `start` to `end` costs less than `route`.
pub open spec fn is_cheapest(
    positions: Seq<Vector>,
    edges: Seq<Edge>,
    route: Seq<NodeIndex>,
    start: NodeIndex,
    end: NodeIndex,
) -> bool {
    forall|walk: Seq<NodeIndex>| #[trigger]
        leads(edges, walk, start, end) ==> route_cost(positions, route) <= route_cost(
            positions,
            walk,
        )
}

/// What a search gives from any point between two of its steps: it moves no
/// node, every distance that it holds in the end is the distance to `end`,
/// and a distance that was measured before stays as it was. It ends with a
/// cheapest route, or without one where no chain of edges leads from `start`
/// to `end`.
pub proof fn lemma_search(
    positions: Seq<Vector>,
    edges: Seq<Edge>,
    frontier: Frontier,
    closed: Seq<NodeIndex>,
    start: NodeIndex,
    end: NodeIndex,
)
    requires
        step_inv(positions, edges, frontier, closed, start, end),
        cheapest_inv(positions, edges, frontier.nodes, closed, start),
    ensures
        ({
            let outcome = search(positions, edges, frontier, closed, start, end);
            &&& positions_of(outcome.nodes) == positions
            &&& measured(positions, outcome.nodes, end)
            &&& h_costs_kept(frontier.nodes, outcome.nodes, positions.len())
            &&& match outcome.route {
                Ok(route) => {
                    &&& is_route(positions, edges, outcome.nodes, route, start, end)
                    &&& outcome.nodes[end.0 as int].g_cost == Some(route_cost(positions, route))
                    &&& is_cheapest(positions, edges, route, start, end)
                },
                Err(e) => e == SearchError::NoPathFound && !reachable(edges, start, end),
            }
        }),
    decreases positions.len() - closed.len(),
{
    let outcome = search(positions, edges, frontier, closed, start, end);
    if frontier.open.len() == 0 {
        lemma_unreachable(positions, edges, frontier, closed, start, end);
        lemma_measured(positions, edges, frontier, closed, start, end);
    } else {
        lemma_lists_bounded(positions, edges, frontier, closed, start, end);
        let w = lemma_pick_exists(frontier.nodes, frontier.open);
        lemma_pick_unique(frontier.nodes, frontier.open, w);
        let i = pick(frontier.nodes, frontier.open);
        let current = frontier.open[i];
        let settled = closed.push(current);
        let rest = Frontier { nodes: frontier.nodes, open: frontier.open.remove(i) };
        lemma_settle(positions, edges, frontier, closed, start, end, i);
        if current == end {
            assert(settled[settled.len() - 1] == end);
            lemma_trace(positions, edges, rest, settled, start, end);
            lemma_measured(positions, edges, rest, settled, start, end);
            lemma_settle_cheapest(positions, edges, frontier, closed, start, end, i);
            let route = outcome.route.unwrap();
            lemma_route_cost(positions, edges, outcome.nodes, route, start, end, end);
            assert forall|walk: Seq<NodeIndex>| #[trigger]
                leads(edges, walk, start, end) implies route_cost(positions, route) <= route_cost(
                positions,
                walk,
            ) by {
                assert(settled.contains(end));
                assert(g_cost_of(outcome.nodes, end) <= route_cost(positions, walk));
            }
        } else {
            let next = expand(
                rest,
                settled,
                current,
                neighbours(edges, current),
                positions[end.0 as int],
            );
            lemma_step(positions, edges, frontier, closed, start, end, i);
            lemma_step_cheapest(positions, edges, frontier, closed, start, end, i);
            lemma_search(positions, edges, next, settled, start, end);
            assert forall|v: NodeIndex|
                v.0 < positions.len() && h_cost_of(frontier.nodes, v) is Some
                implies #[trigger] h_cost_of(outcome.nodes, v) == h_cost_of(frontier.nodes, v) by {
                assert(h_cost_of(next.nodes, v) == h_cost_of(frontier.nodes, v));
            }
        }
    }
}

/// Every distance that the bookkeeping holds is the distance to `end`.
proof fn lemma_measured(
    positions: Seq<Vector>,
    edges: Seq<Edge>,
    frontier: Frontier,
    closed: Seq<NodeIndex>,
    start: NodeIndex,
    end: NodeIndex,
)
    requires
        search_inv(positions, edges, frontier, closed, start, end),
    ensures
        measured(positions, frontier.nodes, end),
{
    assert forall|v: NodeIndex| v.0 < positions.len() implies (#[trigger] h_cost_of(
        frontier.nodes,
        v,
    ) matches Some(h) ==> h == positions[end.0 as int].spec_distance(positions[v.0 as int])) by {
        assert(node_inv(positions, edges, frontier, closed, start, end, v));
    }
}

/// What a search from `start` to `end` gives on any graph whose edges join
/// nodes that exist.
///
/// It fails with `InvalidEndpoint` exactly where `start` or `end` is no node
/// of the graph, and with `NoPathFound` exactly where both are nodes and no
/// chain of edges leads from `start` to `end`. It never fails otherwise. So it
/// returns a route exactly where `end` can be reached from `start`, and what
/// it returns then is a route from `start` to `end` that the nodes record; the
/// cost of `end` is the cost of that route, and no chain of edges from `start`
/// to `end` costs less. The search moves no node, and every distance that a
/// node holds after it is the distance to `end`.
pub proof fn lemma_find_route(
    nodes: Seq<NodeView>,
    edges: Seq<Edge>,
    start: NodeIndex,
    end: NodeIndex,
)
    requires
        edges_in_range(edges, nodes.len()),
    ensures
        ({
            let positions = positions_of(nodes);
            let outcome = find_route(nodes, edges, start, end);
            let valid = start.0 < nodes.len() && end.0 < nodes.len();
            &&& positions_of(outcome.nodes) == positions
            &&& outcome.route == Err::<Seq<NodeIndex>, SearchError>(SearchError::InvalidEndpoint)
                <==> !valid
            &&& !valid ==> outcome.nodes == nodes
            &&& outcome.route == Err::<Seq<NodeIndex>, SearchError>(SearchError::NoPathFound)
                <==> valid && !reachable(edges, start, end)
            &&& outcome.route != Err::<Seq<NodeIndex>, SearchError>(
                SearchError::InternalInconsistency,
            )
            &&& outcome.route is Ok <==> valid && reachable(edges, start, end)
            &&& outcome.route matches Ok(route) ==> {
                &&& is_route(positions, edges, outcome.nodes, route, start, end)
                &&& outcome.nodes[end.0 as int].g_cost == Some(route_cost(positions, route))
                &&& is_cheapest(positions, edges, route, start, end)
            }
            &&& valid ==> measured(positions, outcome.nodes, end)
        }),
{
    let positions = positions_of(nodes);
    let outcome = find_route(nodes, edges, start, end);
    if start.0 < nodes.len() && end.0 < nodes.len() {
        lemma_first_frontier(positions, edges, start, end);
        lemma_search(
            positions,
            edges,
            first_frontier(positions, start, end),
            Seq::empty(),
            start,
            end,
        );
        if outcome.route is Ok {
            assert(leads(edges, outcome.route.unwrap(), start, end));
        }
    }
}

/// A search that follows another on the same graph, with the same `start`
/// and `end`, gives what the first one gave and leaves the nodes as the first
/// one left them: the first one moves no node, and the second one starts by
/// forgetting what the first has written down.
pub proof fn lemma_search_repeatable(
    nodes: Seq<NodeView>,
    edges: Seq<Edge>,
    start: NodeIndex,
    end: NodeIndex,
)
    requires
        edges_in_range(edges, nodes.len()),
    ensures
        find_route(find_route(nodes, edges, start, end).nodes, edges, start, end) == find_route(
            nodes,
            edges,
            start,
            end,
        ),
{
    lemma_find_route(nodes, edges, start, end);
    let first = find_route(nodes, edges, start, end);
    assert(first.nodes.len() == positions_of(first.nodes).len());
}

/// The outcome of a search depends on the positions of the nodes and on
/// nothing else that they hold.
pub proof fn lemma_search_forgets(
    one: Seq<NodeView>,
    other: Seq<NodeView>,
    edges: Seq<Edge>,
    start: NodeIndex,
    end: NodeIndex,
)
    requires
        positions_of(one) == positions_of(other),
        start.0 < one.len(),
        end.0 < one.len(),
    ensures
        find_route(one, edges, start, end) == find_route(other, edges, start, end),
{
    assert(one.len() == positions_of(one).len());
    assert(other.len() == positions_of(other).len());
}

/// A distance is measured once: measuring a node again, to whatever target,
/// leaves it as the first measuring left it, with the distance to the first
/// target.
pub proof fn lemma_measured_once(node: NodeView, first: Vector, second: Vector)
    ensures
        node.with_h_cost(first).with_h_cost(second) == node.with_h_cost(first),
        node.h_cost is None ==> node.with_h_cost(first).h_cost == Some(
            first.spec_distance(node.position),
        ),
        node.h_cost is Some ==> node.with_h_cost(first) == node,
{
}

} // verus!
