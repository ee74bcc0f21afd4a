//! The mathematical model of the search: what a graph is, how one step of the
//! search changes the bookkeeping, and which route the whole search returns.

use crate::path::{NodeIndex, NodeView, SearchError};
use crate::vector::Vector;
use vstd::prelude::*;

verus! {

/// A directed edge: where it starts and where it ends.
pub type Edge = (NodeIndex, NodeIndex);

/// `edges` without its repetitions: of equal edges the first stays, and the
/// edges that stay keep their order.
pub open spec fn distinct(edges: Seq<Edge>) -> Seq<Edge>
    decreases edges.len(),
{
    if edges.len() == 0 {
        Seq::empty()
    } else {
        let before = distinct(edges.drop_last());
        if before.contains(edges.last()) {
            before
        } else {
            before.push(edges.last())
        }
    }
}

/// Every edge joins two of the `n` nodes.
pub open spec fn edges_in_range(edges: Seq<Edge>, n: nat) -> bool {
    forall|i: int| 0 <= i < edges.len() ==> (#[trigger] edges[i]).0.0 < n && edges[i].1.0 < n
}

/// The bookkeeping of a graph on which no search has run: one node for each
/// position.
pub open spec fn fresh_nodes(positions: Seq<Vector>) -> Seq<NodeView> {
    Seq::new(positions.len(), |i: int| NodeView::fresh(positions[i]))
}

/// The positions of the nodes, in their order.
pub open spec fn positions_of(nodes: Seq<NodeView>) -> Seq<Vector> {
    Seq::new(nodes.len(), |i: int| nodes[i].position)
}

/// The part of the bookkeeping that one step of the search changes: the nodes
/// and the open list, the nodes that were found but not yet settled.
pub struct Frontier {
    pub nodes: Seq<NodeView>,
    pub open: Seq<NodeIndex>,
}

/// How a finished search leaves the nodes, and the route that it returns: the
/// indices of the nodes from `start` to `end`.
pub struct Outcome {
    pub nodes: Seq<NodeView>,
    pub route: Result<Seq<NodeIndex>, SearchError>,
}

/// The order of priorities: a priority that is not known comes before every
/// known one.
pub open spec fn cost_less(a: Option<nat>, b: Option<nat>) -> bool {
    match (a, b) {
        (None, Some(_)) => true,
        (Some(x), Some(y)) => x < y,
        _ => false,
    }
}

/// The priority of the `i`-th member of `open`.
pub open spec fn priority(nodes: Seq<NodeView>, open: Seq<NodeIndex>, i: int) -> Option<nat> {
    nodes[open[i].0 as int].f_cost()
}

/// `pick` is the place in `open` of the member that is settled next: no
/// member has a lower priority, and every later member has a higher one. So
/// of several members with the lowest priority the last one is taken.
pub open spec fn is_pick(nodes: Seq<NodeView>, open: Seq<NodeIndex>, pick: int) -> bool {
    &&& 0 <= pick < open.len()
    &&& forall|j: int|
        0 <= j < open.len() ==> !cost_less(
            #[trigger] priority(nodes, open, j),
            priority(nodes, open, pick),
        )
    &&& forall|j: int|
        pick < j < open.len() ==> cost_less(
            priority(nodes, open, pick),
            #[trigger] priority(nodes, open, j),
        )
}

/// The place in `open` of the member that is settled next.
pub open spec fn pick(nodes: Seq<NodeView>, open: Seq<NodeIndex>) -> int {
    choose|i: int| is_pick(nodes, open, i)
}

/// The nodes to which a connection leads from `node`, in the order of the
/// connections.
pub open spec fn neighbours(edges: Seq<Edge>, node: NodeIndex) -> Seq<NodeIndex>
    decreases edges.len(),
{
    if edges.len() == 0 {
        Seq::empty()
    } else {
        let before = neighbours(edges.drop_last(), node);
        if edges.last().0 == node {
            before.push(edges.last().1)
        } else {
            before
        }
    }
}

/// The search looks from the node `current`, which it has just settled, at
/// `neighbour`. A settled neighbour is left alone. Otherwise the path over
/// `current` replaces what was known of `neighbour` if the neighbour is new to
/// the open list, or has no cost yet, or has a higher one. A neighbour that is
/// new to the open list has its distance to `target` measured and joins the
/// list at its end.
pub open spec fn relax(
    frontier: Frontier,
    closed: Seq<NodeIndex>,
    current: NodeIndex,
    neighbour: NodeIndex,
    target: Vector,
) -> Frontier {
    let from = frontier.nodes[current.0 as int];
    let to = frontier.nodes[neighbour.0 as int];
    let reached = to.reached_from(from, current);
    let listed = frontier.open.contains(neighbour);
    if closed.contains(neighbour) {
        frontier
    } else if !listed {
        Frontier {
            nodes: frontier.nodes.update(neighbour.0 as int, reached.with_h_cost(target)),
            open: frontier.open.push(neighbour),
        }
    } else if to.g_cost is None || to.g_cost.unwrap() > reached.g_cost.unwrap() {
        Frontier { nodes: frontier.nodes.update(neighbour.0 as int, reached), open: frontier.open }
    } else {
        frontier
    }
}

/// The search looks from `current` at each of `towards` in turn.
pub open spec fn expand(
    frontier: Frontier,
    closed: Seq<NodeIndex>,
    current: NodeIndex,
    towards: Seq<NodeIndex>,
    target: Vector,
) -> Frontier
    decreases towards.len(),
{
    if towards.len() == 0 {
        frontier
    } else {
        relax(
            expand(frontier, closed, current, towards.drop_last(), target),
            closed,
            current,
            towards.last(),
            target,
        )
    }
}

/// The parent links followed from `from`: `from` itself, its parent, the
/// parent of that, until a node has no parent or `steps` links were followed.
pub open spec fn ancestry(nodes: Seq<NodeView>, from: NodeIndex, steps: nat) -> Seq<NodeIndex>
    decreases steps,
{
    match nodes[from.0 as int].parent {
        Some(parent) => if steps > 0 {
            seq![from] + ancestry(nodes, parent, (steps - 1) as nat)
        } else {
            seq![from]
        },
        None => seq![from],
    }
}

/// The route that the parent links give: from `end` back as far as they lead,
/// then turned around. It counts only if it begins at `start`.
pub open spec fn trace(nodes: Seq<NodeView>, start: NodeIndex, end: NodeIndex) -> Result<
    Seq<NodeIndex>,
    SearchError,
> {
    let back = ancestry(nodes, end, nodes.len());
    if back.last() == start {
        Ok(back.reverse())
    } else {
        Err(SearchError::InternalInconsistency)
    }
}

/// How the search starts: `start` costs nothing, its distance to `end` is
/// measured, and it alone is on the open list.
pub open spec fn first_frontier(
    positions: Seq<Vector>,
    start: NodeIndex,
    end: NodeIndex,
) -> Frontier {
    let first = NodeView::fresh(positions[start.0 as int]).with_h_cost(positions[end.0 as int]);
    Frontier { nodes: fresh_nodes(positions).update(start.0 as int, first), open: seq![start] }
}

/// The search from the point where `frontier` is its bookkeeping and `closed`
/// holds the settled nodes. With nothing on the open list there is no path.
/// Otherwise the member of the open list with the lowest priority is settled:
/// if it is `end`, the parent links give the route; if not, the search looks
/// at its neighbours and goes on.
pub open spec fn search(
    positions: Seq<Vector>,
    edges: Seq<Edge>,
    frontier: Frontier,
    closed: Seq<NodeIndex>,
    start: NodeIndex,
    end: NodeIndex,
) -> Outcome
    decreases positions.len() - closed.len(),
{
    if frontier.open.len() == 0 {
        Outcome { nodes: frontier.nodes, route: Err(SearchError::NoPathFound) }
    } else if closed.len() >= positions.len() {
        Outcome { nodes: frontier.nodes, route: Err(SearchError::InternalInconsistency) }
    } else {
        let i = pick(frontier.nodes, frontier.open);
        let current = frontier.open[i];
        let settled = closed.push(current);
        let rest = Frontier { nodes: frontier.nodes, open: frontier.open.remove(i) };
        if current == end {
            Outcome { nodes: frontier.nodes, route: trace(frontier.nodes, start, end) }
        } else {
            search(
                positions,
                edges,
                expand(rest, settled, current, neighbours(edges, current), positions[end.0 as int]),
                settled,
                start,
                end,
            )
        }
    }
}

/// What a search from `start` to `end` does on the graph with the nodes
/// `nodes`, joined by `edges`. Where `start` or `end` is no node of the graph,
/// nothing changes. Otherwise the search starts from fresh bookkeeping, so
/// its outcome depends on the positions of the nodes and on nothing else that
/// they hold.
pub open spec fn find_route(
    nodes: Seq<NodeView>,
    edges: Seq<Edge>,
    start: NodeIndex,
    end: NodeIndex,
) -> Outcome {
    let positions = positions_of(nodes);
    if start.0 < nodes.len() && end.0 < nodes.len() {
        search(positions, edges, first_frontier(positions, start, end), Seq::empty(), start, end)
    } else {
        Outcome { nodes, route: Err(SearchError::InvalidEndpoint) }
    }
}

/// An edge leads from the `i`-th node of `walk` to the next.
pub open spec fn joined(edges: Seq<Edge>, walk: Seq<NodeIndex>, i: int) -> bool {
    edges.contains((walk[i], walk[i + 1]))
}

/// `walk` is a chain of edges: each of its nodes is joined to the next.
pub open spec fn is_walk(edges: Seq<Edge>, walk: Seq<NodeIndex>) -> bool {
    forall|i: int| 0 <= i < walk.len() - 1 ==> #[trigger] joined(edges, walk, i)
}

/// `walk` is a chain of edges that leads from `from` to `to`.
pub open spec fn leads(
    edges: Seq<Edge>,
    walk: Seq<NodeIndex>,
    from: NodeIndex,
    to: NodeIndex,
) -> bool {
    walk.len() > 0 && walk[0] == from && walk.last() == to && is_walk(edges, walk)
}

/// Some chain of edges leads from `from` to `to`.
pub open spec fn reachable(edges: Seq<Edge>, from: NodeIndex, to: NodeIndex) -> bool {
    exists|walk: Seq<NodeIndex>| #[trigger] leads(edges, walk, from, to)
}

/// The cost of a route: the sum of the distances between each node of it and
/// the next, each rounded up.
pub open spec fn route_cost(positions: Seq<Vector>, route: Seq<NodeIndex>) -> nat
    decreases route.len(),
{
    if route.len() <= 1 {
        0
    } else {
        route_cost(positions, route.drop_last())
            + positions[route[route.len() - 2].0 as int].spec_distance_up(
            positions[route.last().0 as int],
        )
    }
}


} // verus!
