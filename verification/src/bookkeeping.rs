//! What holds of the bookkeeping at every point of a search, and the proofs
//! that each step of the search keeps it.

use crate::path::{NodeIndex, NodeView};
use crate::search::{
    cost_less, edges_in_range, expand, first_frontier, is_pick, neighbours, pick, positions_of,
    priority, relax, Edge, Frontier,
};
use crate::vector::{lemma_distance_bound, Vector};
use vstd::prelude::*;

verus! {

/// Every member of `list` is one of the `n` nodes.
pub open spec fn in_range(list: Seq<NodeIndex>, n: nat) -> bool {
    forall|i: int| 0 <= i < list.len() ==> (#[trigger] list[i]).0 < n
}

/// The search has found the node `v`: it is on the open list or settled.
pub open spec fn reached(open: Seq<NodeIndex>, closed: Seq<NodeIndex>, v: NodeIndex) -> bool {
    open.contains(v) || closed.contains(v)
}

/// The distance to the target that `nodes` holds for the node `v`.
pub open spec fn h_cost_of(nodes: Seq<NodeView>, v: NodeIndex) -> Option<nat> {
    nodes[v.0 as int].h_cost
}

/// Of the `n` nodes, each that has its distance to the target in `before`
/// has the same distance in `after`.
pub open spec fn h_costs_kept(before: Seq<NodeView>, after: Seq<NodeView>, n: nat) -> bool {
    forall|v: NodeIndex|
        v.0 < n && h_cost_of(before, v) is Some ==> #[trigger] h_cost_of(after, v) == h_cost_of(
            before,
            v,
        )
}

/// No path of `steps` steps costs more than this.
pub open spec fn longest_path(steps: int) -> int {
    steps * 0x2_0000_0000
}

/// The node `v` hangs on a settled parent by an edge of the graph, and its
/// cost is that of the parent and the step from there.
pub open spec fn linked(
    positions: Seq<Vector>,
    edges: Seq<Edge>,
    nodes: Seq<NodeView>,
    closed: Seq<NodeIndex>,
    v: NodeIndex,
) -> bool {
    match nodes[v.0 as int].parent {
        Some(p) => {
            &&& closed.contains(p)
            &&& edges.contains((p, v))
            &&& nodes[p.0 as int].g_cost is Some
            &&& nodes[v.0 as int].g_cost == Some(
                nodes[p.0 as int].g_cost.unwrap() + positions[p.0 as int].spec_distance_up(
                    positions[v.0 as int],
                ),
            )
        },
        None => false,
    }
}

/// What the bookkeeping says of the single node `v`.
pub open spec fn node_inv(
    positions: Seq<Vector>,
    edges: Seq<Edge>,
    frontier: Frontier,
    closed: Seq<NodeIndex>,
    start: NodeIndex,
    end: NodeIndex,
    v: NodeIndex,
) -> bool {
    let node = frontier.nodes[v.0 as int];
    &&& node.position == positions[v.0 as int]
    &&& (node.h_cost matches Some(h) ==> h == positions[end.0 as int].spec_distance(node.position))
    &&& (node.parent matches Some(p) ==> p.0 < positions.len())
    &&& (frontier.open.contains(v) ==> node.g_cost is Some && node.g_cost.unwrap() <= longest_path(
        closed.len() as int,
    ))
    &&& (reached(frontier.open, closed, v) ==> {
        &&& node.g_cost is Some
        &&& node.h_cost is Some
        &&& if v == start {
            node.parent is None && node.g_cost == Some(0nat)
        } else {
            linked(positions, edges, frontier.nodes, closed, v)
        }
    })
}

/// The settled nodes in the order in which they were settled: each but
/// `start` has its parent before it, and the cost of each is bounded by its
/// place.
pub open spec fn ranked(nodes: Seq<NodeView>, closed: Seq<NodeIndex>, start: NodeIndex) -> bool {
    forall|k: int|
        0 <= k < closed.len() ==> {
            let node = nodes[(#[trigger] closed[k]).0 as int];
            &&& node.g_cost is Some
            &&& node.g_cost.unwrap() <= longest_path(k)
            &&& (closed[k] == start || exists|j: int|
                0 <= j < k && node.parent == Some(#[trigger] closed[j]))
        }
}

/// What holds of the bookkeeping at every point of a search.
pub open spec fn search_inv(
    positions: Seq<Vector>,
    edges: Seq<Edge>,
    frontier: Frontier,
    closed: Seq<NodeIndex>,
    start: NodeIndex,
    end: NodeIndex,
) -> bool {
    let n = positions.len();
    &&& start.0 < n
    &&& end.0 < n
    &&& edges_in_range(edges, n)
    &&& frontier.nodes.len() == n
    &&& positions_of(frontier.nodes) =~= positions
    &&& in_range(frontier.open, n)
    &&& in_range(closed, n)
    &&& frontier.open.no_duplicates()
    &&& closed.no_duplicates()
    &&& forall|v: NodeIndex| !(frontier.open.contains(v) && #[trigger] closed.contains(v))
    &&& if closed.len() == 0 {
        frontier.open =~= seq![start]
    } else {
        closed[0] == start
    }
    &&& forall|v: NodeIndex|
        v.0 < n ==> #[trigger] node_inv(positions, edges, frontier, closed, start, end, v)
    &&& ranked(frontier.nodes, closed, start)
}

/// Every edge that leaves a node of `done` leads to a node that the search
/// has found.
pub open spec fn closure(
    edges: Seq<Edge>,
    open: Seq<NodeIndex>,
    closed: Seq<NodeIndex>,
    done: Seq<NodeIndex>,
) -> bool {
    forall|e: int|
        0 <= e < edges.len() && done.contains((#[trigger] edges[e]).0) ==> reached(
            open,
            closed,
            edges[e].1,
        )
}

/// What holds of the bookkeeping between two steps of a search: beyond
/// `search_inv`, the search has looked at every neighbour of every settled
/// node, and `end` is not settled.
pub open spec fn step_inv(
    positions: Seq<Vector>,
    edges: Seq<Edge>,
    frontier: Frontier,
    closed: Seq<NodeIndex>,
    start: NodeIndex,
    end: NodeIndex,
) -> bool {
    &&& search_inv(positions, edges, frontier, closed, start, end)
    &&& closure(edges, frontier.open, closed, closed)
    &&& !closed.contains(end)
}

/// A list without repetitions of nodes out of `n` has at most `n` members.
pub proof fn lemma_distinct_nodes_bounded(list: Seq<NodeIndex>, n: nat)
    requires
        list.no_duplicates(),
        in_range(list, n),
    ensures
        list.len() <= n,
    decreases n,
{
    if list.len() > 0 {
        let top = NodeIndex((n - 1) as usize);
        assert(list[0].0 < n);
        if exists|i: int| 0 <= i < list.len() && list[i].0 == n - 1 {
            let i = choose|i: int| 0 <= i < list.len() && list[i].0 == n - 1;
            let rest = list.remove(i);
            assert forall|j: int| 0 <= j < rest.len() implies (#[trigger] rest[j]).0 < n - 1 by {
                let k = if j < i { j } else { j + 1 };
                assert(rest[j] == list[k]);
                assert(list[k].0 < n);
                assert(list[k] != list[i]);
            }
            assert forall|j: int, k: int| 0 <= j < rest.len() && 0 <= k < rest.len() && j != k
                implies rest[j] != rest[k] by {
                let a = if j < i { j } else { j + 1 };
                let b = if k < i { k } else { k + 1 };
                assert(rest[j] == list[a] && rest[k] == list[b]);
            }
            lemma_distinct_nodes_bounded(rest, (n - 1) as nat);
        } else {
            assert forall|j: int| 0 <= j < list.len() implies (#[trigger] list[j]).0 < n - 1 by {
                assert(list[j].0 < n);
            }
            lemma_distinct_nodes_bounded(list, (n - 1) as nat);
        }
    }
}

/// The open list and the settled nodes together do not outnumber the nodes.
pub proof fn lemma_lists_bounded(
    positions: Seq<Vector>,
    edges: Seq<Edge>,
    frontier: Frontier,
    closed: Seq<NodeIndex>,
    start: NodeIndex,
    end: NodeIndex,
)
    requires
        search_inv(positions, edges, frontier, closed, start, end),
    ensures
        frontier.open.len() + closed.len() <= positions.len(),
{
    let both = frontier.open + closed;
    assert forall|i: int, j: int|
        0 <= i < both.len() && 0 <= j < both.len() && i != j implies both[i]
        != both[j] by {
        let m = frontier.open.len() as int;
        if i < m && j >= m {
            assert(frontier.open.contains(both[i]));
            assert(closed[j - m] == both[j]);
            assert(closed.contains(both[j]));
        }
        if j < m && i >= m {
            assert(frontier.open.contains(both[j]));
            assert(closed[i - m] == both[i]);
            assert(closed.contains(both[i]));
        }
    }
    assert forall|i: int| 0 <= i < both.len() implies (#[trigger] both[i]).0 < positions.len() by {
        let m = frontier.open.len() as int;
        if i < m {
            assert(both[i] == frontier.open[i]);
        } else {
            assert(both[i] == closed[i - m]);
        }
    }
    lemma_distinct_nodes_bounded(both, positions.len());
}

/// A search moves no node.
pub proof fn lemma_positions_kept(
    positions: Seq<Vector>,
    edges: Seq<Edge>,
    frontier: Frontier,
    closed: Seq<NodeIndex>,
    start: NodeIndex,
    end: NodeIndex,
)
    requires
        search_inv(positions, edges, frontier, closed, start, end),
    ensures
        positions_of(frontier.nodes) == positions,
{
}

/// The cost of a step from the node settled last stays within the bound of
/// the open list.
pub proof fn lemma_step_cost(
    positions: Seq<Vector>,
    edges: Seq<Edge>,
    frontier: Frontier,
    closed: Seq<NodeIndex>,
    start: NodeIndex,
    end: NodeIndex,
    neighbour: NodeIndex,
)
    requires
        search_inv(positions, edges, frontier, closed, start, end),
        closed.len() > 0,
    ensures
        closed.len() <= positions.len(),
        frontier.nodes[closed.last().0 as int].g_cost is Some,
        frontier.nodes[closed.last().0 as int].g_cost.unwrap()
            + positions[closed.last().0 as int].spec_distance_up(positions[neighbour.0 as int])
            <= longest_path(closed.len() as int),
        longest_path(closed.len() as int) <= longest_path(positions.len() as int),
{
    lemma_lists_bounded(positions, edges, frontier, closed, start, end);
    lemma_distance_bound(positions[closed.last().0 as int], positions[neighbour.0 as int]);
    assert(closed[closed.len() - 1] == closed.last());
}

/// A list that is not empty has a member to settle next.
pub proof fn lemma_pick_exists(nodes: Seq<NodeView>, open: Seq<NodeIndex>) -> (i: int)
    requires
        open.len() > 0,
    ensures
        is_pick(nodes, open, i),
    decreases open.len(),
{
    let last = open.len() - 1;
    if open.len() == 1 {
        0
    } else {
        let before = open.drop_last();
        let j = lemma_pick_exists(nodes, before);
        assert forall|k: int|
            0 <= k < last implies priority(nodes, before, k) == #[trigger] priority(
            nodes,
            open,
            k,
        ) by {}
        assert(priority(nodes, before, j) == priority(nodes, open, j));
        if cost_less(priority(nodes, open, j), priority(nodes, open, last)) {
            assert forall|k: int| 0 <= k < open.len() implies !cost_less(
                #[trigger] priority(nodes, open, k),
                priority(nodes, open, j),
            ) by {
                if k < last {
                    assert(!cost_less(priority(nodes, before, k), priority(nodes, before, j)));
                }
            }
            assert forall|k: int| j < k < open.len() implies cost_less(
                priority(nodes, open, j),
                #[trigger] priority(nodes, open, k),
            ) by {
                if k < last {
                    assert(cost_less(priority(nodes, before, j), priority(nodes, before, k)));
                }
            }
            j
        } else {
            assert forall|k: int| 0 <= k < open.len() implies !cost_less(
                #[trigger] priority(nodes, open, k),
                priority(nodes, open, last),
            ) by {
                if k < last {
                    assert(!cost_less(priority(nodes, before, k), priority(nodes, before, j)));
                }
            }
            last
        }
    }
}

/// Only one member of the open list can be settled next.
pub proof fn lemma_pick_unique(nodes: Seq<NodeView>, open: Seq<NodeIndex>, i: int)
    requires
        is_pick(nodes, open, i),
    ensures
        pick(nodes, open) == i,
{
    let p = pick(nodes, open);
    assert(is_pick(nodes, open, p));
    if p < i {
        assert(cost_less(priority(nodes, open, p), priority(nodes, open, i)));
        assert(!cost_less(priority(nodes, open, p), priority(nodes, open, i)));
    }
    if i < p {
        assert(cost_less(priority(nodes, open, i), priority(nodes, open, p)));
        assert(!cost_less(priority(nodes, open, i), priority(nodes, open, p)));
    }
}

/// What a list without repetitions holds once a member has left it.
pub proof fn lemma_remove_member(list: Seq<NodeIndex>, i: int)
    requires
        list.no_duplicates(),
        0 <= i < list.len(),
    ensures
        list.remove(i).no_duplicates(),
        forall|v: NodeIndex| #[trigger]
            list.remove(i).contains(v) <==> list.contains(v) && v != list[i],
{
    let rest = list.remove(i);
    assert forall|j: int, k: int|
        0 <= j < rest.len() && 0 <= k < rest.len() && j != k implies rest[j]
        != rest[k] by {
        let a = if j < i { j } else { j + 1 };
        let b = if k < i { k } else { k + 1 };
        assert(rest[j] == list[a] && rest[k] == list[b]);
    }
    assert forall|v: NodeIndex|
        #[trigger] rest.contains(v) <==> list.contains(v) && v != list[i] by {
        if rest.contains(v) {
            let j = choose|j: int| 0 <= j < rest.len() && rest[j] == v;
            let a = if j < i { j } else { j + 1 };
            assert(rest[j] == list[a]);
        }
        if list.contains(v) && v != list[i] {
            let a = choose|a: int| 0 <= a < list.len() && list[a] == v;
            let j = if a < i { a } else { a - 1 };
            assert(rest[j] == list[a]);
        }
    }
}

/// What a list holds once a new member has joined it at its end.
pub proof fn lemma_push_member(list: Seq<NodeIndex>, x: NodeIndex)
    ensures
        forall|v: NodeIndex| #[trigger] list.push(x).contains(v) <==> list.contains(v) || v == x,
        list.no_duplicates() && !list.contains(x) ==> list.push(x).no_duplicates(),
{
    let more = list.push(x);
    assert forall|v: NodeIndex| #[trigger] more.contains(v) <==> list.contains(v) || v == x by {
        if more.contains(v) {
            let j = choose|j: int| 0 <= j < more.len() && more[j] == v;
            if j < list.len() {
                assert(list[j] == v);
            }
        }
        if list.contains(v) {
            let j = choose|j: int| 0 <= j < list.len() && list[j] == v;
            assert(more[j] == v);
        }
        if v == x {
            assert(more[list.len() as int] == v);
        }
    }
    if list.no_duplicates() && !list.contains(x) {
        assert forall|j: int, k: int|
            0 <= j < more.len() && 0 <= k < more.len() && j != k implies more[j]
            != more[k] by {
            if j < list.len() {
                assert(list.contains(list[j]));
            }
            if k < list.len() {
                assert(list.contains(list[k]));
            }
        }
    }
}

/// A search starts in a state between two steps.
pub proof fn lemma_first_frontier(
    positions: Seq<Vector>,
    edges: Seq<Edge>,
    start: NodeIndex,
    end: NodeIndex,
)
    requires
        start.0 < positions.len(),
        end.0 < positions.len(),
        edges_in_range(edges, positions.len()),
    ensures
        step_inv(
            positions,
            edges,
            first_frontier(positions, start, end),
            Seq::empty(),
            start,
            end,
        ),
{
    let frontier = first_frontier(positions, start, end);
    let closed = Seq::<NodeIndex>::empty();
    assert(frontier.open[0] == start);
    assert forall|v: NodeIndex| v.0 < positions.len() implies #[trigger] node_inv(
        positions,
        edges,
        frontier,
        closed,
        start,
        end,
        v,
    ) by {
        if v != start {
            assert(frontier.nodes[v.0 as int] == NodeView::fresh(positions[v.0 as int]));
            if frontier.open.contains(v) {
                let j = choose|j: int| 0 <= j < frontier.open.len() && frontier.open[j] == v;
            }
        }
    }
}

/// Settling the `i`-th member of the open list keeps the bookkeeping in
/// order; the search has then still to look at the neighbours of that node.
pub proof fn lemma_settle(
    positions: Seq<Vector>,
    edges: Seq<Edge>,
    frontier: Frontier,
    closed: Seq<NodeIndex>,
    start: NodeIndex,
    end: NodeIndex,
    i: int,
)
    requires
        step_inv(positions, edges, frontier, closed, start, end),
        0 <= i < frontier.open.len(),
    ensures
        closed.len() < positions.len(),
        frontier.open[i].0 < positions.len(),
        search_inv(
            positions,
            edges,
            Frontier { nodes: frontier.nodes, open: frontier.open.remove(i) },
            closed.push(frontier.open[i]),
            start,
            end,
        ),
        closure(edges, frontier.open.remove(i), closed.push(frontier.open[i]), closed),
        frontier.open[i] != end ==> !closed.push(frontier.open[i]).contains(end),
{
    let current = frontier.open[i];
    let rest = Frontier { nodes: frontier.nodes, open: frontier.open.remove(i) };
    let settled = closed.push(current);
    let n = positions.len();
    lemma_lists_bounded(positions, edges, frontier, closed, start, end);
    lemma_remove_member(frontier.open, i);
    lemma_push_member(closed, current);
    assert(frontier.open.contains(current));
    assert(!closed.contains(current));
    assert forall|j: int| 0 <= j < rest.open.len() implies (#[trigger] rest.open[j]).0 < n by {
        let a = if j < i { j } else { j + 1 };
        assert(rest.open[j] == frontier.open[a]);
    }
    assert forall|j: int| 0 <= j < settled.len() implies (#[trigger] settled[j]).0 < n by {
        if j < closed.len() {
            assert(settled[j] == closed[j]);
        }
    }
    assert(settled[0] == start) by {
        if closed.len() == 0 {
            assert(frontier.open[0] == start);
        } else {
            assert(settled[0] == closed[0]);
        }
    }
    assert forall|v: NodeIndex| v.0 < n implies #[trigger] node_inv(
        positions,
        edges,
        rest,
        settled,
        start,
        end,
        v,
    ) by {
        assert(node_inv(positions, edges, frontier, closed, start, end, v));
    }
    assert(node_inv(positions, edges, frontier, closed, start, end, current));
    assert forall|k: int| 0 <= k < settled.len() implies {
        let node = rest.nodes[(#[trigger] settled[k]).0 as int];
        &&& node.g_cost is Some
        &&& node.g_cost.unwrap() <= longest_path(k)
        &&& (settled[k] == start || exists|j: int|
            0 <= j < k && node.parent == Some(#[trigger] settled[j]))
    } by {
        let node = rest.nodes[settled[k].0 as int];
        if k < closed.len() {
            assert(settled[k] == closed[k]);
            if closed[k] != start {
                let j = choose|j: int| 0 <= j < k && node.parent == Some(#[trigger] closed[j]);
                assert(settled[j] == closed[j]);
            }
        } else {
            if current != start {
                let p = node.parent.unwrap();
                assert(closed.contains(p));
                let j = choose|j: int| 0 <= j < closed.len() && closed[j] == p;
                assert(settled[j] == p);
            }
        }
    }
    assert forall|e: int|
        0 <= e < edges.len() && closed.contains((#[trigger] edges[e]).0) implies reached(
        rest.open,
        settled,
        edges[e].1,
    ) by {
        assert(reached(frontier.open, closed, edges[e].1));
    }
}

/// Looking from the node settled last at one of its neighbours keeps the
/// bookkeeping in order, and the neighbour counts as found.
pub proof fn lemma_relax(
    positions: Seq<Vector>,
    edges: Seq<Edge>,
    frontier: Frontier,
    closed: Seq<NodeIndex>,
    start: NodeIndex,
    end: NodeIndex,
    neighbour: NodeIndex,
)
    requires
        search_inv(positions, edges, frontier, closed, start, end),
        closed.len() > 0,
        edges.contains((closed.last(), neighbour)),
    ensures
        search_inv(
            positions,
            edges,
            relax(frontier, closed, closed.last(), neighbour, positions[end.0 as int]),
            closed,
            start,
            end,
        ),
        reached(
            relax(frontier, closed, closed.last(), neighbour, positions[end.0 as int]).open,
            closed,
            neighbour,
        ),
        forall|v: NodeIndex|
            reached(frontier.open, closed, v) ==> #[trigger] reached(
                relax(frontier, closed, closed.last(), neighbour, positions[end.0 as int]).open,
                closed,
                v,
            ),
        h_costs_kept(
            frontier.nodes,
            relax(frontier, closed, closed.last(), neighbour, positions[end.0 as int]).nodes,
            positions.len(),
        ),
{
    let n = positions.len();
    let current = closed.last();
    let target = positions[end.0 as int];
    let next = relax(frontier, closed, current, neighbour, target);
    let e = choose|e: int| 0 <= e < edges.len() && edges[e] == (current, neighbour);
    assert(edges[e].1.0 < n);
    assert(closed.contains(current));
    assert(closed[closed.len() - 1] == current);
    assert(closed[0] == start);
    assert(closed.contains(start));
    assert(node_inv(positions, edges, frontier, closed, start, end, neighbour));
    assert(node_inv(positions, edges, frontier, closed, start, end, current));
    lemma_push_member(frontier.open, neighbour);
    lemma_distance_bound(positions[current.0 as int], positions[neighbour.0 as int]);
    if next != frontier {
        let from = frontier.nodes[current.0 as int];
        let to = frontier.nodes[neighbour.0 as int];
        let reached_node = to.reached_from(from, current);
        assert(!closed.contains(neighbour));
        assert(neighbour != start);
        assert(neighbour != current);
        assert(from.g_cost.unwrap() <= longest_path(closed.len() - 1));
        assert(next.nodes[neighbour.0 as int].g_cost == reached_node.g_cost);
        assert(next.nodes[neighbour.0 as int].parent == Some(current));
        assert(next.nodes[neighbour.0 as int].position == to.position);
        assert forall|j: int| 0 <= j < next.open.len() implies (#[trigger] next.open[j]).0 < n by {
            if j < frontier.open.len() {
                assert(next.open[j] == frontier.open[j]);
            }
        }
        assert forall|v: NodeIndex| v.0 < n implies #[trigger] node_inv(
            positions,
            edges,
            next,
            closed,
            start,
            end,
            v,
        ) by {
            assert(node_inv(positions, edges, frontier, closed, start, end, v));
            if v != neighbour {
                assert(next.nodes[v.0 as int] == frontier.nodes[v.0 as int]);
                if reached(next.open, closed, v) && v != start {
                    let p = frontier.nodes[v.0 as int].parent.unwrap();
                    assert(closed.contains(p));
                    assert(p != neighbour);
                    assert(next.nodes[p.0 as int] == frontier.nodes[p.0 as int]);
                }
            } else {
                assert(next.nodes[current.0 as int] == from);
            }
        }
        assert forall|k: int| 0 <= k < closed.len() implies {
            let node = next.nodes[(#[trigger] closed[k]).0 as int];
            &&& node.g_cost is Some
            &&& node.g_cost.unwrap() <= longest_path(k)
            &&& (closed[k] == start || exists|j: int|
                0 <= j < k && node.parent == Some(#[trigger] closed[j]))
        } by {
            assert(closed.contains(closed[k]));
            assert(next.nodes[closed[k].0 as int] == frontier.nodes[closed[k].0 as int]);
        }
        assert forall|v: NodeIndex|
            v.0 < n && h_cost_of(frontier.nodes, v) is Some implies #[trigger] h_cost_of(
            next.nodes,
            v,
        ) == h_cost_of(frontier.nodes, v) by {
            if v != neighbour {
                assert(next.nodes[v.0 as int] == frontier.nodes[v.0 as int]);
            }
        }
    }
}

/// The neighbours of a node are the ends of the edges that leave it.
pub proof fn lemma_neighbours(edges: Seq<Edge>, node: NodeIndex)
    ensures
        forall|j: int|
            0 <= j < neighbours(edges, node).len() ==> edges.contains(
                (node, #[trigger] neighbours(edges, node)[j]),
            ),
        forall|e: int|
            0 <= e < edges.len() && (#[trigger] edges[e]).0 == node ==> neighbours(
                edges,
                node,
            ).contains(edges[e].1),
    decreases edges.len(),
{
    if edges.len() > 0 {
        let before = edges.drop_last();
        let last = edges.last();
        let found = neighbours(edges, node);
        lemma_neighbours(before, node);
        lemma_push_member(neighbours(before, node), last.1);
        assert forall|j: int|
            0 <= j < found.len() implies edges.contains((node, #[trigger] found[j])) by {
            if j < neighbours(before, node).len() {
                let e = choose|e: int|
                    0 <= e < before.len() && before[e] == (node, neighbours(before, node)[j]);
                assert(edges[e] == before[e]);
            } else {
                assert(edges[edges.len() - 1] == (node, found[j]));
            }
        }
        assert forall|e: int|
            0 <= e < edges.len() && (#[trigger] edges[e]).0 == node implies found.contains(
            edges[e].1,
        ) by {
            if e < before.len() {
                assert(before[e] == edges[e]);
                assert(neighbours(before, node).contains(before[e].1));
            }
        }
    }
}

/// Looking from the node settled last at some of its neighbours, one after
/// the other, keeps the bookkeeping in order, and each of them counts as
/// found.
pub proof fn lemma_expand(
    positions: Seq<Vector>,
    edges: Seq<Edge>,
    frontier: Frontier,
    closed: Seq<NodeIndex>,
    start: NodeIndex,
    end: NodeIndex,
    towards: Seq<NodeIndex>,
)
    requires
        search_inv(positions, edges, frontier, closed, start, end),
        closed.len() > 0,
        forall|j: int|
            0 <= j < towards.len() ==> edges.contains((closed.last(), #[trigger] towards[j])),
    ensures
        search_inv(
            positions,
            edges,
            expand(frontier, closed, closed.last(), towards, positions[end.0 as int]),
            closed,
            start,
            end,
        ),
        forall|j: int|
            0 <= j < towards.len() ==> reached(
                expand(frontier, closed, closed.last(), towards, positions[end.0 as int]).open,
                closed,
                #[trigger] towards[j],
            ),
        forall|v: NodeIndex|
            reached(frontier.open, closed, v) ==> #[trigger] reached(
                expand(frontier, closed, closed.last(), towards, positions[end.0 as int]).open,
                closed,
                v,
            ),
        h_costs_kept(
            frontier.nodes,
            expand(frontier, closed, closed.last(), towards, positions[end.0 as int]).nodes,
            positions.len(),
        ),
    decreases towards.len(),
{
    if towards.len() > 0 {
        let target = positions[end.0 as int];
        let before = towards.drop_last();
        let middle = expand(frontier, closed, closed.last(), before, target);
        let after = expand(frontier, closed, closed.last(), towards, target);
        assert forall|j: int| 0 <= j < before.len() implies edges.contains(
            (closed.last(), #[trigger] before[j]),
        ) by {
            assert(before[j] == towards[j]);
        }
        lemma_expand(positions, edges, frontier, closed, start, end, before);
        assert(towards[towards.len() - 1] == towards.last());
        lemma_relax(positions, edges, middle, closed, start, end, towards.last());
        assert forall|j: int| 0 <= j < towards.len() implies reached(
            after.open,
            closed,
            #[trigger] towards[j],
        ) by {
            if j < before.len() {
                assert(before[j] == towards[j]);
                assert(reached(middle.open, closed, before[j]));
            }
        }
        assert forall|v: NodeIndex| reached(frontier.open, closed, v) implies #[trigger] reached(
            after.open,
            closed,
            v,
        ) by {
            assert(reached(middle.open, closed, v));
        }
        assert forall|v: NodeIndex|
            v.0 < positions.len() && h_cost_of(frontier.nodes, v) is Some
            implies #[trigger] h_cost_of(after.nodes, v) == h_cost_of(frontier.nodes, v) by {
            assert(h_cost_of(middle.nodes, v) == h_cost_of(frontier.nodes, v));
        }
    }
}

/// One whole step of the search, settling a node other than `end` and
/// looking at all its neighbours, leads from one state between two steps to
/// the next.
pub proof fn lemma_step(
    positions: Seq<Vector>,
    edges: Seq<Edge>,
    frontier: Frontier,
    closed: Seq<NodeIndex>,
    start: NodeIndex,
    end: NodeIndex,
    i: int,
)
    requires
        step_inv(positions, edges, frontier, closed, start, end),
        0 <= i < frontier.open.len(),
        frontier.open[i] != end,
    ensures
        closed.len() < positions.len(),
        step_inv(
            positions,
            edges,
            expand(
                Frontier { nodes: frontier.nodes, open: frontier.open.remove(i) },
                closed.push(frontier.open[i]),
                frontier.open[i],
                neighbours(edges, frontier.open[i]),
                positions[end.0 as int],
            ),
            closed.push(frontier.open[i]),
            start,
            end,
        ),
        h_costs_kept(
            frontier.nodes,
            expand(
                Frontier { nodes: frontier.nodes, open: frontier.open.remove(i) },
                closed.push(frontier.open[i]),
                frontier.open[i],
                neighbours(edges, frontier.open[i]),
                positions[end.0 as int],
            ).nodes,
            positions.len(),
        ),
{
    let current = frontier.open[i];
    let rest = Frontier { nodes: frontier.nodes, open: frontier.open.remove(i) };
    let settled = closed.push(current);
    let towards = neighbours(edges, current);
    let next = expand(rest, settled, current, towards, positions[end.0 as int]);
    lemma_settle(positions, edges, frontier, closed, start, end, i);
    lemma_neighbours(edges, current);
    lemma_push_member(closed, current);
    assert(settled.last() == current);
    lemma_expand(positions, edges, rest, settled, start, end, towards);
    assert forall|e: int|
        0 <= e < edges.len() && settled.contains((#[trigger] edges[e]).0) implies reached(
        next.open,
        settled,
        edges[e].1,
    ) by {
        if closed.contains(edges[e].0) {
            assert(reached(rest.open, settled, edges[e].1));
        } else {
            assert(towards.contains(edges[e].1));
            let j = choose|j: int| 0 <= j < towards.len() && towards[j] == edges[e].1;
            assert(reached(next.open, settled, towards[j]));
        }
    }
}

} // verus!
