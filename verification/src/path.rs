//! The graph and the search engine: nodes addressed by index, directed
//! connections between them, and the `Pathfinder` that owns both.

use crate::bookkeeping::{
    in_range, lemma_first_frontier, lemma_neighbours, lemma_pick_unique, lemma_positions_kept,
    lemma_relax, lemma_settle, lemma_step, lemma_step_cost, longest_path, node_inv, search_inv,
    step_inv,
};
use crate::laws::{
    is_cheapest, lemma_distinct_count, lemma_distinct_members, lemma_find_route,
};
use crate::routes::is_route;
use crate::search::{
    ancestry, cost_less, distinct, edges_in_range, expand, find_route, first_frontier, fresh_nodes,
    is_pick, neighbours, positions_of, priority, reachable, relax, route_cost, search, trace,
    Edge, Frontier,
};
use crate::vector::Vector;
use vstd::prelude::*;
use vstd::std_specs::convert::FromSpecImpl;

verus! {

/// Handle of a node: its place in the node sequence of a `Pathfinder`.
#[derive(Debug, Clone, Copy, PartialEq, Eq, Structural)]
pub struct NodeIndex(pub usize);

impl From<usize> for NodeIndex {
    fn from(value: usize) -> (index: NodeIndex) {
        NodeIndex(value)
    }
}

impl FromSpecImpl<usize> for NodeIndex {
    open spec fn obeys_from_spec() -> bool {
        true
    }

    open spec fn from_spec(value: usize) -> NodeIndex {
        NodeIndex(value)
    }
}

/// A directed edge from the node `start` to the node `end`.
#[derive(Debug, Clone, Copy, PartialEq, Eq, Structural)]
pub struct Connection {
    start: NodeIndex,
    end: NodeIndex,
}

impl View for Connection {
    type V = Edge;

    closed spec fn view(&self) -> Edge {
        (self.start, self.end)
    }
}

impl Connection {
    /// The connection that is seen as `edge`.
    pub closed spec fn of(edge: Edge) -> Connection {
        Connection { start: edge.0, end: edge.1 }
    }

    /// A connection is known by its two ends.
    pub proof fn lemma_view_of(self)
        ensures
            Connection::of(self@) == self,
    {
    }

    /// Every edge is the view of its connection.
    pub proof fn lemma_of_view(edge: Edge)
        ensures
            Connection::of(edge)@ == edge,
    {
    }
}

impl From<(usize, usize)> for Connection {
    fn from(value: (usize, usize)) -> (connection: Connection) {
        Connection { start: NodeIndex(value.0), end: NodeIndex(value.1) }
    }
}

impl FromSpecImpl<(usize, usize)> for Connection {
    open spec fn obeys_from_spec() -> bool {
        true
    }

    open spec fn from_spec(value: (usize, usize)) -> Connection {
        Connection::of((NodeIndex(value.0), NodeIndex(value.1)))
    }
}

/// The edges that a sequence of connections stands for.
pub open spec fn edges_of(connections: Seq<Connection>) -> Seq<Edge> {
    Seq::new(connections.len(), |i: int| connections[i]@)
}

/// Why a `Pathfinder` could not be made.
#[derive(Debug, Clone, Copy, PartialEq, Eq, Structural)]
pub enum ConstructionError {
    /// No node was given.
    EmptyGraph,
    /// A connection names a node that does not exist.
    InvalidConnection,
}

/// Why a search returned no route.
#[derive(Debug, Clone, Copy, PartialEq, Eq, Structural)]
pub enum SearchError {
    /// `start` or `end` is no node of the graph.
    InvalidEndpoint,
    /// No chain of connections leads from `start` to `end`.
    NoPathFound,
    /// The parent links of the finished search do not lead back to `start`.
    InternalInconsistency,
}

/// No cost of a path is above this: a path visits fewer nodes than a `usize`
/// counts, and each of its steps is shorter than
/// [`MAX_DISTANCE`](crate::vector::MAX_DISTANCE).
pub const MAX_PATH_COST: u128 = 0x2_0000_0000_0000_0000_0000_0000;

/// What a node says in contracts: where it lies, and what the search has
/// written down for it.
pub struct NodeView {
    pub position: Vector,
    /// Cost of the best known path from the start of the search to this node.
    pub g_cost: Option<nat>,
    /// Distance from this node to the target, once it has been measured.
    pub h_cost: Option<nat>,
    /// The node before this one on the best known path.
    pub parent: Option<NodeIndex>,
}

impl NodeView {
    /// A node that no search has touched.
    pub open spec fn fresh(position: Vector) -> NodeView {
        NodeView { position, g_cost: Some(0), h_cost: None, parent: None }
    }

    /// The priority of the node in the search, `g_cost + h_cost`, where both
    /// are known.
    pub open spec fn f_cost(self) -> Option<nat> {
        match (self.g_cost, self.h_cost) {
            (Some(g), Some(h)) => Some(g + h),
            _ => None,
        }
    }

    /// The node with its distance to `target` measured, unless it had been
    /// measured before: then the node stays as it is, whatever `target` is.
    pub open spec fn with_h_cost(self, target: Vector) -> NodeView {
        if self.h_cost is Some {
            self
        } else {
            NodeView { h_cost: Some(target.spec_distance(self.position)), ..self }
        }
    }

    /// The node as reached over the node `parent`, which has the index
    /// `parent_index`.
    pub open spec fn reached_from(self, parent: NodeView, parent_index: NodeIndex) -> NodeView {
        NodeView {
            g_cost: Some(parent.g_cost.unwrap() + parent.position.spec_distance_up(self.position)),
            parent: Some(parent_index),
            ..self
        }
    }
}

/// A node of the graph: its position, and the bookkeeping of the search.
#[derive(Debug, Clone, Copy, PartialEq, Eq)]
pub struct Node {
    position: Vector,
    g_cost: Option<u128>,
    h_cost: Option<u64>,
    parent: Option<NodeIndex>,
}

impl View for Node {
    type V = NodeView;

    closed spec fn view(&self) -> NodeView {
        NodeView {
            position: self.position,
            g_cost: match self.g_cost {
                Some(g) => Some(g as nat),
                None => None,
            },
            h_cost: match self.h_cost {
                Some(h) => Some(h as nat),
                None => None,
            },
            parent: self.parent,
        }
    }
}

/// A cost as contracts see it.
pub open spec fn cost_view(cost: Option<u128>) -> Option<nat> {
    match cost {
        Some(c) => Some(c as nat),
        None => None,
    }
}

impl Node {
    #[verifier::type_invariant]
    spec fn bounded(self) -> bool {
        match self.g_cost {
            Some(g) => g <= MAX_PATH_COST,
            None => true,
        }
    }

    /// Gets the distance to `target`, measuring it only if it has not been
    /// measured before.
    fn h_cost_calculate(&mut self, target: &Node) -> (h: u64)
        ensures
            final(self)@ == old(self)@.with_h_cost(target@.position),
            final(self)@.h_cost == Some(h as nat),
    {
        proof {
            use_type_invariant(&*self);
        }
        if let Some(h_cost) = self.h_cost {
            h_cost
        } else {
            let cost = target.position.distance(self.position);
            self.h_cost = Some(cost);
            cost
        }
    }

    /// The distance to the target, which has been measured.
    fn h_cost(&self) -> (h: u64)
        requires
            self@.h_cost is Some,
        ensures
            self@.h_cost == Some(h as nat),
    {
        match self.h_cost {
            Some(h_cost) => h_cost,
            None => 0,
        }
    }

    /// Makes `parent` the node before this one, and charges this node the
    /// cost of `parent` and the step from there.
    fn set_g_cost(&mut self, parent: &Node, parent_index: NodeIndex)
        requires
            parent@.g_cost is Some,
            parent@.g_cost.unwrap() + parent@.position.spec_distance_up(old(self)@.position)
                <= MAX_PATH_COST,
        ensures
            final(self)@ == old(self)@.reached_from(parent@, parent_index),
    {
        proof {
            use_type_invariant(&*self);
            use_type_invariant(parent);
        }
        let step = parent.position.distance_up(self.position);
        self.parent = Some(parent_index);
        self.g_cost = Some(parent.g_cost.unwrap() + step as u128);
    }

    /// Where the node lies.
    pub fn position(&self) -> (position: Vector)
        ensures
            position == self@.position,
    {
        self.position
    }

    /// A node at `position` that no search has touched: it costs nothing,
    /// and has neither a parent nor a measured distance.
    pub fn new(position: Vector) -> (node: Node)
        ensures
            node@ == NodeView::fresh(position),
    {
        Node { position, g_cost: Some(0), h_cost: None, parent: None }
    }

    /// The priority `g_cost + h_cost` of the node, after measuring the
    /// distance to `target` if that was still to do. Without a `g_cost` there
    /// is no priority, and nothing is measured.
    pub fn f_cost_calculate(&mut self, target: &Node) -> (f: Option<u128>)
        ensures
            final(self)@ == if old(self)@.g_cost is Some {
                old(self)@.with_h_cost(target@.position)
            } else {
                old(self)@
            },
            cost_view(f) == if old(self)@.g_cost is Some {
                final(self)@.f_cost()
            } else {
                None
            },
    {
        proof {
            use_type_invariant(&*self);
        }
        match self.g_cost {
            Some(g_cost) => {
                let h_cost = self.h_cost_calculate(target);
                Some(g_cost + h_cost as u128)
            },
            None => None,
        }
    }

    /// The priority `g_cost + h_cost` of the node; `None` while either of the
    /// two is not known.
    pub fn f_cost(&self) -> (f: Option<u128>)
        ensures
            cost_view(f) == self@.f_cost(),
    {
        proof {
            use_type_invariant(self);
        }
        match self.g_cost {
            Some(g_cost) => if self.h_cost.is_some() {
                Some(g_cost + self.h_cost() as u128)
            } else {
                None
            },
            None => None,
        }
    }
}

/// The nodes as contracts see them.
pub open spec fn node_views(nodes: Seq<Node>) -> Seq<NodeView> {
    Seq::new(nodes.len(), |i: int| nodes[i]@)
}

/// The nodes of `nodes` that `route` names, in the order of `route`.
pub open spec fn route_nodes(nodes: Seq<NodeView>, route: Seq<NodeIndex>) -> Seq<NodeView> {
    Seq::new(route.len(), |i: int| nodes[route[i].0 as int])
}

/// What a `Pathfinder` says in contracts: its nodes, and its edges in the
/// order in which they are stored.
pub struct PathfinderView {
    pub nodes: Seq<NodeView>,
    pub connections: Seq<Edge>,
}

/// A directed graph of points, with the bookkeeping of the last search on it.
pub struct Pathfinder {
    nodes: Vec<Node>,
    connections: Vec<Connection>,
}

impl View for Pathfinder {
    type V = PathfinderView;

    closed spec fn view(&self) -> PathfinderView {
        PathfinderView {
            nodes: node_views(self.nodes@),
            connections: edges_of(self.connections@),
        }
    }
}

/// Whether the priority `a` comes before the priority `b`.
fn is_cheaper(a: Option<u128>, b: Option<u128>) -> (r: bool)
    ensures
        r == cost_less(cost_view(a), cost_view(b)),
{
    match (a, b) {
        (None, Some(_)) => true,
        (Some(x), Some(y)) => x < y,
        _ => false,
    }
}

/// Whether `node` is a member of `list`.
fn is_listed(list: &Vec<NodeIndex>, node: NodeIndex) -> (r: bool)
    ensures
        r == list@.contains(node),
{
    let mut i: usize = 0;
    while i < list.len()
        invariant
            i <= list.len(),
            forall|j: int| 0 <= j < i ==> list@[j] != node,
        decreases list.len() - i,
    {
        if list[i] == node {
            return true;
        }
        i += 1;
    }
    false
}

/// Whether `connection` is a member of `list`.
fn is_stored(list: &Vec<Connection>, connection: Connection) -> (r: bool)
    ensures
        r == edges_of(list@).contains(connection@),
{
    let mut i: usize = 0;
    while i < list.len()
        invariant
            i <= list.len(),
            forall|j: int| 0 <= j < i ==> edges_of(list@)[j] != connection@,
        decreases list.len() - i,
    {
        if list[i] == connection {
            assert(edges_of(list@)[i as int] == connection@);
            return true;
        }
        assert(edges_of(list@)[i as int] != connection@);
        i += 1;
    }
    false
}

/// Whether every connection joins two of `n` nodes.
fn all_in_range(connections: &Vec<Connection>, n: usize) -> (r: bool)
    ensures
        r == edges_in_range(edges_of(connections@), n as nat),
{
    let mut i: usize = 0;
    while i < connections.len()
        invariant
            i <= connections.len(),
            forall|j: int|
                0 <= j < i ==> (#[trigger] edges_of(connections@)[j]).0.0 < n && edges_of(
                    connections@,
                )[j].1.0 < n,
        decreases connections.len() - i,
    {
        if connections[i].start.0 >= n || connections[i].end.0 >= n {
            assert(edges_of(connections@)[i as int] == connections[i as int]@);
            return false;
        }
        assert(edges_of(connections@)[i as int] == connections[i as int]@);
        i += 1;
    }
    true
}

/// `connections` without its repetitions, the first of equal connections
/// staying where it is.
fn without_repetitions(connections: &Vec<Connection>) -> (kept: Vec<Connection>)
    ensures
        edges_of(kept@) == distinct(edges_of(connections@)),
{
    let mut kept: Vec<Connection> = Vec::with_capacity(connections.len());
    let mut i: usize = 0;
    assert(edges_of(connections@).take(0) =~= Seq::<Edge>::empty());
    assert(edges_of(kept@) =~= Seq::<Edge>::empty());
    while i < connections.len()
        invariant
            i <= connections.len(),
            edges_of(kept@) == distinct(edges_of(connections@).take(i as int)),
        decreases connections.len() - i,
    {
        let candidate = connections[i];
        let ghost before = edges_of(kept@);
        let ghost taken = edges_of(connections@).take(i + 1);
        assert(taken.drop_last() =~= edges_of(connections@).take(i as int));
        assert(taken.last() == candidate@);
        if !is_stored(&kept, candidate) {
            kept.push(candidate);
            assert(edges_of(kept@) =~= before.push(candidate@));
        }
        i += 1;
    }
    assert(edges_of(connections@).take(i as int) =~= edges_of(connections@));
    kept
}

impl Pathfinder {
    #[verifier::type_invariant]
    spec fn well_formed(self) -> bool {
        &&& self.nodes@.len() > 0
        &&& edges_in_range(edges_of(self.connections@), self.nodes@.len())
        &&& edges_of(self.connections@).no_duplicates()
    }

    /// Makes the graph with one node at each of `nodes` and the edges
    /// `connections`, each stored once. A graph has at least one node, and
    /// its connections join nodes that exist.
    pub fn new(nodes: Vec<Vector>, connections: Vec<Connection>) -> (result: Result<
        Pathfinder,
        ConstructionError,
    >)
        ensures
            match result {
                Ok(pathfinder) => {
                    &&& nodes@.len() > 0
                    &&& edges_in_range(edges_of(connections@), nodes@.len())
                    &&& pathfinder@.nodes == fresh_nodes(nodes@)
                    &&& pathfinder@.nodes.len() == nodes@.len()
                    &&& positions_of(pathfinder@.nodes) == nodes@
                    &&& pathfinder@.connections == distinct(edges_of(connections@))
                    &&& pathfinder@.connections.len() == edges_of(connections@).to_set().len()
                    &&& pathfinder@.connections.no_duplicates()
                    &&& edges_in_range(pathfinder@.connections, nodes@.len())
                },
                Err(ConstructionError::EmptyGraph) => nodes@.len() == 0,
                Err(ConstructionError::InvalidConnection) => {
                    &&& nodes@.len() > 0
                    &&& !edges_in_range(edges_of(connections@), nodes@.len())
                },
            },
    {
        if nodes.len() == 0 {
            return Err(ConstructionError::EmptyGraph);
        }
        if !all_in_range(&connections, nodes.len()) {
            return Err(ConstructionError::InvalidConnection);
        }
        let final_connections = without_repetitions(&connections);
        proof {
            lemma_distinct_members(edges_of(connections@));
            lemma_distinct_count(edges_of(connections@));
            assert forall|i: int| 0 <= i < final_connections@.len() implies (#[trigger] edges_of(
                final_connections@,
            )[i]).0.0 < nodes@.len() && edges_of(final_connections@)[i].1.0 < nodes@.len() by {
                let edge = edges_of(final_connections@)[i];
                assert(distinct(edges_of(connections@)).contains(edge));
                assert(edges_of(connections@).contains(edge));
            }
        }
        let mut records: Vec<Node> = Vec::with_capacity(nodes.len());
        let mut i: usize = 0;
        while i < nodes.len()
            invariant
                i <= nodes.len(),
                records@.len() == i,
                forall|j: int|
                    0 <= j < i ==> (#[trigger] records@[j])@ == NodeView::fresh(nodes@[j]),
            decreases nodes.len() - i,
        {
            records.push(Node::new(nodes[i]));
            i += 1;
        }
        assert(node_views(records@) =~= fresh_nodes(nodes@));
        assert(positions_of(fresh_nodes(nodes@)) =~= nodes@);
        Ok(Pathfinder { nodes: records, connections: final_connections })
    }

    /// How many nodes the graph has.
    pub fn node_count(&self) -> (count: usize)
        ensures
            count == self@.nodes.len(),
            count > 0,
    {
        proof {
            use_type_invariant(self);
        }
        self.nodes.len()
    }

    /// How many connections the graph has, each counted once.
    pub fn connection_count(&self) -> (count: usize)
        ensures
            count == self@.connections.len(),
            self@.connections.no_duplicates(),
            edges_in_range(self@.connections, self@.nodes.len()),
    {
        proof {
            use_type_invariant(self);
        }
        self.connections.len()
    }

    /// Forgets what an earlier search has written down.
    fn reset(&mut self)
        ensures
            final(self)@.connections == old(self)@.connections,
            final(self)@.nodes == fresh_nodes(positions_of(old(self)@.nodes)),
    {
        proof {
            use_type_invariant(&*self);
        }
        let mut i: usize = 0;
        while i < self.nodes.len()
            invariant
                i <= self.nodes.len(),
                self.nodes.len() == old(self).nodes.len(),
                self.connections == old(self).connections,
                edges_in_range(edges_of(self.connections@), self.nodes@.len()),
                edges_of(self.connections@).no_duplicates(),
                forall|j: int| 0 <= j < i ==> (#[trigger] self.nodes@[j])@ == NodeView::fresh(
                    old(self).nodes@[j]@.position,
                ),
                forall|j: int| i <= j < self.nodes.len() ==> self.nodes@[j] == old(self).nodes@[j],
            decreases self.nodes.len() - i,
        {
            let position = self.nodes[i].position;
            self.nodes[i] = Node::new(position);
            i += 1;
        }
        assert(self@.nodes =~= fresh_nodes(positions_of(old(self)@.nodes)));
    }

    /// The place in `open` of the member with the lowest priority; of several
    /// such members, the last.
    fn lowest_f_cost(&self, open: &Vec<NodeIndex>) -> (best: usize)
        requires
            open@.len() > 0,
            in_range(open@, self@.nodes.len()),
        ensures
            is_pick(self@.nodes, open@, best as int),
    {
        let mut best: usize = 0;
        let mut k: usize = 1;
        assert(open@.take(1).len() == 1);
        while k < open.len()
            invariant
                1 <= k <= open.len(),
                in_range(open@, self@.nodes.len()),
                is_pick(self@.nodes, open@.take(k as int), best as int),
            decreases open.len() - k,
        {
            let ghost nodes = self@.nodes;
            let ghost seen = open@.take(k as int);
            let ghost more = open@.take(k + 1);
            let kept = self.nodes[open[best].0].f_cost();
            let next = self.nodes[open[k].0].f_cost();
            assert(cost_view(kept) == priority(nodes, more, best as int));
            assert(cost_view(next) == priority(nodes, more, k as int));
            assert forall|j: int|
                0 <= j < k implies priority(nodes, seen, j) == #[trigger] priority(
                nodes,
                more,
                j,
            ) by {}
            if is_cheaper(kept, next) {
                assert forall|j: int| 0 <= j < more.len() implies !cost_less(
                    #[trigger] priority(nodes, more, j),
                    priority(nodes, more, best as int),
                ) by {
                    if j < k {
                        assert(!cost_less(
                            priority(nodes, seen, j),
                            priority(nodes, seen, best as int),
                        ));
                    }
                }
                assert forall|j: int| best < j < more.len() implies cost_less(
                    priority(nodes, more, best as int),
                    #[trigger] priority(nodes, more, j),
                ) by {
                    if j < k {
                        assert(cost_less(
                            priority(nodes, seen, best as int),
                            priority(nodes, seen, j),
                        ));
                    }
                }
            } else {
                assert forall|j: int| 0 <= j < more.len() implies !cost_less(
                    #[trigger] priority(nodes, more, j),
                    priority(nodes, more, k as int),
                ) by {
                    if j < k {
                        assert(!cost_less(
                            priority(nodes, seen, j),
                            priority(nodes, seen, best as int),
                        ));
                    }
                }
                best = k;
            }
            k += 1;
        }
        assert(open@.take(k as int) =~= open@);
        best
    }

    /// The nodes to which a connection leads from `node_index`, in the order
    /// of the connections.
    fn neighbours(&self, node_index: NodeIndex) -> (found: Vec<NodeIndex>)
        ensures
            found@ == neighbours(self@.connections, node_index),
    {
        let mut found: Vec<NodeIndex> = Vec::new();
        let mut i: usize = 0;
        assert(self@.connections.take(0) =~= Seq::<Edge>::empty());
        while i < self.connections.len()
            invariant
                i <= self.connections.len(),
                found@ == neighbours(self@.connections.take(i as int), node_index),
            decreases self.connections.len() - i,
        {
            let ghost taken = self@.connections.take(i + 1);
            assert(taken.drop_last() =~= self@.connections.take(i as int));
            assert(taken.last() == self.connections@[i as int]@);
            if self.connections[i].start.0 == node_index.0 {
                found.push(self.connections[i].end);
            }
            i += 1;
        }
        assert(self@.connections.take(i as int) =~= self@.connections);
        found
    }

    /// The route that the parent links give from `start` to `end`, each node
    /// as the search has left it.
    fn trace(&self, start: NodeIndex, end: NodeIndex) -> (result: Result<Vec<Node>, SearchError>)
        requires
            end.0 < self@.nodes.len(),
            forall|v: int|
                0 <= v < self@.nodes.len() ==> ((#[trigger] self@.nodes[v]).parent matches Some(p)
                    ==> p.0 < self@.nodes.len()),
        ensures
            match result {
                Ok(path) => {
                    &&& trace(self@.nodes, start, end) is Ok
                    &&& node_views(path@) == route_nodes(
                        self@.nodes,
                        trace(self@.nodes, start, end).unwrap(),
                    )
                },
                Err(e) => trace(self@.nodes, start, end) == Err::<Seq<NodeIndex>, SearchError>(e),
            },
    {
        let ghost nodes = self@.nodes;
        let ghost mut visited: Seq<NodeIndex> = seq![end];
        let mut back: Vec<Node> = Vec::new();
        back.push(self.nodes[end.0]);
        let mut current = end;
        let mut link = self.nodes[end.0].parent;
        let mut steps: usize = self.nodes.len();
        assert(visited.drop_last() + ancestry(nodes, current, steps as nat) =~= ancestry(
            nodes,
            end,
            nodes.len(),
        ));
        while steps > 0 && link.is_some()
            invariant
                nodes == self@.nodes,
                steps <= nodes.len(),
                current.0 < nodes.len(),
                link == nodes[current.0 as int].parent,
                visited.len() > 0,
                visited.last() == current,
                ancestry(nodes, end, nodes.len()) == visited.drop_last() + ancestry(
                    nodes,
                    current,
                    steps as nat,
                ),
                back@.len() == visited.len(),
                forall|j: int|
                    0 <= j < back@.len() ==> (#[trigger] back@[j])@ == nodes[visited[j].0 as int],
                forall|v: int|
                    0 <= v < nodes.len() ==> ((#[trigger] nodes[v]).parent matches Some(p) ==> p.0
                        < nodes.len()),
            decreases steps,
        {
            let parent = link.unwrap();
            assert(nodes[current.0 as int].parent == Some(parent));
            let ghost before = visited;
            let ghost rest = ancestry(nodes, parent, (steps - 1) as nat);
            assert(ancestry(nodes, current, steps as nat) == seq![current] + rest);
            back.push(self.nodes[parent.0]);
            proof {
                visited = visited.push(parent);
                assert(visited.drop_last() =~= before);
                assert(before =~= before.drop_last() + seq![current]);
                assert(before.drop_last() + (seq![current] + rest) =~= before + rest);
            }
            current = parent;
            link = self.nodes[parent.0].parent;
            steps -= 1;
        }
        assert(ancestry(nodes, current, steps as nat) == seq![current]);
        assert(visited =~= visited.drop_last() + seq![current]);
        assert(visited == ancestry(nodes, end, nodes.len()));
        if current != start {
            return Err(SearchError::InternalInconsistency);
        }
        let mut path: Vec<Node> = Vec::with_capacity(back.len());
        let mut i: usize = back.len();
        while i > 0
            invariant
                i <= back.len(),
                path@.len() == back.len() - i,
                forall|j: int| 0 <= j < path@.len() ==> path@[j] == back@[back.len() - 1 - j],
            decreases i,
        {
            i -= 1;
            path.push(back[i]);
        }
        assert forall|j: int| 0 <= j < path@.len() implies (#[trigger] path@[j])@
            == nodes[visited.reverse()[j].0 as int] by {
            assert(path@[j] == back@[back.len() - 1 - j]);
        }
        assert(node_views(path@) =~= route_nodes(nodes, visited.reverse()));
        Ok(path)
    }

    /// Searches a route from `start` to `end` with the A* algorithm, the
    /// straight-line distance to `end` as its heuristic, and returns the
    /// nodes of the route, `start` first and `end` last, each with the costs
    /// that the search has found for it.
    ///
    /// Every search starts by forgetting the one before it, so a search does
    /// not depend on what was searched earlier, and the same search gives the
    /// same route again. The positions and the connections stay as they are.
    ///
    /// The search fails with `InvalidEndpoint` if `start` or `end` is no node
    /// of the graph, and then changes nothing; it fails with `NoPathFound` if
    /// no chain of connections leads from `start` to `end`. It does not fail
    /// otherwise.
    pub fn pathfind(&mut self, start: NodeIndex, end: NodeIndex) -> (result: Result<
        Vec<Node>,
        SearchError,
    >)
        ensures
            final(self)@.connections == old(self)@.connections,
            positions_of(final(self)@.nodes) == positions_of(old(self)@.nodes),
            edges_in_range(old(self)@.connections, old(self)@.nodes.len()),
            0 < old(self)@.nodes.len() <= usize::MAX,
            ({
                let n = old(self)@.nodes.len();
                let positions = positions_of(old(self)@.nodes);
                let edges = old(self)@.connections;
                let outcome = find_route(old(self)@.nodes, edges, start, end);
                &&& final(self)@.nodes == outcome.nodes
                &&& match result {
                    Ok(path) => {
                        &&& start.0 < n && end.0 < n
                        &&& reachable(edges, start, end)
                        &&& outcome.route is Ok
                        &&& node_views(path@) == route_nodes(
                            final(self)@.nodes,
                            outcome.route.unwrap(),
                        )
                        &&& is_route(
                            positions,
                            edges,
                            final(self)@.nodes,
                            outcome.route.unwrap(),
                            start,
                            end,
                        )
                        &&& final(self)@.nodes[end.0 as int].g_cost == Some(
                            route_cost(positions, outcome.route.unwrap()),
                        )
                        &&& is_cheapest(positions, edges, outcome.route.unwrap(), start, end)
                    },
                    Err(SearchError::InvalidEndpoint) => {
                        &&& !(start.0 < n && end.0 < n)
                        &&& final(self)@.nodes == old(self)@.nodes
                        &&& outcome.route == Err::<Seq<NodeIndex>, SearchError>(
                            SearchError::InvalidEndpoint,
                        )
                    },
                    Err(SearchError::NoPathFound) => {
                        &&& start.0 < n && end.0 < n
                        &&& !reachable(edges, start, end)
                        &&& outcome.route == Err::<Seq<NodeIndex>, SearchError>(
                            SearchError::NoPathFound,
                        )
                    },
                    Err(SearchError::InternalInconsistency) => false,
                }
            }),
    {
        proof {
            use_type_invariant(&*self);
        }
        let ghost positions = positions_of(self@.nodes);
        let ghost edges = self@.connections;
        let ghost goal = find_route(self@.nodes, edges, start, end);
        proof {
            lemma_find_route(self@.nodes, edges, start, end);
        }
        let n = self.nodes.len();
        assert(positions.len() == n);
        if start.0 >= n || end.0 >= n {
            return Err(SearchError::InvalidEndpoint);
        }
        self.reset();
        assert(positions_of(self@.nodes) =~= positions);
        let target = self.nodes[end.0];
        let mut first = self.nodes[start.0];
        first.g_cost = Some(0);
        first.h_cost_calculate(&target);
        self.nodes[start.0] = first;
        let mut open: Vec<NodeIndex> = Vec::new();
        open.push(start);
        let mut closed: Vec<NodeIndex> = Vec::new();
        proof {
            assert(fresh_nodes(positions)[start.0 as int] == NodeView::fresh(
                positions[start.0 as int],
            ));
            assert(target@.position == positions[end.0 as int]);
            assert(self@.nodes =~= first_frontier(positions, start, end).nodes);
            assert(open@ =~= first_frontier(positions, start, end).open);
            assert(closed@ =~= Seq::<NodeIndex>::empty());
            lemma_first_frontier(positions, edges, start, end);
        }
        let mut result: Result<Vec<Node>, SearchError> = Err(SearchError::NoPathFound);
        loop
            invariant_except_break
                step_inv(
                    positions,
                    edges,
                    Frontier { nodes: self@.nodes, open: open@ },
                    closed@,
                    start,
                    end,
                ),
                search(
                    positions,
                    edges,
                    Frontier { nodes: self@.nodes, open: open@ },
                    closed@,
                    start,
                    end,
                ) == goal,
            invariant
                n == positions.len(),
                start.0 < n,
                end.0 < n,
                self.nodes.len() == n,
                self@.connections == edges,
                edges_in_range(edges, n as nat),
                edges.no_duplicates(),
                target@.position == positions[end.0 as int],
            ensures
                positions_of(self@.nodes) == positions,
                self@.nodes == goal.nodes,
                match result {
                    Ok(path) => {
                        &&& goal.route is Ok
                        &&& node_views(path@) == route_nodes(goal.nodes, goal.route.unwrap())
                    },
                    Err(e) => goal.route == Err::<Seq<NodeIndex>, SearchError>(e),
                },
            decreases n - closed.len(),
        {
            let ghost frontier = Frontier { nodes: self@.nodes, open: open@ };
            let ghost settled_before = closed@;
            if open.len() == 0 {
                proof {
                    lemma_positions_kept(positions, edges, frontier, closed@, start, end);
                }
                result = Err(SearchError::NoPathFound);
                break;
            }
            let i = self.lowest_f_cost(&open);
            proof {
                lemma_pick_unique(frontier.nodes, frontier.open, i as int);
                lemma_settle(positions, edges, frontier, settled_before, start, end, i as int);
            }
            let current = open.remove(i);
            closed.push(current);
            let ghost rest = Frontier { nodes: self@.nodes, open: open@ };
            if current == end {
                proof {
                    lemma_positions_kept(positions, edges, rest, closed@, start, end);
                    assert forall|v: int| 0 <= v < self@.nodes.len() implies ((
                    #[trigger] self@.nodes[v]).parent matches Some(p) ==> p.0
                        < self@.nodes.len()) by {
                        assert(node_inv(
                            positions,
                            edges,
                            rest,
                            closed@,
                            start,
                            end,
                            NodeIndex(v as usize),
                        ));
                    }
                }
                result = self.trace(start, end);
                break;
            }
            let towards = self.neighbours(current);
            proof {
                lemma_neighbours(edges, current);
                assert(towards@.take(0) =~= Seq::<NodeIndex>::empty());
            }
            let mut k: usize = 0;
            while k < towards.len()
                invariant
                    k <= towards.len(),
                    n == positions.len(),
                    end.0 < n,
                    self.nodes.len() == n,
                    self@.connections == edges,
                    edges_in_range(edges, n as nat),
                    edges.no_duplicates(),
                    target@.position == positions[end.0 as int],
                    towards@ == neighbours(edges, current),
                    closed@.len() > 0,
                    closed@.last() == current,
                    forall|j: int|
                        0 <= j < towards@.len() ==> edges.contains(
                            (current, #[trigger] towards@[j]),
                        ),
                    search_inv(positions, edges, rest, closed@, start, end),
                    search_inv(
                        positions,
                        edges,
                        Frontier { nodes: self@.nodes, open: open@ },
                        closed@,
                        start,
                        end,
                    ),
                    expand(
                        rest,
                        closed@,
                        current,
                        towards@.take(k as int),
                        positions[end.0 as int],
                    ) == (Frontier { nodes: self@.nodes, open: open@ }),
                decreases towards.len() - k,
            {
                let neighbour = towards[k];
                let ghost before = Frontier { nodes: self@.nodes, open: open@ };
                proof {
                    let taken = towards@.take(k + 1);
                    assert(taken.drop_last() =~= towards@.take(k as int));
                    assert(taken.last() == neighbour);
                    assert(edges.contains((current, towards@[k as int])));
                    lemma_relax(positions, edges, before, closed@, start, end, neighbour);
                    assert(node_inv(positions, edges, before, closed@, start, end, current));
                    assert(closed@.contains(closed@[closed@.len() - 1]));
                    let e = choose|e: int| 0 <= e < edges.len() && edges[e] == (current, neighbour);
                    assert(edges[e].1.0 < n);
                }
                if !is_listed(&closed, neighbour) {
                    let current_node = self.nodes[current.0];
                    let neighbour_node = self.nodes[neighbour.0];
                    proof {
                        use_type_invariant(&current_node);
                        lemma_step_cost(positions, edges, before, closed@, start, end, neighbour);
                        assert(node_inv(positions, edges, before, closed@, start, end, neighbour));
                        assert(longest_path(n as int) <= MAX_PATH_COST);
                    }
                    let new_path_g_cost = current_node.g_cost.unwrap()
                        + current_node.position.distance_up(neighbour_node.position) as u128;
                    let current_g_cost = neighbour_node.g_cost;
                    let neighbour_in_open = is_listed(&open, neighbour);
                    if current_g_cost.is_none() || current_g_cost.unwrap() > new_path_g_cost
                        || !neighbour_in_open {
                        let mut reached_node = neighbour_node;
                        reached_node.set_g_cost(&current_node, current);
                        if !neighbour_in_open {
                            reached_node.h_cost_calculate(&target);
                            open.push(neighbour);
                        }
                        self.nodes[neighbour.0] = reached_node;
                    }
                }
                proof {
                    let after = Frontier { nodes: self@.nodes, open: open@ };
                    assert(after.nodes =~= relax(
                        before,
                        closed@,
                        current,
                        neighbour,
                        positions[end.0 as int],
                    ).nodes);
                    assert(after.open =~= relax(
                        before,
                        closed@,
                        current,
                        neighbour,
                        positions[end.0 as int],
                    ).open);
                }
                k += 1;
            }
            proof {
                assert(towards@.take(k as int) =~= towards@);
                lemma_step(positions, edges, frontier, settled_before, start, end, i as int);
            }
        }
        result
    }
}

} // verus!
