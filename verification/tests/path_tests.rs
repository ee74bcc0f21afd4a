use pathfinder::path::{
    Connection, ConstructionError, Node, NodeIndex, Pathfinder, SearchError,
};
use pathfinder::vector::Vector;

fn edges(pairs: &[(usize, usize)]) -> Vec<Connection> {
    pairs.iter().map(|pair| Connection::from(*pair)).collect()
}

fn positions(path: &[Node]) -> Vec<Vector> {
    path.iter().map(|node| node.position()).collect()
}

#[test]
fn new_rejects_an_empty_graph() {
    let result = Pathfinder::new(vec![], vec![]);
    assert!(matches!(result, Err(ConstructionError::EmptyGraph)));
}

#[test]
fn new_reports_an_empty_graph_before_its_connections() {
    let result = Pathfinder::new(vec![], edges(&[(0, 0)]));
    assert!(matches!(result, Err(ConstructionError::EmptyGraph)));
}

#[test]
fn new_rejects_a_connection_that_starts_out_of_range() {
    let nodes = vec![Vector::new(0, 0), Vector::new(1, 0)];
    let result = Pathfinder::new(nodes, edges(&[(0, 1), (2, 0)]));
    assert!(matches!(result, Err(ConstructionError::InvalidConnection)));
}

#[test]
fn new_rejects_a_connection_that_ends_out_of_range() {
    let nodes = vec![Vector::new(0, 0), Vector::new(1, 0)];
    let result = Pathfinder::new(nodes, edges(&[(1, 2)]));
    assert!(matches!(result, Err(ConstructionError::InvalidConnection)));
}

#[test]
fn new_accepts_a_graph_without_connections() {
    let pathfinder = Pathfinder::new(vec![Vector::new(5, 5)], vec![]).unwrap();
    assert_eq!(pathfinder.node_count(), 1);
    assert_eq!(pathfinder.connection_count(), 0);
}

#[test]
fn new_keeps_every_node_and_each_connection_once() {
    let nodes = vec![Vector::new(0, 0), Vector::new(10, 0), Vector::new(10, 10)];
    let connections = edges(&[(0, 1), (1, 0), (0, 1), (1, 2), (1, 2), (0, 1), (2, 2)]);
    let pathfinder = Pathfinder::new(nodes, connections).unwrap();
    assert_eq!(pathfinder.node_count(), 3);
    assert_eq!(pathfinder.connection_count(), 4);
}

#[test]
fn new_keeps_nodes_at_the_same_position_apart() {
    let nodes = vec![Vector::new(1, 1), Vector::new(1, 1)];
    let mut pathfinder = Pathfinder::new(nodes, edges(&[(0, 1)])).unwrap();
    assert_eq!(pathfinder.node_count(), 2);
    let path = pathfinder.pathfind(NodeIndex(0), NodeIndex(1)).unwrap();
    assert_eq!(path.len(), 2);
    assert_eq!(path[1].f_cost(), Some(0));
}

#[test]
fn new_rejects_the_first_index_beyond_the_nodes() {
    let nodes = vec![Vector::new(0, 0), Vector::new(1, 0), Vector::new(2, 0)];
    assert!(Pathfinder::new(nodes.clone(), edges(&[(2, 2)])).is_ok());
    let result = Pathfinder::new(nodes, edges(&[(3, 0)]));
    assert!(matches!(result, Err(ConstructionError::InvalidConnection)));
}

#[test]
fn counts_stay_the_same_after_a_search() {
    let nodes = vec![Vector::new(0, 0), Vector::new(10, 0), Vector::new(10, 10)];
    let mut pathfinder = Pathfinder::new(nodes, edges(&[(0, 1), (1, 2), (0, 1)])).unwrap();
    assert!(pathfinder.pathfind(NodeIndex(0), NodeIndex(2)).is_ok());
    assert_eq!(pathfinder.node_count(), 3);
    assert_eq!(pathfinder.connection_count(), 2);
}

#[test]
fn direct_edge_beats_the_detour() {
    let a = Vector::new(0, 0);
    let b = Vector::new(10, 0);
    let c = Vector::new(10, 10);
    let mut pathfinder = Pathfinder::new(vec![a, b, c], edges(&[(0, 1), (1, 2), (0, 2)])).unwrap();
    let path = pathfinder.pathfind(NodeIndex(0), NodeIndex(2)).unwrap();
    assert_eq!(positions(&path), vec![a, c]);
    assert_eq!(path[0].f_cost(), Some(14));
    assert_eq!(path[1].f_cost(), Some(15));
}

#[test]
fn detour_is_taken_where_it_is_the_only_way() {
    let a = Vector::new(0, 0);
    let b = Vector::new(10, 0);
    let c = Vector::new(10, 10);
    let mut pathfinder = Pathfinder::new(vec![a, b, c], edges(&[(0, 1), (1, 2)])).unwrap();
    let path = pathfinder.pathfind(NodeIndex(0), NodeIndex(2)).unwrap();
    assert_eq!(positions(&path), vec![a, b, c]);
    assert_eq!(path[0].f_cost(), Some(14));
    assert_eq!(path[1].f_cost(), Some(20));
    assert_eq!(path[2].f_cost(), Some(20));
}

#[test]
fn two_nodes_without_an_edge_have_no_path() {
    let nodes = vec![Vector::new(0, 0), Vector::new(10, 20)];
    let mut pathfinder = Pathfinder::new(nodes, vec![]).unwrap();
    let result = pathfinder.pathfind(NodeIndex(0), NodeIndex(1));
    assert_eq!(result, Err(SearchError::NoPathFound));
}

#[test]
fn edges_are_directed() {
    let nodes = vec![Vector::new(0, 0), Vector::new(10, 20)];
    let mut pathfinder = Pathfinder::new(nodes, edges(&[(0, 1)])).unwrap();
    assert_eq!(pathfinder.pathfind(NodeIndex(1), NodeIndex(0)), Err(SearchError::NoPathFound));
}

#[test]
fn single_edge_path_has_the_length_of_the_edge() {
    let a = Vector::new(0, 0);
    let b = Vector::new(3000, 4000);
    let mut pathfinder = Pathfinder::new(vec![a, b], edges(&[(0, 1)])).unwrap();
    let path = pathfinder.pathfind(NodeIndex(0), NodeIndex(1)).unwrap();
    assert_eq!(positions(&path), vec![a, b]);
    assert_eq!(path[1].f_cost(), Some(5000));
    let exact = (3000.0f64 * 3000.0 + 4000.0 * 4000.0).sqrt();
    assert!((path[1].f_cost().unwrap() as f64 - exact).abs() < 1.0);
}

#[test]
fn single_edge_path_is_within_one_unit_of_the_euclidean_distance() {
    let a = Vector::new(0, 0);
    let b = Vector::new(10, 20);
    let mut pathfinder = Pathfinder::new(vec![a, b], edges(&[(0, 1)])).unwrap();
    let path = pathfinder.pathfind(NodeIndex(0), NodeIndex(1)).unwrap();
    assert_eq!(path[1].f_cost(), Some(23));
    let exact = (10.0f64 * 10.0 + 20.0 * 20.0).sqrt();
    let found = path[1].f_cost().unwrap() as f64;
    assert!(exact <= found && found < exact + 1.0);
}

#[test]
fn path_from_a_node_to_itself_is_that_node() {
    let a = Vector::new(7, 7);
    let mut pathfinder = Pathfinder::new(vec![a, Vector::new(0, 0)], edges(&[(0, 1)])).unwrap();
    let path = pathfinder.pathfind(NodeIndex(0), NodeIndex(0)).unwrap();
    assert_eq!(positions(&path), vec![a]);
    assert_eq!(path[0].f_cost(), Some(0));
}

#[test]
fn endpoints_out_of_range_are_rejected() {
    let nodes = vec![Vector::new(0, 0), Vector::new(10, 20)];
    let mut pathfinder = Pathfinder::new(nodes, edges(&[(0, 1)])).unwrap();
    assert_eq!(pathfinder.pathfind(NodeIndex(2), NodeIndex(1)), Err(SearchError::InvalidEndpoint));
    assert_eq!(pathfinder.pathfind(NodeIndex(0), NodeIndex(2)), Err(SearchError::InvalidEndpoint));
    assert_eq!(
        pathfinder.pathfind(NodeIndex(usize::MAX), NodeIndex(usize::MAX)),
        Err(SearchError::InvalidEndpoint)
    );
}

#[test]
fn searching_twice_gives_the_same_path() {
    let nodes = vec![
        Vector::new(0, 0),
        Vector::new(10, 0),
        Vector::new(10, 10),
        Vector::new(0, 10),
        Vector::new(20, 20),
    ];
    let connections = edges(&[(0, 1), (1, 2), (0, 3), (3, 2), (2, 4), (1, 4)]);
    let mut pathfinder = Pathfinder::new(nodes, connections).unwrap();
    let first = pathfinder.pathfind(NodeIndex(0), NodeIndex(4)).unwrap();
    let second = pathfinder.pathfind(NodeIndex(0), NodeIndex(4)).unwrap();
    assert_eq!(first, second);
}

#[test]
fn a_search_does_not_depend_on_the_search_before_it() {
    let nodes = vec![
        Vector::new(0, 0),
        Vector::new(10, 0),
        Vector::new(10, 10),
        Vector::new(0, 10),
        Vector::new(20, 20),
    ];
    let connections = edges(&[(0, 1), (1, 2), (0, 3), (3, 2), (2, 4), (1, 4)]);
    let mut used = Pathfinder::new(nodes.clone(), connections.clone()).unwrap();
    let mut unused = Pathfinder::new(nodes, connections).unwrap();
    assert!(used.pathfind(NodeIndex(3), NodeIndex(2)).is_ok());
    assert_eq!(used.pathfind(NodeIndex(4), NodeIndex(0)), Err(SearchError::NoPathFound));
    assert_eq!(
        used.pathfind(NodeIndex(0), NodeIndex(4)),
        unused.pathfind(NodeIndex(0), NodeIndex(4))
    );
}

#[test]
fn of_two_equally_cheap_routes_the_one_found_last_is_taken() {
    let nodes =
        vec![Vector::new(0, 0), Vector::new(10, 0), Vector::new(0, 10), Vector::new(10, 10)];
    let connections = edges(&[(0, 1), (0, 2), (1, 3), (2, 3)]);
    let mut pathfinder = Pathfinder::new(nodes.clone(), connections).unwrap();
    let path = pathfinder.pathfind(NodeIndex(0), NodeIndex(3)).unwrap();
    assert_eq!(positions(&path), vec![nodes[0], nodes[2], nodes[3]]);

    let swapped = edges(&[(0, 2), (0, 1), (1, 3), (2, 3)]);
    let mut pathfinder = Pathfinder::new(nodes.clone(), swapped).unwrap();
    let path = pathfinder.pathfind(NodeIndex(0), NodeIndex(3)).unwrap();
    assert_eq!(positions(&path), vec![nodes[0], nodes[1], nodes[3]]);
}

#[test]
fn repeated_connections_change_nothing() {
    let nodes = vec![Vector::new(0, 0), Vector::new(10, 0), Vector::new(10, 10)];
    let mut once = Pathfinder::new(nodes.clone(), edges(&[(0, 1), (1, 2)])).unwrap();
    let mut twice =
        Pathfinder::new(nodes, edges(&[(0, 1), (0, 1), (1, 2), (0, 1), (1, 2)])).unwrap();
    assert_eq!(
        once.pathfind(NodeIndex(0), NodeIndex(2)),
        twice.pathfind(NodeIndex(0), NodeIndex(2))
    );
}

#[test]
fn a_cycle_does_not_trap_the_search() {
    let nodes = vec![Vector::new(0, 0), Vector::new(1, 0), Vector::new(2, 0), Vector::new(9, 9)];
    let connections = edges(&[(0, 1), (1, 2), (2, 0), (1, 1)]);
    let mut pathfinder = Pathfinder::new(nodes.clone(), connections).unwrap();
    assert_eq!(pathfinder.pathfind(NodeIndex(0), NodeIndex(3)), Err(SearchError::NoPathFound));
    let path = pathfinder.pathfind(NodeIndex(1), NodeIndex(0)).unwrap();
    assert_eq!(positions(&path), vec![nodes[1], nodes[2], nodes[0]]);
}

#[test]
fn far_corners_of_the_grid_are_measured_without_overflow() {
    let a = Vector::new(i32::MIN, i32::MIN);
    let b = Vector::new(i32::MAX, i32::MAX);
    let mut pathfinder = Pathfinder::new(vec![a, b], edges(&[(0, 1), (1, 0)])).unwrap();
    let path = pathfinder.pathfind(NodeIndex(0), NodeIndex(1)).unwrap();
    assert_eq!(path[0].f_cost(), Some(6074000998));
    assert_eq!(path[1].f_cost(), Some(6074000999));
}

#[test]
fn fresh_node_has_no_priority_until_measured() {
    let mut node = Node::new(Vector::new(3, 4));
    assert_eq!(node.position(), Vector::new(3, 4));
    assert_eq!(node.f_cost(), None);
    let target = Node::new(Vector::new(0, 0));
    assert_eq!(node.f_cost_calculate(&target), Some(5));
    assert_eq!(node.f_cost(), Some(5));
}

#[test]
fn measured_distance_is_kept_when_the_target_changes() {
    let mut node = Node::new(Vector::new(3, 4));
    let near = Node::new(Vector::new(0, 0));
    let far = Node::new(Vector::new(300, 400));
    assert_eq!(node.f_cost_calculate(&near), Some(5));
    assert_eq!(node.f_cost_calculate(&far), Some(5));
    assert_eq!(node.f_cost(), Some(5));
}

#[test]
fn every_node_of_a_path_knows_its_distance_to_the_target() {
    let nodes = vec![Vector::new(0, 0), Vector::new(30, 40), Vector::new(60, 80)];
    let mut pathfinder = Pathfinder::new(nodes, edges(&[(0, 1), (1, 2)])).unwrap();
    let path = pathfinder.pathfind(NodeIndex(0), NodeIndex(2)).unwrap();
    assert_eq!(path.len(), 3);
    assert_eq!(path[0].f_cost(), Some(0 + 100));
    assert_eq!(path[1].f_cost(), Some(50 + 50));
    assert_eq!(path[2].f_cost(), Some(100 + 0));
}

#[test]
fn node_index_and_connection_are_made_from_plain_numbers() {
    assert_eq!(NodeIndex::from(3), NodeIndex(3));
    assert_eq!(Connection::from((1, 2)), Connection::from((1, 2)));
    assert_ne!(Connection::from((1, 2)), Connection::from((2, 1)));
}

#[test]
fn steps_are_rounded_up_and_estimates_down() {
    let nodes = vec![Vector::new(0, 0), Vector::new(1, 1), Vector::new(2, 2), Vector::new(3, 3)];
    let connections = edges(&[(0, 1), (1, 2), (2, 3)]);
    let mut pathfinder = Pathfinder::new(nodes, connections).unwrap();
    let path = pathfinder.pathfind(NodeIndex(0), NodeIndex(3)).unwrap();
    assert_eq!(path.len(), 4);
    assert_eq!(path[0].f_cost(), Some(0 + 4));
    assert_eq!(path[1].f_cost(), Some(2 + 2));
    assert_eq!(path[2].f_cost(), Some(4 + 1));
    assert_eq!(path[3].f_cost(), Some(6 + 0));
}

#[test]
fn the_cheaper_of_two_routes_is_found() {
    let nodes = vec![Vector::new(0, 0), Vector::new(1, 1), Vector::new(2, 2), Vector::new(3, 3)];
    let connections = edges(&[(0, 1), (1, 2), (2, 3), (0, 3)]);
    let mut pathfinder = Pathfinder::new(nodes.clone(), connections).unwrap();
    let path = pathfinder.pathfind(NodeIndex(0), NodeIndex(3)).unwrap();
    assert_eq!(positions(&path), vec![nodes[0], nodes[3]]);
    assert_eq!(path[1].f_cost(), Some(5));
}

#[test]
fn a_long_way_round_beats_a_longer_straight_edge() {
    let nodes = vec![
        Vector::new(0, 0),
        Vector::new(100, 0),
        Vector::new(50, 10),
        Vector::new(0, 500),
    ];
    let connections = edges(&[(0, 3), (3, 1), (0, 2), (2, 1)]);
    let mut pathfinder = Pathfinder::new(nodes.clone(), connections).unwrap();
    let path = pathfinder.pathfind(NodeIndex(0), NodeIndex(1)).unwrap();
    assert_eq!(positions(&path), vec![nodes[0], nodes[2], nodes[1]]);
    assert_eq!(path[2].f_cost(), Some(51 + 51));
}

#[test]
fn a_node_found_twice_keeps_the_cheaper_parent() {
    let nodes = vec![
        Vector::new(0, 0),
        Vector::new(0, 30),
        Vector::new(40, 0),
        Vector::new(40, 30),
        Vector::new(400, 30),
    ];
    let connections = edges(&[(0, 1), (0, 2), (1, 3), (2, 3), (3, 4), (0, 3)]);
    let mut pathfinder = Pathfinder::new(nodes.clone(), connections).unwrap();
    let path = pathfinder.pathfind(NodeIndex(0), NodeIndex(4)).unwrap();
    assert_eq!(positions(&path), vec![nodes[0], nodes[3], nodes[4]]);
    assert_eq!(path[1].f_cost(), Some(50 + 360));
    assert_eq!(path[2].f_cost(), Some(410));
}
