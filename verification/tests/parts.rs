use mazer::edge::{Edge, EdgeDirection};
use mazer::error::Error;
use mazer::graph::{Direction, Edge as GraphEdge, GraphError};
use mazer::node::Node;
use mazer::render::{node_group_tag, shows_solution, solution_2d, wall_kind, walls_2d, WallKind};

#[test]
fn fresh_cells_and_edges() {
    let node = Node::new();
    assert_eq!(node.group, None);
    assert!(!node.root);
    let other = Node::default();
    assert_eq!(other.group, None);
    assert!(!other.root);
    let edge = Edge::default();
    assert_eq!(edge.direction, EdgeDirection::Unknown);
    assert!(!edge.solution);
    assert_eq!(EdgeDirection::default(), EdgeDirection::Unknown);
    assert_eq!(Error::default(), Error::Error);
}

#[test]
fn only_walls_and_gateways_are_drawn() {
    assert_eq!(wall_kind(EdgeDirection::Closed), Some(WallKind::Wall));
    assert_eq!(wall_kind(EdgeDirection::Border), Some(WallKind::Gateway));
    assert_eq!(wall_kind(EdgeDirection::Forward), None);
    assert_eq!(wall_kind(EdgeDirection::Backward), None);
    assert_eq!(wall_kind(EdgeDirection::Unknown), None);
    let edges = vec![
        Edge { direction: EdgeDirection::Forward, solution: true },
        Edge { direction: EdgeDirection::Closed, solution: true },
        Edge { direction: EdgeDirection::Border, solution: true },
        Edge { direction: EdgeDirection::Backward, solution: false },
        Edge { direction: EdgeDirection::Closed, solution: false },
    ];
    assert_eq!(
        walls_2d(&edges),
        vec![(1, WallKind::Wall), (2, WallKind::Gateway), (4, WallKind::Wall)]
    );
    assert_eq!(solution_2d(&edges), vec![0, 2]);
    assert!(shows_solution(&edges[0]));
    assert!(!shows_solution(&edges[1]));
    assert!(!shows_solution(&edges[3]));
}

#[test]
fn cells_are_tagged_with_their_zone() {
    assert_eq!(node_group_tag(&Node { group: Some(3), root: false }), 3);
    assert_eq!(node_group_tag(&Node { group: None, root: false }), usize::MAX);
}

#[test]
fn named_edges_know_their_ends() {
    let mut edge = GraphEdge::default();
    assert_eq!(edge.a, usize::MAX);
    assert_eq!(edge.b, usize::MAX);
    assert_eq!(edge.direction, Direction::Undefined);
    assert!(!edge.solution);
    assert!(!edge.is_head(0));
    edge.a = 4;
    edge.b = 9;
    assert_eq!(edge.follow_from(4), 9);
    assert_eq!(edge.follow_from(9), 4);
    assert_eq!(edge.follow_from(1), 4);
    edge.direction = Direction::Directed(9, 4);
    assert!(edge.is_head(9));
    assert!(!edge.is_head(4));
    edge.direction = Direction::Closed;
    assert!(!edge.is_head(9));
    assert_eq!(GraphError::ErrOutOfBounds, GraphError::ErrOutOfBounds);
}
