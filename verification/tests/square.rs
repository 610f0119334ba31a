use mazer::space::Space;
use mazer::space_square::SpaceSquare;

fn sorted(mut v: Vec<usize>) -> Vec<usize> {
    v.sort();
    v
}

#[test]
fn test_num_edges() {
    let space = SpaceSquare::new(3, 3);
    assert_eq!(space.num_edges(), 12);
}

#[test]
fn test_num_nodes() {
    let space = SpaceSquare::new(3, 3);
    assert_eq!(space.num_nodes(), 9);
}

#[test]
fn test_node_edges() {
    let space = SpaceSquare::new(3, 3);
    assert_eq!(sorted(space.node_edges(0)), vec![0, 2]);
    assert_eq!(sorted(space.node_edges(1)), vec![0, 1, 3]);
    assert_eq!(sorted(space.node_edges(2)), vec![1, 4]);

    assert_eq!(sorted(space.node_edges(3)), vec![2, 5, 7]);
    assert_eq!(sorted(space.node_edges(4)), vec![3, 5, 6, 8]);
    assert_eq!(sorted(space.node_edges(5)), vec![4, 6, 9]);

    assert_eq!(sorted(space.node_edges(6)), vec![7, 10]);
    assert_eq!(sorted(space.node_edges(7)), vec![8, 10, 11]);
    assert_eq!(sorted(space.node_edges(8)), vec![9, 11]);
}

#[test]
fn test_edge_nodes() {
    let space = SpaceSquare::new(3, 4);
    assert_eq!(sorted(space.edge_nodes(0)), vec![0, 1]);
    assert_eq!(sorted(space.edge_nodes(1)), vec![1, 2]);
    assert_eq!(sorted(space.edge_nodes(2)), vec![2, 3]);

    assert_eq!(sorted(space.edge_nodes(3)), vec![0, 4]);
    assert_eq!(sorted(space.edge_nodes(4)), vec![1, 5]);
    assert_eq!(sorted(space.edge_nodes(5)), vec![2, 6]);
    assert_eq!(sorted(space.edge_nodes(6)), vec![3, 7]);

    assert_eq!(sorted(space.edge_nodes(7)), vec![4, 5]);
    assert_eq!(sorted(space.edge_nodes(8)), vec![5, 6]);
    assert_eq!(sorted(space.edge_nodes(9)), vec![6, 7]);

    assert_eq!(sorted(space.edge_nodes(10)), vec![4, 8]);
    assert_eq!(sorted(space.edge_nodes(11)), vec![5, 9]);
    assert_eq!(sorted(space.edge_nodes(12)), vec![6, 10]);
    assert_eq!(sorted(space.edge_nodes(13)), vec![7, 11]);

    assert_eq!(sorted(space.edge_nodes(14)), vec![8, 9]);
    assert_eq!(sorted(space.edge_nodes(15)), vec![9, 10]);
    assert_eq!(sorted(space.edge_nodes(16)), vec![10, 11]);
}

#[test]
fn test_edge_position() {
    let space = SpaceSquare::new(3, 4);
    for eid in 0..space.num_edges() {
        let (start, end) = space.edge_position(eid);
        assert!(
            (start.0 == end.0) || (start.1 == end.1),
            "edge {eid} is diagonal: {start:?} {end:?}"
        );
    }
}

#[test]
fn edge_cells_follow_the_band_scheme() {
    let space = SpaceSquare::new(3, 4);
    assert_eq!(sorted(space.edge_nodes(0)), vec![0, 1]);
    assert_eq!(sorted(space.edge_nodes(3)), vec![0, 4]);
    assert_eq!(sorted(space.edge_nodes(7)), vec![4, 5]);
    assert_eq!(sorted(space.edge_nodes(16)), vec![10, 11]);
}

#[test]
fn edge_nodes_come_in_listing_order() {
    let space = SpaceSquare::new(3, 4);
    assert_eq!(space.edge_nodes(0), vec![0, 1]);
    assert_eq!(space.edge_nodes(3), vec![0, 4]);
    assert_eq!(space.edge_nodes(13), vec![7, 11]);
}

#[test]
fn node_edges_come_north_west_east_south() {
    let space = SpaceSquare::new(3, 3);
    assert_eq!(space.node_edges(4), vec![3, 5, 6, 8]);
    assert_eq!(space.node_edges(0), vec![0, 2]);
    assert_eq!(space.node_edges(8), vec![9, 11]);
}

#[test]
fn counts_of_a_grid() {
    let space = SpaceSquare::new(40, 60);
    assert_eq!(space.num_nodes(), 2400);
    assert_eq!(space.num_edges(), 40 * 119 - 60);
    let one = SpaceSquare::new(1, 1);
    assert_eq!(one.num_nodes(), 1);
    assert_eq!(one.num_edges(), 0);
    let row = SpaceSquare::new(1, 2);
    assert_eq!(row.num_nodes(), 2);
    assert_eq!(row.num_edges(), 1);
}

#[test]
fn validity_of_a_grid() {
    assert!(SpaceSquare::new(1, 1).is_valid());
    assert!(SpaceSquare::new(40, 60).is_valid());
    assert!(!SpaceSquare::new(0, 3).is_valid());
    assert!(!SpaceSquare::new(3, 0).is_valid());
    assert!(!SpaceSquare::new(usize::MAX, 2).is_valid());
    assert!(!SpaceSquare::new(2, usize::MAX).is_valid());
}

#[test]
fn incidence_and_its_inverse_agree() {
    let space = SpaceSquare::new(4, 5);
    for n in 0..space.num_nodes() {
        let edges = space.node_edges(n);
        for (i, e) in edges.iter().enumerate() {
            assert!(*e < space.num_edges());
            assert!(space.edge_nodes(*e).contains(&n));
            assert!(!edges[..i].contains(e));
        }
    }
    for e in 0..space.num_edges() {
        let ends = space.edge_nodes(e);
        assert_eq!(ends.len(), 2);
        assert_ne!(ends[0], ends[1]);
        for n in ends {
            assert!(n < space.num_nodes());
            assert!(space.node_edges(n).contains(&e));
        }
    }
}

#[test]
fn positions_are_row_and_column() {
    let space = SpaceSquare::new(3, 4);
    assert_eq!(space.node_position(0), (0, 0));
    assert_eq!(space.node_position(5), (1, 1));
    assert_eq!(space.node_position(11), (2, 3));
    assert_eq!(space.edge_position(0), ((0, 0), (0, 1)));
    assert_eq!(space.edge_position(3), ((0, 0), (1, 0)));
    assert_eq!(space.edge_position(16), ((2, 2), (2, 3)));
}

#[test]
fn grids_without_cells_are_rejected_when_made() {
    assert_eq!(SpaceSquare::try_new(0, 3).unwrap_err(), mazer::error::Error::InvalidGeometry);
    assert_eq!(SpaceSquare::try_new(3, 0).unwrap_err(), mazer::error::Error::InvalidGeometry);
    assert_eq!(SpaceSquare::try_new(0, 0).unwrap_err(), mazer::error::Error::InvalidGeometry);
    assert_eq!(
        SpaceSquare::try_new(usize::MAX, 2).unwrap_err(),
        mazer::error::Error::InvalidGeometry
    );
    let grid = SpaceSquare::try_new(3, 4).unwrap();
    assert_eq!(grid.num_nodes(), 12);
    assert_eq!(grid.num_edges(), 17);
    assert!(SpaceSquare::try_new(1, 1).is_ok());
}
