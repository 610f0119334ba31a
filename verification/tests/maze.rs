use mazer::edge::{Edge, EdgeDirection};
use mazer::error::Error;
use mazer::maze::{build, grow_zone_tree, maze_square, solve_zones, stitch_zones, Maze};
use mazer::node::Node;
use mazer::space::{follow_edge, layout, Space};
use mazer::space_meta::{Border, BorderKey, SpaceMeta};
use mazer::space_square::SpaceSquare;
use rand::SeedableRng;
use rand_chacha::ChaCha12Rng;

fn passable(d: EdgeDirection) -> bool {
    d == EdgeDirection::Forward || d == EdgeDirection::Backward || d == EdgeDirection::Border
}

fn count_of(edges: &[Edge], d: EdgeDirection) -> usize {
    edges.iter().filter(|e| e.direction == d).count()
}

fn reachable(space: &SpaceSquare, edges: &[Edge], from: usize) -> usize {
    let mut seen = vec![false; space.num_nodes()];
    let mut stack = vec![from];
    seen[from] = true;
    let mut count = 0;
    while let Some(n) = stack.pop() {
        count += 1;
        for e in space.node_edges(n) {
            if passable(edges[e].direction) {
                let far = follow_edge(space, n, e).unwrap();
                if !seen[far] {
                    seen[far] = true;
                    stack.push(far);
                }
            }
        }
    }
    count
}

fn check_way(space: &SpaceSquare, maze: &Maze) {
    let mut at = maze.start;
    let mut crossed = 0;
    for e in &maze.solution {
        assert!(passable(maze.edges[*e].direction));
        assert!(space.edge_nodes(*e).contains(&at));
        if maze.edges[*e].direction == EdgeDirection::Border {
            crossed += 1;
        }
        at = follow_edge(space, at, *e).unwrap();
    }
    assert_eq!(at, maze.end);
    assert_eq!(maze.solution_zones, crossed + 1);
    assert_eq!(maze.solution_length(), maze.solution.len());
}

#[test]
fn one_cell_is_rejected() {
    assert_eq!(maze_square(0, 1, 1).unwrap_err(), Error::InvalidGeometry);
}

#[test]
fn empty_grids_are_rejected() {
    assert_eq!(maze_square(0, 0, 5).unwrap_err(), Error::InvalidGeometry);
    assert_eq!(maze_square(0, 5, 0).unwrap_err(), Error::InvalidGeometry);
    assert_eq!(maze_square(0, usize::MAX, 2).unwrap_err(), Error::InvalidGeometry);
}

#[test]
fn two_cells_in_a_row() {
    let maze = maze_square(42, 2, 1).unwrap();
    assert_eq!(maze.nodes.len(), 2);
    assert_eq!(maze.edges.len(), 1);
    assert_eq!(maze.edges.iter().filter(|e| passable(e.direction)).count(), 1);
    assert_eq!(maze.solution_length(), 1);
    assert_eq!(maze.solution, vec![0]);
    assert_eq!(maze.nodes.iter().filter(|n| n.root).count(), 2);
    assert_eq!(maze.edges[0].direction, EdgeDirection::Border);
    assert!(maze.edges[0].solution);
    assert_eq!(maze.solution_zones, 2);
}

#[test]
fn five_by_five_in_two_zones() {
    for seed in 0..10 {
        let space = SpaceSquare::new(5, 5);
        let mut rng = ChaCha12Rng::seed_from_u64(seed);
        let (nodes, mut edges) = layout(&space, 2, &mut rng).unwrap();
        let (meta, mut meta_edges) = stitch_zones(&space, &nodes, &mut edges, &mut rng).unwrap();
        assert_eq!(count_of(&edges, EdgeDirection::Border), 1);
        assert_eq!(meta.num_nodes(), 2);
        assert_eq!(meta.num_edges(), 1);
        let gate = meta.gateway(0).unwrap();
        assert_eq!(edges[gate].direction, EdgeDirection::Border);
        let start = nodes.iter().position(|n| n.group == Some(0)).unwrap();
        let end = nodes.iter().rposition(|n| n.group == Some(1)).unwrap();
        let (zones, way) =
            solve_zones(&space, &nodes, &mut edges, &meta, &mut meta_edges, start, end).unwrap();
        assert_eq!(zones, 2);
        assert!(way.contains(&gate));
        assert_eq!(way.iter().filter(|e| edges[**e].direction == EdgeDirection::Border).count(), 1);
        let mut at = start;
        for e in &way {
            at = follow_edge(&space, at, *e).unwrap();
        }
        assert_eq!(at, end);
    }
}

#[test]
fn sixty_by_forty() {
    let maze = maze_square(20240607, 60, 40).unwrap();
    assert!(maze.solution_length() >= 1);
    assert!(maze.solution_zones >= 1 && maze.solution_zones <= 6);
    assert_eq!(maze.nodes.len(), 2400);
    assert_eq!(maze.edges.len(), 40 * 119 - 60);
    let space = SpaceSquare::new(40, 60);
    check_way(&space, &maze);
    let again = maze_square(20240607, 60, 40).unwrap();
    assert_eq!(again.solution, maze.solution);
    assert_eq!(again.solution_zones, maze.solution_zones);
    assert_eq!((again.start, again.end), (maze.start, maze.end));
}

#[test]
fn maze_is_a_function_of_its_inputs() {
    for seed in [0u64, 1, 77, u64::MAX] {
        let a = maze_square(seed, 9, 7).unwrap();
        let b = maze_square(seed, 9, 7).unwrap();
        assert_eq!((a.start, a.end, a.solution_zones), (b.start, b.end, b.solution_zones));
        assert_eq!(a.solution, b.solution);
        for (x, y) in a.edges.iter().zip(b.edges.iter()) {
            assert_eq!((x.direction, x.solution), (y.direction, y.solution));
        }
        for (x, y) in a.nodes.iter().zip(b.nodes.iter()) {
            assert_eq!((x.group, x.root), (y.group, y.root));
        }
    }
}

#[test]
fn gateways_are_one_less_than_zones() {
    for seed in 0..20 {
        let maze = maze_square(seed, 8, 6).unwrap();
        assert_eq!(count_of(&maze.edges, EdgeDirection::Border), 5);
        assert_eq!(count_of(&maze.edges, EdgeDirection::Unknown), 0);
        let space = SpaceSquare::new(6, 8);
        let mut keys = Vec::new();
        for e in 0..maze.edges.len() {
            if maze.edges[e].direction == EdgeDirection::Border {
                let ends = space.edge_nodes(e);
                let a = maze.nodes[ends[0]].group.unwrap();
                let b = maze.nodes[ends[1]].group.unwrap();
                assert_ne!(a, b);
                let key = (a.min(b), a.max(b));
                assert!(!keys.contains(&key));
                keys.push(key);
            }
        }
    }
}

#[test]
fn passable_edges_span_the_grid() {
    for seed in 0..20 {
        let maze = maze_square(seed, 8, 6).unwrap();
        let space = SpaceSquare::new(6, 8);
        let open = maze.edges.iter().filter(|e| passable(e.direction)).count();
        assert_eq!(open, space.num_nodes() - 1);
        assert_eq!(reachable(&space, &maze.edges, 0), space.num_nodes());
    }
}

#[test]
fn the_way_leads_from_start_to_end() {
    for seed in 0..40 {
        let maze = maze_square(seed, 10, 10).unwrap();
        let space = SpaceSquare::new(10, 10);
        assert_ne!(maze.start, maze.end);
        check_way(&space, &maze);
        let mut seen = Vec::new();
        for e in &maze.solution {
            assert!(!seen.contains(e));
            seen.push(*e);
            assert!(maze.edges[*e].solution);
        }
        let marked = maze.edges.iter().filter(|e| e.solution && passable(e.direction)).count();
        assert_eq!(marked, maze.solution.len());
    }
}

#[test]
fn small_grids_get_fewer_zones() {
    let maze = maze_square(3, 2, 2).unwrap();
    assert_eq!(maze.nodes.iter().filter(|n| n.root).count(), 4);
    assert_eq!(count_of(&maze.edges, EdgeDirection::Border), 3);
    let space = SpaceSquare::new(2, 2);
    check_way(&space, &maze);
}

#[test]
fn build_with_one_zone_has_no_gateway() {
    let space = SpaceSquare::new(4, 4);
    let mut rng = ChaCha12Rng::seed_from_u64(12);
    let maze = build(&space, 1, &mut rng).unwrap();
    assert_eq!(count_of(&maze.edges, EdgeDirection::Border), 0);
    assert_eq!(maze.solution_zones, 1);
    check_way(&space, &maze);
    let mut rng = ChaCha12Rng::seed_from_u64(12);
    assert_eq!(build(&space, 0, &mut rng).unwrap_err(), Error::InvalidGeometry);
}

#[test]
fn meta_lists_zones_and_borders_in_order_found() {
    let space = SpaceSquare::new(2, 2);
    let nodes = vec![
        Node { group: Some(2), root: true },
        Node { group: Some(0), root: true },
        Node { group: Some(2), root: false },
        Node { group: Some(1), root: true },
    ];
    let edges = vec![Edge::default(); 4];
    let meta = SpaceMeta::new(&space, &edges, &nodes);
    assert_eq!(meta.num_nodes(), 3);
    assert_eq!(meta.num_edges(), 3);
    assert_eq!(meta.zone_index(0), Some(0));
    assert_eq!(meta.zone_index(2), Some(1));
    assert_eq!(meta.zone_index(1), Some(2));
    assert_eq!(meta.zone_index(7), None);
    assert_eq!(meta.edge_nodes(0), vec![0, 1]);
    assert_eq!(meta.edge_nodes(1), vec![0, 2]);
    assert_eq!(meta.edge_nodes(2), vec![2, 1]);
    assert_eq!(meta.node_edges(0), vec![0, 1]);
    assert_eq!(meta.node_edges(1), vec![0, 2]);
    assert_eq!(meta.node_edges(2), vec![1, 2]);
    assert_eq!(meta.gateway(0), None);
    assert_eq!(meta.gateway(9), None);
}

#[test]
fn gateways_open_only_where_the_meta_edge_is_open() {
    let space = SpaceSquare::new(2, 2);
    let nodes = vec![
        Node { group: Some(0), root: true },
        Node { group: Some(1), root: true },
        Node { group: Some(0), root: false },
        Node { group: Some(1), root: false },
    ];
    let closed = Edge { direction: EdgeDirection::Closed, solution: false };
    let mut edges = vec![
        closed,
        Edge { direction: EdgeDirection::Forward, solution: false },
        Edge { direction: EdgeDirection::Forward, solution: false },
        closed,
    ];
    let mut meta = SpaceMeta::new(&space, &edges, &nodes);
    assert_eq!(meta.num_edges(), 1);
    let mut rng = ChaCha12Rng::seed_from_u64(1);
    meta.open_gateways(&vec![closed], &mut edges, &mut rng);
    assert_eq!(meta.gateway(0), None);
    assert_eq!(count_of(&edges, EdgeDirection::Border), 0);
    let open = Edge { direction: EdgeDirection::Forward, solution: false };
    meta.open_gateways(&vec![open], &mut edges, &mut rng);
    let gate = meta.gateway(0).unwrap();
    assert!(gate == 0 || gate == 3);
    assert_eq!(edges[gate].direction, EdgeDirection::Border);
    assert_eq!(count_of(&edges, EdgeDirection::Border), 1);
    meta.open_gateways(&vec![open], &mut edges, &mut rng);
    assert_eq!(meta.gateway(0), Some(gate));
    assert_eq!(count_of(&edges, EdgeDirection::Border), 1);
}

#[test]
fn zone_tree_has_one_edge_less_than_zones() {
    let space = SpaceSquare::new(6, 6);
    let mut rng = ChaCha12Rng::seed_from_u64(2);
    let (nodes, edges) = layout(&space, 5, &mut rng).unwrap();
    let meta = SpaceMeta::new(&space, &edges, &nodes);
    let meta_edges = grow_zone_tree(&meta, &mut rng).unwrap();
    assert_eq!(meta.num_nodes(), 5);
    assert_eq!(meta_edges.len(), meta.num_edges());
    let open = meta_edges.iter().filter(|e| e.direction != EdgeDirection::Closed).count();
    assert_eq!(open, 4);
}

#[test]
fn a_border_without_gateway_is_reported() {
    let space = SpaceSquare::new(5, 5);
    let mut rng = ChaCha12Rng::seed_from_u64(6);
    let (nodes, mut edges) = layout(&space, 2, &mut rng).unwrap();
    let meta = SpaceMeta::new(&space, &edges, &nodes);
    let mut meta_edges = grow_zone_tree(&meta, &mut rng).unwrap();
    let start = nodes.iter().position(|n| n.group == Some(0)).unwrap();
    let end = nodes.iter().position(|n| n.group == Some(1)).unwrap();
    let r = solve_zones(&space, &nodes, &mut edges, &meta, &mut meta_edges, start, end);
    assert_eq!(r.unwrap_err(), Error::GatewayMissing);
}

#[test]
fn a_zone_without_border_is_reported() {
    let space = SpaceSquare::new(1, 2);
    let one_zone = vec![Node { group: Some(0), root: true }, Node { group: Some(0), root: false }];
    let closed = Edge { direction: EdgeDirection::Closed, solution: false };
    let mut edges = vec![closed];
    let meta = SpaceMeta::new(&space, &edges, &one_zone);
    assert_eq!(meta.num_nodes(), 0);
    let two_zones = vec![Node { group: Some(0), root: true }, Node { group: Some(1), root: true }];
    let mut meta_edges = Vec::new();
    let r = solve_zones(&space, &two_zones, &mut edges, &meta, &mut meta_edges, 0, 1);
    assert_eq!(r.unwrap_err(), Error::NodeOutOfBounds(0, 0));
}

#[test]
fn marks_that_lead_nowhere_are_reported() {
    let space = SpaceSquare::new(1, 2);
    let nodes = vec![Node { group: Some(0), root: true }, Node { group: Some(0), root: true }];
    let closed = Edge { direction: EdgeDirection::Closed, solution: false };
    let mut edges = vec![closed];
    let meta = SpaceMeta::new(&space, &edges, &nodes);
    let mut meta_edges = Vec::new();
    let r = solve_zones(&space, &nodes, &mut edges, &meta, &mut meta_edges, 0, 1);
    assert_eq!(
        r.unwrap_err(),
        Error::MessageError("the solution marks do not lead to the end")
    );
}

#[test]
fn border_keys_and_borders() {
    let key = BorderKey::new(5, 2);
    assert_eq!((key.0, key.1), (2, 5));
    let same = BorderKey::new(2, 5);
    assert_eq!((same.0, same.1), (2, 5));
    assert_eq!(key.into_iter(), vec![2, 5]);
    let mut border = Border::new(key, 7);
    assert_eq!(border.edges, vec![7]);
    assert_eq!(border.gateway, None);
    assert!(border.matches_group(2));
    assert!(border.matches_group(5));
    assert!(!border.matches_group(3));
    assert!(border.matches_key(&same));
    assert!(!border.matches_key(&BorderKey::new(2, 6)));
    border.push(9);
    assert_eq!(border.edges, vec![7, 9]);
    let mut rng = ChaCha12Rng::seed_from_u64(0);
    let gate = border.choose_gateway(&mut rng);
    assert!(gate == 7 || gate == 9);
    assert_eq!(border.gateway, Some(gate));
    for _ in 0..5 {
        assert_eq!(border.choose_gateway(&mut rng), gate);
    }
}

#[test]
fn every_grid_of_two_cells_or_more_gets_a_maze() {
    for height in 0..6 {
        for width in 0..6 {
            for seed in 0..6 {
                let built = maze_square(seed, width, height);
                assert_eq!(built.is_ok(), width * height >= 2);
                if let Ok(maze) = built {
                    let space = SpaceSquare::new(height, width);
                    check_way(&space, &maze);
                    for e in 0..maze.edges.len() {
                        assert_eq!(maze.edges[e].solution, maze.solution.contains(&e));
                    }
                    let roots = maze.nodes.iter().filter(|n| n.root).count();
                    assert_eq!(roots, (width * height).min(6));
                    assert_eq!(count_of(&maze.edges, EdgeDirection::Border), roots - 1);
                    assert_eq!(reachable(&space, &maze.edges, maze.start), width * height);
                }
            }
        }
    }
}

#[test]
fn zones_are_listed_as_their_borders_are_found() {
    let space = SpaceSquare::new(1, 4);
    let nodes = vec![
        Node { group: Some(3), root: true },
        Node { group: Some(3), root: false },
        Node { group: Some(1), root: true },
        Node { group: Some(0), root: true },
    ];
    let edges = vec![Edge::default(); 3];
    let meta = SpaceMeta::new(&space, &edges, &nodes);
    assert_eq!(meta.num_nodes(), 3);
    assert_eq!(meta.zone_index(1), Some(0));
    assert_eq!(meta.zone_index(3), Some(1));
    assert_eq!(meta.zone_index(0), Some(2));
    assert_eq!(meta.num_edges(), 2);
    assert_eq!(meta.edge_nodes(0), vec![0, 1]);
    assert_eq!(meta.edge_nodes(1), vec![2, 0]);
}

#[test]
fn the_way_takes_no_edge_twice() {
    for seed in 0..30 {
        let maze = maze_square(seed, 12, 9).unwrap();
        let mut seen = maze.solution.clone();
        seen.sort();
        seen.dedup();
        assert_eq!(seen.len(), maze.solution.len());
        assert!(maze.solution_length() >= 1);
        assert!(maze.solution_length() <= 12 * 9 - 1);
        let gates = maze
            .solution
            .iter()
            .filter(|e| maze.edges[**e].direction == EdgeDirection::Border)
            .count();
        assert_eq!(maze.solution_zones, gates + 1);
        assert!(maze.solution_zones <= 6);
        let apart = maze.nodes[maze.start].group != maze.nodes[maze.end].group;
        assert_eq!(maze.solution_zones >= 2, apart);
    }
}

#[test]
fn two_zones_are_two_zones_on_the_way() {
    for seed in 0..20 {
        let space = SpaceSquare::new(5, 5);
        let mut rng = ChaCha12Rng::seed_from_u64(seed);
        let maze = build(&space, 2, &mut rng).unwrap();
        let apart = maze.nodes[maze.start].group != maze.nodes[maze.end].group;
        assert_eq!(maze.solution_zones, if apart { 2 } else { 1 });
    }
}

#[test]
fn a_chosen_gateway_is_an_edge_of_its_border() {
    let mut rng = ChaCha12Rng::seed_from_u64(3);
    for _ in 0..20 {
        let mut border = Border::new(BorderKey::new(0, 1), 4);
        border.push(8);
        border.push(15);
        let gate = border.choose_gateway(&mut rng);
        assert!(border.edges.contains(&gate));
        border.push(16);
        assert_eq!(border.choose_gateway(&mut rng), gate);
        assert!(border.edges.contains(&gate));
    }
}
