use mazer::edge::{Edge, EdgeDirection};
use mazer::error::Error;
use mazer::node::Node;
use mazer::space::{
    find_root, follow_edge, get_endpoints, layout, n_unique_indices, node_parent, solve, trace,
    SolutionIterator, Space,
};
use mazer::space_square::SpaceSquare;
use rand::SeedableRng;
use rand_chacha::ChaCha12Rng;

fn is_tree(d: EdgeDirection) -> bool {
    d == EdgeDirection::Forward || d == EdgeDirection::Backward
}

fn count_tree(edges: &[Edge]) -> usize {
    edges.iter().filter(|e| is_tree(e.direction)).count()
}

fn count_of(edges: &[Edge], d: EdgeDirection) -> usize {
    edges.iter().filter(|e| e.direction == d).count()
}

fn grown(rows: usize, cols: usize, roots: usize, seed: u64) -> (SpaceSquare, Vec<Node>, Vec<Edge>) {
    let space = SpaceSquare::new(rows, cols);
    let mut rng = ChaCha12Rng::seed_from_u64(seed);
    let (nodes, edges) = layout(&space, roots, &mut rng).unwrap();
    (space, nodes, edges)
}

fn marks_at(space: &SpaceSquare, edges: &[Edge], n: usize) -> usize {
    space.node_edges(n).iter().filter(|e| edges[**e].solution).count()
}

#[test]
fn no_edge_stays_unknown() {
    for seed in 0..20 {
        let (_space, _nodes, edges) = grown(7, 9, 6, seed);
        assert_eq!(count_of(&edges, EdgeDirection::Unknown), 0);
        assert_eq!(count_of(&edges, EdgeDirection::Border), 0);
        assert!(edges.iter().all(|e| !e.solution));
    }
}

#[test]
fn every_cell_has_a_zone_and_each_zone_one_root() {
    for seed in 0..20 {
        let (_space, nodes, _edges) = grown(7, 9, 6, seed);
        assert!(nodes.iter().all(|n| matches!(n.group, Some(g) if g < 6)));
        let roots: Vec<&Node> = nodes.iter().filter(|n| n.root).collect();
        assert_eq!(roots.len(), 6);
        let mut zones: Vec<usize> = roots.iter().map(|n| n.group.unwrap()).collect();
        zones.sort();
        assert_eq!(zones, vec![0, 1, 2, 3, 4, 5]);
    }
}

#[test]
fn tree_edges_are_cells_less_roots() {
    for seed in 0..20 {
        let (space, _nodes, edges) = grown(7, 9, 6, seed);
        assert_eq!(count_tree(&edges), space.num_nodes() - 6);
        assert_eq!(
            count_of(&edges, EdgeDirection::Closed),
            space.num_edges() - (space.num_nodes() - 6)
        );
    }
}

#[test]
fn tree_edges_point_from_parent_to_child() {
    for seed in 0..10 {
        let (space, nodes, edges) = grown(6, 5, 3, seed);
        for n in 0..space.num_nodes() {
            let ups: Vec<usize> = space
                .node_edges(n)
                .into_iter()
                .filter(|e| {
                    let far = follow_edge(&space, n, *e).unwrap();
                    (edges[*e].direction == EdgeDirection::Forward && far < n)
                        || (edges[*e].direction == EdgeDirection::Backward && far > n)
                })
                .collect();
            if nodes[n].root {
                assert!(ups.is_empty());
                assert_eq!(node_parent(&space, n, &edges), None);
            } else {
                assert_eq!(ups.len(), 1);
                let far = follow_edge(&space, n, ups[0]).unwrap();
                assert_eq!(node_parent(&space, n, &edges), Some((ups[0], far)));
                assert_eq!(nodes[far].group, nodes[n].group);
            }
        }
        for e in 0..space.num_edges() {
            if is_tree(edges[e].direction) {
                let ends = space.edge_nodes(e);
                assert_eq!(nodes[ends[0]].group, nodes[ends[1]].group);
            }
        }
    }
}

#[test]
fn every_cell_climbs_to_the_root_of_its_zone() {
    let (space, nodes, edges) = grown(6, 6, 4, 11);
    for n in 0..space.num_nodes() {
        let mut at = n;
        let mut steps = 0;
        while let Some((_e, up)) = node_parent(&space, at, &edges) {
            at = up;
            steps += 1;
            assert!(steps < space.num_nodes());
        }
        assert!(nodes[at].root);
        assert_eq!(nodes[at].group, nodes[n].group);
    }
}

#[test]
fn three_by_three_with_one_root() {
    for seed in 0..25 {
        let (space, nodes, mut edges) = grown(3, 3, 1, seed);
        assert_eq!(space.num_nodes(), 9);
        assert_eq!(space.num_edges(), 12);
        assert_eq!(count_tree(&edges), 8);
        assert_eq!(count_of(&edges, EdgeDirection::Closed), 4);
        assert_eq!(count_of(&edges, EdgeDirection::Unknown), 0);
        assert!(nodes.iter().all(|n| n.group == Some(0)));
        assert_eq!(nodes.iter().filter(|n| n.root).count(), 1);
        let path = solve(&space, &mut edges, 0, 8).unwrap();
        assert!(path.len() >= 4 && path.len() <= 8);
    }
}

#[test]
fn root_count_is_taken_down_to_the_cell_count() {
    let (space, nodes, edges) = grown(1, 2, 6, 42);
    assert_eq!(space.num_nodes(), 2);
    assert_eq!(nodes.iter().filter(|n| n.root).count(), 2);
    let mut zones: Vec<usize> = nodes.iter().map(|n| n.group.unwrap()).collect();
    zones.sort();
    assert_eq!(zones, vec![0, 1]);
    assert_eq!(edges.len(), 1);
    assert_eq!(edges[0].direction, EdgeDirection::Closed);
}

#[test]
fn layout_rejects_no_roots() {
    let space = SpaceSquare::new(3, 3);
    let mut rng = ChaCha12Rng::seed_from_u64(1);
    assert_eq!(layout(&space, 0, &mut rng).unwrap_err(), Error::InvalidGeometry);
}

#[test]
fn layout_is_a_function_of_the_seed() {
    let (_s, nodes_a, edges_a) = grown(8, 8, 6, 1234);
    let (_s, nodes_b, edges_b) = grown(8, 8, 6, 1234);
    for (a, b) in nodes_a.iter().zip(nodes_b.iter()) {
        assert_eq!(a.group, b.group);
        assert_eq!(a.root, b.root);
    }
    for (a, b) in edges_a.iter().zip(edges_b.iter()) {
        assert_eq!(a.direction, b.direction);
    }
}

#[test]
fn unique_indices_are_distinct_and_in_range() {
    let mut rng = ChaCha12Rng::seed_from_u64(5);
    for n in 0..=10 {
        let mut picked = n_unique_indices(&mut rng, 10, n);
        assert_eq!(picked.len(), n);
        assert!(picked.iter().all(|i| *i < 10));
        picked.sort();
        picked.dedup();
        assert_eq!(picked.len(), n);
    }
}

#[test]
fn endpoints_are_distinct_cells() {
    let space = SpaceSquare::new(1, 2);
    let mut rng = ChaCha12Rng::seed_from_u64(9);
    for _ in 0..50 {
        let (start, end) = get_endpoints(&space, &mut rng);
        assert!(start < 2);
        assert!(end < 2);
        assert_ne!(start, end);
    }
    let wide = SpaceSquare::new(5, 7);
    let mut seen_last = false;
    for _ in 0..2000 {
        let (start, end) = get_endpoints(&wide, &mut rng);
        assert!(start < 35 && end < 35 && start != end);
        seen_last = seen_last || start == 34 || end == 34;
    }
    assert!(seen_last);
}

#[test]
fn follow_edge_gives_the_other_end() {
    let space = SpaceSquare::new(3, 4);
    assert_eq!(follow_edge(&space, 0, 3), Some(4));
    assert_eq!(follow_edge(&space, 4, 3), Some(0));
    assert_eq!(follow_edge(&space, 10, 16), Some(11));
}

#[test]
fn find_root_twice_restores_the_marks() {
    for seed in 0..10 {
        let (space, _nodes, mut edges) = grown(6, 7, 3, seed);
        find_root(&space, &mut edges, 17);
        let once: Vec<bool> = edges.iter().map(|e| e.solution).collect();
        find_root(&space, &mut edges, 5);
        let mixed: Vec<bool> = edges.iter().map(|e| e.solution).collect();
        find_root(&space, &mut edges, 5);
        let back: Vec<bool> = edges.iter().map(|e| e.solution).collect();
        assert_eq!(back, once);
        find_root(&space, &mut edges, 17);
        assert!(edges.iter().all(|e| !e.solution));
        let _ = mixed;
    }
}

#[test]
fn find_root_marks_the_way_to_the_root() {
    let (space, nodes, mut edges) = grown(5, 5, 1, 3);
    let mut way = Vec::new();
    let mut at = 24;
    while let Some((e, up)) = node_parent(&space, at, &edges) {
        way.push(e);
        at = up;
    }
    assert!(nodes[at].root);
    find_root(&space, &mut edges, 24);
    for e in 0..edges.len() {
        assert_eq!(edges[e].solution, way.contains(&e));
    }
}

#[test]
fn solution_is_a_simple_path() {
    for seed in 0..20 {
        let (space, _nodes, mut edges) = grown(6, 6, 1, seed);
        let (start, end) = (3, 32);
        let path = solve(&space, &mut edges, start, end).unwrap();
        let marked: Vec<usize> = (0..edges.len()).filter(|e| edges[*e].solution).collect();
        let mut walked = path.clone();
        walked.sort();
        assert_eq!(walked, marked);
        let mut on_path = vec![start];
        let mut at = start;
        for e in &path {
            assert!(space.edge_nodes(*e).contains(&at));
            at = follow_edge(&space, at, *e).unwrap();
            assert!(!on_path.contains(&at));
            on_path.push(at);
        }
        assert_eq!(at, end);
        for n in 0..space.num_nodes() {
            let expect = if n == start || n == end {
                1
            } else if on_path.contains(&n) {
                2
            } else {
                0
            };
            assert_eq!(marks_at(&space, &edges, n), expect);
        }
    }
}

#[test]
fn solving_from_a_cell_to_itself_is_empty() {
    let (space, _nodes, mut edges) = grown(4, 4, 1, 8);
    let path = solve(&space, &mut edges, 9, 9).unwrap();
    assert!(path.is_empty());
    assert!(edges.iter().all(|e| !e.solution));
}

#[test]
fn solving_across_trees_finds_no_way() {
    let (space, nodes, mut edges) = grown(5, 5, 2, 4);
    let start = nodes.iter().position(|n| n.group == Some(0)).unwrap();
    let end = nodes.iter().position(|n| n.group == Some(1)).unwrap();
    assert_eq!(solve(&space, &mut edges, start, end), None);
}

#[test]
fn trace_follows_marked_tree_edges() {
    let space = SpaceSquare::new(1, 4);
    let mut edges = vec![
        Edge { direction: EdgeDirection::Forward, solution: true },
        Edge { direction: EdgeDirection::Forward, solution: true },
        Edge { direction: EdgeDirection::Forward, solution: false },
    ];
    assert_eq!(trace(&space, &edges, 0, 2), Some(vec![0, 1]));
    assert_eq!(trace(&space, &edges, 2, 0), Some(vec![1, 0]));
    assert_eq!(trace(&space, &edges, 0, 3), None);
    assert_eq!(trace(&space, &edges, 1, 1), Some(vec![]));
    edges[1].direction = EdgeDirection::Border;
    assert_eq!(trace(&space, &edges, 0, 2), None);
    assert_eq!(trace(&space, &edges, 0, 1), Some(vec![0]));
}

#[test]
fn solution_iterator_steps_and_stops() {
    let space = SpaceSquare::new(1, 3);
    let edges = vec![
        Edge { direction: EdgeDirection::Backward, solution: true },
        Edge { direction: EdgeDirection::Forward, solution: true },
    ];
    let mut it = SolutionIterator { space: &space, edges: &edges, last_node: 0, last_edge: None };
    assert_eq!(it.next(), Some(0));
    assert_eq!(it.last_node, 1);
    assert_eq!(it.next(), Some(1));
    assert_eq!(it.last_node, 2);
    assert_eq!(it.next(), None);
    assert_eq!(it.last_node, 2);
    assert_eq!(it.last_edge, Some(1));
}

#[test]
fn as_many_roots_as_cells_make_every_cell_a_root() {
    for seed in 0..10 {
        let (space, nodes, edges) = grown(3, 4, 12, seed);
        assert!(nodes.iter().all(|n| n.root && n.group.is_some()));
        assert_eq!(count_tree(&edges), 0);
        assert_eq!(count_of(&edges, EdgeDirection::Closed), space.num_edges());
        let (_s, more, _e) = grown(3, 4, 100, seed);
        assert_eq!(more.iter().filter(|n| n.root).count(), 12);
    }
}

#[test]
fn a_solved_way_takes_no_edge_twice() {
    for seed in 0..20 {
        let (space, _nodes, mut edges) = grown(7, 7, 1, seed);
        let path = solve(&space, &mut edges, 0, 48).unwrap();
        let mut seen = path.clone();
        seen.sort();
        seen.dedup();
        assert_eq!(seen.len(), path.len());
        assert!(path.len() >= 12 && path.len() <= 48 && path.len() % 2 == 0);
        assert!(path
            .iter()
            .all(|e| edges[*e].direction == EdgeDirection::Forward
                || edges[*e].direction == EdgeDirection::Backward));
    }
}
