use vstd::prelude::*;
use rand_chacha::ChaCha12Rng;
use crate::edge::{Edge, EdgeDirection};
use crate::error::Error;
use crate::node::Node;
use crate::count::{
    count_true, lemma_count_either, lemma_count_none, lemma_picked_every, lemma_picked_fit, picked,
};
use crate::reach::{lemma_linked_same, lemma_one_piece, linked, passable_path, zone_forest};
use crate::rng::seeded;
use crate::space::{
    border_count, border_flags, child_end, connected, far_end, get_endpoints, is_chain, is_forest,
    layout, lemma_chain_join, lemma_ranked_same, lemma_walk_chain, oriented, parent_end, ranked,
    root_count, roots_marked, same_directions, solve, tree_count, tree_flags, tree_total, Growth,
    Space,
};
use crate::space_meta::{
    edge_key, lemma_meta_connected, lemma_zone_total, open_flags, opened, straddles, zone_of,
    SpaceMeta,
};
use crate::space_square::SpaceSquare;
use crate::way::grown;
use crate::zones::{
    gates_behind, gates_on, gates_set, lemma_arrived, lemma_gate_fresh, lemma_gate_marked,
    lemma_gate_zones, lemma_gates_piece, lemma_gates_same, lemma_gates_step, lemma_marks_last,
    lemma_marks_step, lemma_way_last, lemma_way_step, lemma_ready_meta, lemma_ready_zone, lemma_route_step, lemma_segment_clear,
    lemma_segment_done, lemma_set_out, listed, marks_on, ready, underway,
};

verus! {

/// A rank that shows the tree edges free of cycles still does so after edges
/// that were no tree edges changed their direction to another that is none.
pub proof fn lemma_ranked_kept<S: Space>(space: &S, before: Seq<Edge>, after: Seq<Edge>, rank: Seq<nat>)
    requires
        ranked(space, before, rank),
        before.len() == after.len(),
        forall|e: int|
            0 <= e < after.len() && (#[trigger] after[e]).direction.is_tree() ==> after[e].direction
                == before[e].direction,
    ensures
        ranked(space, after, rank),
{
    assert forall|e: int|
        0 <= e < after.len() && (#[trigger] after[e]).direction.is_tree() implies rank[crate::space::parent_end(
        space,
        after,
        e,
    )] < rank[crate::space::child_end(space, after, e)] by {
        assert(before[e].direction == after[e].direction);
    }
}

/// The way from `start` to `end` through the zones: the way through the borders
/// between the zones of the two, and within each zone on that way the way from
/// where the zone is entered to where it is left. Each gateway on the way gets
/// the solution mark.
///
/// Returns the number of zones on the way and its edges in order, gateways
/// included: a chain of passable edges from `start` to `end`. Where the forest,
/// the tree over the zones and the gateways are `ready`, it succeeds exactly
/// if the two zones are `listed`, and the way takes no edge twice. Fails with
/// `NodeOutOfBounds` exactly where the two zones differ and the first of them
/// that has no border is named; else with `GatewayMissing` where a border on the
/// way has no gateway that is a `Border` edge, and with `MessageError` where the
/// marks do not lead from a zone's entry to its exit.
pub fn solve_zones<S: Space>(
    space: &S,
    nodes: &Vec<Node>,
    edges: &mut Vec<Edge>,
    meta: &SpaceMeta,
    meta_edges: &mut Vec<Edge>,
    start: usize,
    end: usize,
) -> (r: Result<(usize, Vec<usize>), Error>)
    requires
        space.wf(),
        nodes.len() == space.node_count(),
        forall|n: int| 0 <= n < nodes.len() ==> (#[trigger] nodes@[n]).group.is_some(),
        old(edges).len() == space.edge_count(),
        start < space.node_count(),
        end < space.node_count(),
        exists|rank: Seq<nat>| ranked(space, old(edges)@, rank),
        meta.valid(),
        meta.fits(space.edge_count()),
        old(meta_edges).len() == meta.border_list().len(),
        exists|rank: Seq<nat>| ranked(meta, old(meta_edges)@, rank),
    ensures
        same_directions(final(edges)@, old(edges)@),
        same_directions(final(meta_edges)@, old(meta_edges)@),
        ready(space, nodes@, old(edges)@, meta, old(meta_edges)@) && listed(
            nodes@,
            meta,
            start as int,
            end as int,
        ) ==> r.is_ok(),
        ready(space, nodes@, old(edges)@, meta, old(meta_edges)@) && r.is_ok() ==> marks_on(
            final(edges)@,
            r.unwrap().1@,
        ) && r.unwrap().1@.no_duplicates(),
        match r {
            Ok((zones, path)) => {
                &&& is_chain(space, path@, start as int, end as int)
                &&& passable_path(final(edges)@, path@)
                &&& zones == 1 + gates_on(final(edges)@, path@)
                &&& 1 <= zones <= path@.len() + 1
                &&& (nodes@[start as int].group == nodes@[end as int].group ==> zones == 1)
                &&& (nodes@[start as int].group != nodes@[end as int].group ==> zones >= 2)
            },
            Err(e) => {
                ||| e == Error::GatewayMissing
                ||| e == Error::NodeOutOfBounds(
                    nodes@[start as int].group.unwrap(),
                    meta.node_count() as usize,
                )
                ||| e == Error::NodeOutOfBounds(
                    nodes@[end as int].group.unwrap(),
                    meta.node_count() as usize,
                )
                ||| e == Error::MessageError("the solution marks do not lead to the end")
                ||| e == Error::MessageError("a gateway does not touch the zone it leaves")
            },
        },
        nodes@[start as int].group != nodes@[end as int].group && !meta.zone_groups().contains(
            nodes@[start as int].group.unwrap(),
        ) ==> r == Err::<(usize, Vec<usize>), Error>(
            Error::NodeOutOfBounds(nodes@[start as int].group.unwrap(), meta.node_count() as usize),
        ),
        nodes@[start as int].group != nodes@[end as int].group && meta.zone_groups().contains(
            nodes@[start as int].group.unwrap(),
        ) && !meta.zone_groups().contains(nodes@[end as int].group.unwrap()) ==> r == Err::<
            (usize, Vec<usize>),
            Error,
        >(Error::NodeOutOfBounds(nodes@[end as int].group.unwrap(), meta.node_count() as usize)),
{
    let ghost ok = ready(space, nodes@, old(edges)@, meta, old(meta_edges)@);
    let ghost marks0 = meta_edges@;
    let ghost (g, seeds) = choose|g: Growth, seeds: Seq<usize>|
        grown(space, nodes@, old(edges)@, g) && roots_marked(nodes@, seeds) && seeds.len()
            <= usize::MAX;
    let ghost (cells, mg, tops) = choose|cells: Seq<Node>, mg: Growth, tops: Seq<usize>|
        grown(meta, cells, marks0, mg) && roots_marked(cells, tops) && tops.len() == 1;
    let ghost mut x: int = 0;
    let ghost mut goal: int = 0;
    let start_zone = nodes[start].group.unwrap();
    let end_zone = nodes[end].group.unwrap();
    let mut path: Vec<usize> = Vec::new();
    let mut zones: usize = 1;
    let mut cur = start;
    let mut cur_zone = start_zone;
    proof {
        assert(crate::count::picked(border_flags(old(edges)@), path@) =~= Seq::<bool>::empty());
    }
    if start_zone != end_zone {
        let meta_start = match meta.zone_index(start_zone) {
            Some(i) => i,
            None => {
                return Err(Error::NodeOutOfBounds(start_zone, meta.num_nodes()));
            },
        };
        let meta_end = match meta.zone_index(end_zone) {
            Some(i) => i,
            None => {
                return Err(Error::NodeOutOfBounds(end_zone, meta.num_nodes()));
            },
        };
        proof {
            if ok {
                lemma_ready_meta(
                    space,
                    nodes@,
                    old(edges)@,
                    meta,
                    marks0,
                    cells,
                    mg,
                    tops,
                    meta_start as int,
                    meta_end as int,
                );
            }
        }
        let meta_path = match solve(meta, meta_edges, meta_start, meta_end) {
            Some(p) => p,
            None => {
                return Err(Error::MessageError("the solution marks do not lead to the end"));
            },
        };
        proof {
            lemma_walk_chain(
                meta,
                meta_edges@,
                meta_start as int,
                None,
                meta_end as int,
                meta.edge_count(),
            );
            if ok {
                lemma_set_out(
                    space,
                    nodes@,
                    edges@,
                    g,
                    seeds,
                    meta,
                    marks0,
                    cells,
                    mg,
                    tops,
                    meta_edges@,
                    meta_path@,
                    meta_start as int,
                    meta_end as int,
                    start as int,
                );
                x = meta_start as int;
                goal = meta_end as int;
                assert(meta_path@.skip(0) =~= meta_path@);
            }
            assert(meta_path@.len() > 0);
        }
        let mut i: usize = 0;
        while i < meta_path.len()
            invariant
                i <= meta_path.len(),
                space.wf(),
                nodes.len() == space.node_count(),
                forall|n: int| 0 <= n < nodes.len() ==> (#[trigger] nodes@[n]).group.is_some(),
                edges.len() == space.edge_count(),
                end < space.node_count(),
                cur < space.node_count(),
                meta.valid(),
                meta.fits(space.edge_count()),
                forall|k: int|
                    0 <= k < meta_path@.len() ==> (#[trigger] meta_path@[k])
                        < meta.border_list().len(),
                same_directions(edges@, old(edges)@),
                same_directions(meta_edges@, old(meta_edges)@),
                meta_path@.len() < usize::MAX,
                exists|rank: Seq<nat>| ranked(space, old(edges)@, rank),
                is_chain(space, path@, start as int, cur as int),
                passable_path(edges@, path@),
                zones == i + 1,
                path@.len() >= i,
                ok ==> cur_zone == zone_of(nodes@, cur as int) && goal == meta_end && underway(
                    space,
                    nodes@,
                    edges@,
                    g,
                    seeds,
                    meta,
                    cells,
                    marks0,
                    mg,
                    goal,
                    meta_path@.skip(i as int),
                    x,
                    cur as int,
                ),
                ok ==> meta.zone_groups()[meta_end as int] == end_zone,
                end_zone == zone_of(nodes@, end as int),
                ok == ready(space, nodes@, old(edges)@, meta, old(meta_edges)@),
                ok ==> marks_on(edges@, path@),
                ok ==> path@.no_duplicates() && meta_path@.no_duplicates() && gates_behind(
                    edges@,
                    meta,
                    meta_path@,
                    i as int,
                ),
                gates_on(old(edges)@, path@) == i,
                meta_path@.len() > 0,
                start < nodes.len(),
                nodes@[start as int].group != nodes@[end as int].group,
                meta.zone_groups().contains(nodes@[start as int].group.unwrap()),
                meta.zone_groups().contains(nodes@[end as int].group.unwrap()),
            decreases meta_path.len() - i,
        {
            let border = meta_path[i];
            let ghost next: int = 0;
            proof {
                if ok {
                    assert(meta_path@.skip(i as int)[0] == border);
                    next = lemma_route_step(meta, cells, marks0, mg, goal, x);
                    lemma_gate_zones(space, nodes@, edges@, meta, marks0, border as int, x, next);
                    assert(meta_path@.skip(i as int).skip(1) =~= meta_path@.skip(i + 1));
                }
            }
            let gw = match meta.gateway(border) {
                Some(gw) => gw,
                None => {
                    return Err(Error::GatewayMissing);
                },
            };
            proof {
                let b = meta.border_list()[border as int];
                let k = choose|k: int| 0 <= k < b.edges@.len() && b.edges@[k] == gw;
                assert(meta.border_list()[border as int].edges@[k] < space.edge_count());
                space.geometry();
            }
            let gate = edges[gw];
            match gate.direction {
                EdgeDirection::Border => {},
                _ => {
                    return Err(Error::GatewayMissing);
                },
            }
            let ghost before = edges@;
            proof {
                if ok {
                    lemma_gate_fresh(before, meta, meta_path@, i as int, gw);
                }
            }
            edges.set(gw, Edge { direction: gate.direction, solution: true });
            proof {
                if ok {
                    lemma_gate_marked(
                        space,
                        nodes@,
                        before,
                        edges@,
                        g,
                        seeds,
                        meta,
                        cells,
                        marks0,
                        mg,
                        goal,
                        meta_path@.skip(i as int),
                        x,
                        cur as int,
                        gw as int,
                    );
                }
            }
            let ends = space.edge_nodes(gw);
            let first = ends[0];
            let second = ends[1];
            let first_zone = nodes[first].group.unwrap();
            let second_zone = nodes[second].group.unwrap();
            let (exit, entry, entry_zone) = if first_zone == cur_zone {
                (first, second, second_zone)
            } else if second_zone == cur_zone {
                (second, first, first_zone)
            } else {
                return Err(Error::MessageError("a gateway does not touch the zone it leaves"));
            };
            proof {
                let rank = choose|rank: Seq<nat>| ranked(space, old(edges)@, rank);
                lemma_ranked_same(space, old(edges)@, edges@, rank);
                if ok {
                    lemma_segment_clear(
                        space,
                        nodes@,
                        edges@,
                        g,
                        seeds,
                        meta,
                        cells,
                        marks0,
                        mg,
                        goal,
                        meta_path@.skip(i as int),
                        x,
                        cur as int,
                        exit as int,
                    );
                }
            }
            let ghost marked = edges@;
            let mut segment = match solve(space, edges, cur, exit) {
                Some(p) => p,
                None => {
                    return Err(Error::MessageError("the solution marks do not lead to the end"));
                },
            };
            proof {
                lemma_walk_chain(
                    space,
                    edges@,
                    cur as int,
                    None,
                    exit as int,
                    space.edge_count(),
                );
                lemma_chain_join(space, path@, segment@, start as int, cur as int, exit as int);
                let gate_chain = seq![gw];
                assert(gate_chain.skip(1) =~= Seq::<usize>::empty());
                assert(space.ends(gw as int)[if exit == first { 0int } else { 1int }] == exit);
                assert(far_end(space, gw as int, exit as int) == entry);
                assert(is_chain(space, gate_chain.skip(1), entry as int, entry as int));
                assert(is_chain(space, gate_chain, exit as int, entry as int));
                lemma_chain_join(
                    space,
                    path@ + segment@,
                    gate_chain,
                    start as int,
                    exit as int,
                    entry as int,
                );
                assert((path@ + segment@).push(gw) =~= path@ + segment@ + gate_chain);
                if ok {
                    lemma_segment_done(
                        space,
                        nodes@,
                        marked,
                        edges@,
                        g,
                        seeds,
                        meta,
                        cells,
                        marks0,
                        mg,
                        goal,
                        meta_path@.skip(i as int),
                        x,
                        cur as int,
                        exit as int,
                        next,
                        entry as int,
                    );
                    x = next;
                }
            }
            let ghost walked = path@;
            let ghost piece = segment@;
            path.append(&mut segment);
            path.push(gw);
            proof {
                assert(path@ =~= (walked + piece).push(gw));
                assert forall|k: int| 0 <= k < piece.len() implies (#[trigger] piece[k])
                    < old(edges)@.len() && old(edges)@[piece[k] as int].direction.is_tree() by {
                    assert(edges@[piece[k] as int].direction.is_tree());
                }
                lemma_gates_step(old(edges)@, walked, piece, gw);
                if ok {
                    lemma_marks_step(before, marked, edges@, walked, piece, gw as int);
                    lemma_way_step(
                        before,
                        marked,
                        edges@,
                        walked,
                        piece,
                        gw,
                        meta,
                        meta_path@,
                        i as int,
                    );
                }
                assert forall|k: int| 0 <= k < path@.len() implies (#[trigger] path@[k]) < edges@.len()
                    && edges@[path@[k] as int].direction.is_passable() by {
                    if k < walked.len() {
                        assert(path@[k] == walked[k]);
                        assert(before[walked[k] as int].direction.is_passable());
                    } else if k < walked.len() + piece.len() {
                        assert(path@[k] == piece[k - walked.len()]);
                    }
                }
            }
            cur = entry;
            cur_zone = entry_zone;
            zones += 1;
            i += 1;
        }
        proof {
            if ok {
                lemma_arrived(
                    space,
                    nodes@,
                    edges@,
                    g,
                    seeds,
                    meta,
                    cells,
                    marks0,
                    mg,
                    goal,
                    meta_path@.skip(i as int),
                    x,
                    cur as int,
                );
                lemma_segment_clear(
                    space,
                    nodes@,
                    edges@,
                    g,
                    seeds,
                    meta,
                    cells,
                    marks0,
                    mg,
                    goal,
                    meta_path@.skip(i as int),
                    x,
                    cur as int,
                    end as int,
                );
            }
        }
    } else {
        proof {
            if ok {
                lemma_ready_zone(
                    space,
                    nodes@,
                    old(edges)@,
                    meta,
                    old(meta_edges)@,
                    start as int,
                    end as int,
                );
            }
        }
    }
    proof {
        let rank = choose|rank: Seq<nat>| ranked(space, old(edges)@, rank);
        lemma_ranked_same(space, old(edges)@, edges@, rank);
    }
    let ghost before = edges@;
    let mut segment = match solve(space, edges, cur, end) {
        Some(p) => p,
        None => {
            return Err(Error::MessageError("the solution marks do not lead to the end"));
        },
    };
    proof {
        lemma_walk_chain(space, edges@, cur as int, None, end as int, space.edge_count());
        lemma_chain_join(space, path@, segment@, start as int, cur as int, end as int);
    }
    let ghost walked = path@;
    let ghost piece = segment@;
    path.append(&mut segment);
    proof {
        assert(path@ =~= walked + piece);
        assert forall|k: int| 0 <= k < piece.len() implies (#[trigger] piece[k]) < old(edges)@.len()
            && old(edges)@[piece[k] as int].direction.is_tree() by {
            assert(edges@[piece[k] as int].direction.is_tree());
        }
        lemma_gates_piece(old(edges)@, walked, piece);
        if ok {
            lemma_marks_last(before, edges@, walked, piece);
            lemma_way_last(before, walked, piece);
        }
        assert forall|k: int| 0 <= k < path@.len() implies (#[trigger] path@[k]) < edges@.len()
            && edges@[path@[k] as int].direction.is_passable() by {
            if k < walked.len() {
                assert(path@[k] == walked[k]);
                assert(before[walked[k] as int].direction.is_passable());
            } else {
                assert(path@[k] == piece[k - walked.len()]);
            }
        }
        lemma_gates_same(old(edges)@, edges@, path@);
    }
    Ok((zones, path))
}

/// A finished maze: the cells with their zones, the edges with their directions
/// and solution marks, the two endpoints, and the way from one to the other.
#[derive(Debug)]
pub struct Maze {
    pub nodes: Vec<Node>,
    pub edges: Vec<Edge>,
    pub start: usize,
    pub end: usize,
    /// Number of zones on the way.
    pub solution_zones: usize,
    /// The edges of the way in order, gateways included.
    pub solution: Vec<usize>,
}

impl Maze {
    /// Number of edges on the way from the start to the end.
    pub fn solution_length(&self) -> (n: usize)
        ensures
            n == self.solution@.len(),
    {
        self.solution.len()
    }
}

/// The cells and edges of a maze of `trees` zones: every cell has a zone below
/// `trees` and there is one root for each; every edge is a tree edge, closed or
/// a gateway; the tree edges are those of a forest (see `oriented`) and there
/// are as many as cells that are no roots; a gateway joins two zones.
pub open spec fn is_maze<S: Space>(space: &S, nodes: Seq<Node>, edges: Seq<Edge>, trees: nat) -> bool {
    &&& nodes.len() == space.node_count()
    &&& edges.len() == space.edge_count()
    &&& forall|e: int|
        0 <= e < edges.len() ==> (#[trigger] edges[e]).direction != EdgeDirection::Unknown
    &&& forall|e: int|
        0 <= e < edges.len() && (#[trigger] edges[e]).direction == EdgeDirection::Border
            ==> straddles(space, nodes, e)
    &&& forall|n: int|
        0 <= n < nodes.len() ==> (#[trigger] nodes[n]).group.is_some() && nodes[n].group.unwrap()
            < trees
    &&& exists|seeds: Seq<usize>| seeds.len() == trees && roots_marked(nodes, seeds)
    &&& root_count(nodes) == trees
    &&& tree_count(edges) + trees == nodes.len()
    &&& exists|g: Growth| oriented(space, nodes, edges, g)
}

/// What a built maze holds: cells and edges that are a maze of `trees` zones;
/// two distinct endpoints; a way between them that is a chain of passable
/// edges and takes no edge twice, so that it is shorter than the cell count;
/// solution marks on exactly the edges of the way; a zone count that is one
/// more than the gateways on the way and no more than there are zones; and, on
/// a geometry in one piece, one gateway less than zones, so that the passable
/// edges are one less than the cells, and every cell linked to every other:
/// the passable edges are a spanning tree of the cells.
pub open spec fn finished<S: Space>(space: &S, maze: Maze, trees: nat) -> bool {
    &&& is_maze(space, maze.nodes@, maze.edges@, trees)
    &&& maze.start < space.node_count()
    &&& maze.end < space.node_count()
    &&& maze.start != maze.end
    &&& is_chain(space, maze.solution@, maze.start as int, maze.end as int)
    &&& passable_path(maze.edges@, maze.solution@)
    &&& maze.solution@.len() >= 1
    &&& maze.solution_zones == 1 + gates_on(maze.edges@, maze.solution@)
    &&& 1 <= maze.solution_zones <= maze.solution@.len() + 1
    &&& (maze.nodes@[maze.start as int].group == maze.nodes@[maze.end as int].group
        ==> maze.solution_zones == 1)
    &&& (maze.nodes@[maze.start as int].group != maze.nodes@[maze.end as int].group
        ==> maze.solution_zones >= 2)
    &&& maze.solution@.no_duplicates()
    &&& maze.solution_zones <= trees
    &&& maze.solution@.len() + 1 <= space.node_count()
    &&& (connected(space) ==> border_count(maze.edges@) + 1 == trees)
    &&& (connected(space) ==> tree_count(maze.edges@) + border_count(maze.edges@) + 1
        == space.node_count())
    &&& (connected(space) ==> one_piece(space, maze.edges@))
    &&& one_gate_each(space, maze.nodes@, maze.edges@)
    &&& marks_on(maze.edges@, maze.solution@)
}

/// A finished forest is a maze without gateways.
pub proof fn lemma_forest_is_maze<S: Space>(space: &S, nodes: Seq<Node>, edges: Seq<Edge>, trees: nat)
    requires
        is_forest(space, nodes, edges, trees),
    ensures
        is_maze(space, nodes, edges, trees),
        border_count(edges) == 0,
{
    lemma_count_none(border_flags(edges));
}

/// A maze stays a maze when edges that join two zones become gateways and
/// solution marks change; its tree edges stay as they are.
pub proof fn lemma_maze_kept<S: Space>(
    space: &S,
    nodes: Seq<Node>,
    before: Seq<Edge>,
    after: Seq<Edge>,
    trees: nat,
)
    requires
        space.wf(),
        is_maze(space, nodes, before, trees),
        before.len() == after.len(),
        forall|e: int|
            0 <= e < after.len() ==> (#[trigger] after[e]).direction == before[e].direction || (
            after[e].direction == EdgeDirection::Border && straddles(space, nodes, e)),
    ensures
        is_maze(space, nodes, after, trees),
        tree_count(after) == tree_count(before),
        forall|rank: Seq<nat>| #[trigger] ranked(space, before, rank) ==> ranked(space, after, rank),
{
    space.geometry();
    let g = choose|g: Growth| oriented(space, nodes, before, g);
    assert forall|e: int| 0 <= e < after.len() implies (#[trigger] after[e]).direction.is_tree()
        == before[e].direction.is_tree() && (after[e].direction.is_tree() ==> after[e].direction
        == before[e].direction) by {
        if after[e].direction != before[e].direction {
            if before[e].direction.is_tree() {
                assert(nodes[parent_end(space, before, e)].group == nodes[child_end(
                    space,
                    before,
                    e,
                )].group);
            }
        }
    }
    assert(tree_flags(after) =~= tree_flags(before));
    assert forall|e: int|
        0 <= e < after.len() && (#[trigger] after[e]).direction.is_tree() implies {
        &&& g.rank[parent_end(space, after, e)] < g.rank[child_end(space, after, e)]
        &&& nodes[parent_end(space, after, e)].group == nodes[child_end(space, after, e)].group
        &&& !nodes[child_end(space, after, e)].root
        &&& g.up[child_end(space, after, e)] == e
        &&& g.rank[child_end(space, after, e)] == g.rank[parent_end(space, after, e)] + 1
    } by {
        assert(before[e].direction == after[e].direction);
    }
    assert forall|n: int|
        0 <= n < nodes.len() && nodes[n].group.is_some() && !nodes[n].root implies {
        &&& 0 <= (#[trigger] g.up[n]) < after.len()
        &&& after[g.up[n]].direction.is_tree()
        &&& child_end(space, after, g.up[n]) == n
    } by {
        let e = g.up[n];
        assert(before[e].direction.is_tree());
        assert(after[e].direction == before[e].direction);
    }
    assert(oriented(space, nodes, after, g));
    assert forall|e: int|
        0 <= e < after.len() && (#[trigger] after[e]).direction
            == EdgeDirection::Border implies straddles(space, nodes, e) by {
        if before[e].direction == EdgeDirection::Border {
            assert(straddles(space, nodes, e));
        }
    }
    assert forall|rank: Seq<nat>| #[trigger] ranked(space, before, rank) implies ranked(
        space,
        after,
        rank,
    ) by {
        lemma_ranked_kept(space, before, after, rank);
    }
}

/// The gateways leave the ends of the borders where they were.
pub proof fn lemma_same_meta_ends(meta: &SpaceMeta, other: &SpaceMeta, meta_edges: Seq<Edge>, rank: Seq<nat>)
    requires
        ranked(other, meta_edges, rank),
        meta.zone_groups() == other.zone_groups(),
        meta.border_list().len() == other.border_list().len(),
        meta_edges.len() == meta.border_list().len(),
        forall|b: int|
            0 <= b < meta.border_list().len() ==> (#[trigger] meta.border_list()[b]).key
                == other.border_list()[b].key,
    ensures
        ranked(meta, meta_edges, rank),
{
    assert forall|e: int|
        0 <= e < meta_edges.len() && (#[trigger] meta_edges[e]).direction.is_tree() implies rank[parent_end(
        meta,
        meta_edges,
        e,
    )] < rank[child_end(meta, meta_edges, e)] by {
        assert(meta.border_list()[e].key == other.border_list()[e].key);
        assert(meta.ends(e) == other.ends(e));
        assert(parent_end(meta, meta_edges, e) == parent_end(other, meta_edges, e));
        assert(child_end(meta, meta_edges, e) == child_end(other, meta_edges, e));
    }
}

/// A spanning tree of the zones, grown from one random zone: the state of each
/// border, with as many open ones as zones but one. Without zones, no edges.
/// Fails, with `BuilderStall`, only where the zones are not in one piece.
pub fn grow_zone_tree(meta: &SpaceMeta, rng: &mut ChaCha12Rng) -> (r: Result<Vec<Edge>, Error>)
    requires
        meta.valid(),
    ensures
        r.is_ok() ==> zone_tree(meta, r.unwrap()@) && zone_forest(meta, r.unwrap()@),
        r.is_err() ==> r.unwrap_err() == Error::BuilderStall && !connected(meta),
{
    if meta.num_nodes() > 0 {
        match layout(meta, 1, rng) {
            Ok((meta_nodes, grown)) => {
                proof {
                    let mg = choose|mg: Growth| oriented(meta, meta_nodes@, grown@, mg);
                    assert(ranked(meta, grown@, mg.rank));
                    assert(open_flags(grown@) =~= tree_flags(grown@));
                    assert(tree_count(grown@) + 1 == meta_nodes@.len());
                    assert(meta_nodes@.len() == meta.zone_groups().len());
                    assert(grown@.len() == meta.border_list().len());
                    assert(zone_tree(meta, grown@));
                    assert(is_forest(meta, meta_nodes@, grown@, 1));
                    assert(zone_forest(meta, grown@));
                }
                Ok(grown)
            },
            Err(e) => Err(e),
        }
    } else {
        let none: Vec<Edge> = Vec::new();
        proof {
            if meta.border_list().len() > 0 {
                assert(meta.zone_groups().contains(meta.border_list()[0].key.0));
            }
            assert(open_flags(none@) =~= Seq::<bool>::empty());
            assert(ranked(meta, none@, Seq::<nat>::empty()));
            assert(zone_tree(meta, none@));
        }
        Ok(none)
    }
}

/// The states of the borders are those of a spanning tree of the zones: one
/// for each border, free of cycles, and as many open ones as zones but one.
pub open spec fn zone_tree(meta: &SpaceMeta, meta_edges: Seq<Edge>) -> bool {
    &&& meta_edges.len() == meta.border_list().len()
    &&& exists|rank: Seq<nat>| ranked(meta, meta_edges, rank)
    &&& count_true(open_flags(meta_edges)) + (if meta.zone_groups().len() > 0 {
        1nat
    } else {
        0nat
    }) == meta.zone_groups().len()
}

/// Each gateway that was opened lies in a border, so it joins two zones; every
/// other edge is as it was.
pub proof fn lemma_gates<S: Space>(
    space: &S,
    nodes: Seq<Node>,
    forest: Seq<Edge>,
    gated: Seq<Edge>,
    meta0: &SpaceMeta,
    meta: &SpaceMeta,
    meta_edges: Seq<Edge>,
)
    requires
        meta0.describes(space, nodes, space.edge_count()),
        meta.valid(),
        meta_edges.len() == meta.border_list().len(),
        meta.border_list().len() == meta0.border_list().len(),
        forall|b: int|
            0 <= b < meta_edges.len() ==> (#[trigger] meta.border_list()[b]).edges@
                == meta0.border_list()[b].edges@,
        gated.len() == forest.len(),
        forest.len() <= usize::MAX,
        forall|e: int|
            0 <= e < forest.len() ==> (#[trigger] gated[e]) == (if opened(
                meta.border_list(),
                meta_edges,
                meta_edges.len() as int,
                e,
            ) {
                Edge { direction: EdgeDirection::Border, solution: forest[e].solution }
            } else {
                forest[e]
            }),
    ensures
        forall|e: int|
            0 <= e < gated.len() ==> (#[trigger] gated[e]).direction == forest[e].direction || (
            gated[e].direction == EdgeDirection::Border && straddles(space, nodes, e)),
        forall|e: int| 0 <= e < gated.len() ==> (#[trigger] gated[e]).solution == forest[e].solution,
{
    assert forall|e: int| 0 <= e < gated.len() implies (#[trigger] gated[e]).direction
        == forest[e].direction || (gated[e].direction == EdgeDirection::Border && straddles(
        space,
        nodes,
        e,
    )) by {
        if gated[e] != forest[e] {
            assert(opened(meta.border_list(), meta_edges, meta_edges.len() as int, e));
            let b = choose|b: int|
                0 <= b < meta_edges.len() && (#[trigger] meta_edges[b]).direction
                    != EdgeDirection::Closed && meta.border_list()[b].gateway == Some(e as usize);
            let border = meta.border_list()[b];
            let k = choose|k: int| 0 <= k < border.edges@.len() && border.edges@[k] == e as usize;
            assert(meta0.border_list()[b].edges@[k] == e as usize);
        }
    }
}

/// What stitching leaves: sound zones and borders whose edges are edges of the
/// geometry; border states that are a spanning tree of the zones; edges that
/// are a maze, with every rank that showed the forest free of cycles still
/// doing so and no solution mark set; no two gateways between the same two
/// zones, and fewer gateways than zones; all that the way through the zones
/// needs; and, on a geometry in one piece, exactly one gateway less than
/// zones, every node linked to every other, and every zone with a border
/// where there are two.
pub open spec fn stitched<S: Space>(
    space: &S,
    nodes: Seq<Node>,
    before: Seq<Edge>,
    after: Seq<Edge>,
    meta: &SpaceMeta,
    meta_edges: Seq<Edge>,
) -> bool {
    &&& meta.valid()
    &&& meta.fits(space.edge_count())
    &&& zone_tree(meta, meta_edges)
    &&& is_maze(space, nodes, after, root_count(nodes))
    &&& forall|rank: Seq<nat>| #[trigger] ranked(space, before, rank) ==> ranked(space, after, rank)
    &&& forall|e: int| 0 <= e < after.len() ==> !(#[trigger] after[e]).solution
    &&& (connected(space) ==> border_count(after) + 1 == root_count(nodes))
    &&& (connected(space) ==> one_piece(space, after))
    &&& one_gate_each(space, nodes, after)
    &&& ready(space, nodes, after, meta, meta_edges)
    &&& border_count(after) + 1 <= root_count(nodes)
    &&& (connected(space) ==> all_listed(nodes, meta))
}

/// Any two nodes lie in one zone or each in a zone that has a border.
pub open spec fn all_listed(nodes: Seq<Node>, meta: &SpaceMeta) -> bool {
    forall|s: int, t: int|
        0 <= s < nodes.len() && 0 <= t < nodes.len() ==> #[trigger] listed(nodes, meta, s, t)
}

/// There are no more zones with a border than zones.
pub proof fn lemma_zones_fit<S: Space>(space: &S, nodes: Seq<Node>, meta: &SpaceMeta, trees: nat)
    requires
        space.wf(),
        nodes.len() == space.node_count(),
        forall|n: int|
            0 <= n < nodes.len() ==> (#[trigger] nodes[n]).group.is_some() && nodes[n].group.unwrap()
                < trees,
        meta.valid(),
        meta.describes(space, nodes, space.edge_count()),
    ensures
        meta.zone_groups().len() <= trees,
{
    space.geometry();
    let zones = meta.zone_groups();
    let borders = meta.border_list();
    assert forall|i: int| 0 <= i < zones.len() implies (#[trigger] zones[i]) < trees by {
        assert(crate::space_meta::has_border(borders, zones[i]));
        let b = choose|b: int| 0 <= b < borders.len() && (#[trigger] borders[b]).touches(zones[i]);
        let e = borders[b].edges@[0] as int;
        assert(straddles(space, nodes, e));
        assert(edge_key(space, nodes, e) == borders[b].key);
        let x = space.ends(e)[0] as int;
        let y = space.ends(e)[1] as int;
        assert(nodes[x].group.unwrap() < trees);
        assert(nodes[y].group.unwrap() < trees);
    }
    assert(zones.no_duplicates());
    crate::way::lemma_distinct_fit(zones, trees);
}

/// The gateways leave the forest over the zones what it was.
pub proof fn lemma_same_meta_forest(
    meta: &SpaceMeta,
    other: &SpaceMeta,
    cells: Seq<Node>,
    meta_edges: Seq<Edge>,
    mg: Growth,
)
    requires
        oriented(other, cells, meta_edges, mg),
        meta.zone_groups() == other.zone_groups(),
        meta.border_list().len() == other.border_list().len(),
        meta_edges.len() == meta.border_list().len(),
        forall|b: int|
            0 <= b < meta.border_list().len() ==> (#[trigger] meta.border_list()[b]).key
                == other.border_list()[b].key,
    ensures
        oriented(meta, cells, meta_edges, mg),
{
    assert forall|e: int| 0 <= e < meta_edges.len() implies parent_end(meta, meta_edges, e)
        == parent_end(other, meta_edges, e) && child_end(meta, meta_edges, e) == child_end(
        other,
        meta_edges,
        e,
    ) by {
        assert(meta.border_list()[e].key == other.border_list()[e].key);
        assert(meta.ends(e) == other.ends(e));
    }
    assert forall|e: int|
        0 <= e < meta_edges.len() && (#[trigger] meta_edges[e]).direction.is_tree() implies {
        &&& mg.rank[parent_end(meta, meta_edges, e)] < mg.rank[child_end(meta, meta_edges, e)]
        &&& cells[parent_end(meta, meta_edges, e)].group == cells[child_end(
            meta,
            meta_edges,
            e,
        )].group
        &&& !cells[child_end(meta, meta_edges, e)].root
        &&& mg.up[child_end(meta, meta_edges, e)] == e
        &&& mg.rank[child_end(meta, meta_edges, e)] == mg.rank[parent_end(meta, meta_edges, e)] + 1
    } by {
        assert(parent_end(meta, meta_edges, e) == parent_end(other, meta_edges, e));
        assert(child_end(meta, meta_edges, e) == child_end(other, meta_edges, e));
    }
    assert forall|n: int|
        0 <= n < cells.len() && cells[n].group.is_some() && !cells[n].root implies {
        &&& 0 <= (#[trigger] mg.up[n]) < meta_edges.len()
        &&& meta_edges[mg.up[n]].direction.is_tree()
        &&& child_end(meta, meta_edges, mg.up[n]) == n
    } by {
        let e = mg.up[n];
        assert(child_end(meta, meta_edges, e) == child_end(other, meta_edges, e));
    }
}

/// Opening gateways leaves a forest over the zones the forest that it was: the
/// zones and the two zones of each border stay.
pub proof fn lemma_gateways_keep_forest(
    meta: &SpaceMeta,
    other: &SpaceMeta,
    cells: Seq<Node>,
    meta_edges: Seq<Edge>,
    roots: nat,
)
    requires
        is_forest(other, cells, meta_edges, roots),
        meta.zone_groups() == other.zone_groups(),
        meta.border_list().len() == other.border_list().len(),
        forall|b: int|
            0 <= b < meta.border_list().len() ==> (#[trigger] meta.border_list()[b]).key
                == other.border_list()[b].key,
    ensures
        is_forest(meta, cells, meta_edges, roots),
{
    let mg = choose|mg: Growth| oriented(other, cells, meta_edges, mg);
    lemma_same_meta_forest(meta, other, cells, meta_edges, mg);
}

/// After stitching on a geometry in one piece the way through the zones is
/// ready to be found.
pub proof fn lemma_stitched_ready<S: Space>(
    space: &S,
    nodes: Seq<Node>,
    forest: Seq<Edge>,
    gated: Seq<Edge>,
    meta0: &SpaceMeta,
    meta: &SpaceMeta,
    meta_edges: Seq<Edge>,
    trees: nat,
)
    requires
        space.wf(),
        1 <= trees <= usize::MAX,
        is_maze(space, nodes, gated, trees),
        forall|e: int| 0 <= e < gated.len() ==> !(#[trigger] gated[e]).solution,
        meta0.valid(),
        meta0.describes(space, nodes, space.edge_count()),
        zone_forest(meta0, meta_edges),
        meta.valid(),
        meta.zone_groups() == meta0.zone_groups(),
        meta.border_list().len() == meta0.border_list().len(),
        meta_edges.len() == meta.border_list().len(),
        forall|b: int|
            0 <= b < meta_edges.len() ==> (#[trigger] meta.border_list()[b]).edges@
                == meta0.border_list()[b].edges@ && meta.border_list()[b].key
                == meta0.border_list()[b].key,
        forall|b: int|
            0 <= b < meta_edges.len() && (#[trigger] meta_edges[b]).direction.is_tree() ==> {
                &&& meta.border_list()[b].gateway.is_some()
                &&& meta0.border_list()[b].edges@.contains(meta.border_list()[b].gateway.unwrap())
                &&& gated[meta.border_list()[b].gateway.unwrap() as int].direction
                    == EdgeDirection::Border
            },
    ensures
        ready(space, nodes, gated, meta, meta_edges),
{
    space.geometry();
    let g = choose|g: Growth| oriented(space, nodes, gated, g);
    let seeds = choose|seeds: Seq<usize>| seeds.len() == trees && roots_marked(nodes, seeds);
    assert(grown(space, nodes, gated, g) && roots_marked(nodes, seeds) && seeds.len()
        <= usize::MAX);
    let borders = meta.border_list();
    assert forall|b: int, k: int|
        0 <= b < borders.len() && 0 <= k < borders[b].edges@.len() implies {
        &&& (#[trigger] borders[b].edges@[k]) < space.edge_count()
        &&& edge_key(space, nodes, borders[b].edges@[k] as int) == borders[b].key
    } by {
        assert(meta0.border_list()[b].edges@[k] == borders[b].edges@[k]);
        assert(borders[b].key == meta0.border_list()[b].key);
    }
    assert(gates_set(space, nodes, gated, meta, meta_edges));
    if meta.zone_groups().len() > 0 {
        let cells = choose|cells: Seq<Node>| is_forest(meta0, cells, meta_edges, 1);
        let tops = choose|tops: Seq<usize>| tops.len() == 1 && roots_marked(cells, tops);
        let mg = choose|mg: Growth| oriented(meta0, cells, meta_edges, mg);
        lemma_same_meta_forest(meta, meta0, cells, meta_edges, mg);
        assert(grown(meta, cells, meta_edges, mg) && roots_marked(cells, tops) && tops.len() == 1);
    } else {
        if meta.border_list().len() > 0 {
            assert(meta.zone_groups().contains(meta.border_list()[0].key.0));
        }
    }
}

/// On a geometry in one piece any two nodes lie in one zone or each in a zone
/// that has a border.
pub proof fn lemma_all_listed<S: Space>(
    space: &S,
    nodes: Seq<Node>,
    forest: Seq<Edge>,
    meta0: &SpaceMeta,
    meta: &SpaceMeta,
    trees: nat,
)
    requires
        space.wf(),
        connected(space),
        1 <= trees <= usize::MAX,
        is_forest(space, nodes, forest, trees),
        meta0.valid(),
        meta0.describes(space, nodes, space.edge_count()),
        meta.zone_groups() == meta0.zone_groups(),
    ensures
        all_listed(nodes, meta),
{
    let seeds = choose|seeds: Seq<usize>| seeds.len() == trees && roots_marked(nodes, seeds);
    assert forall|i: int| 0 <= i < seeds.len() implies (#[trigger] seeds[i]) < nodes.len()
        && nodes[seeds[i] as int].group == Some(i as usize) by {}
    assert forall|n: int| 0 <= n < nodes.len() implies (#[trigger] nodes[n]).group.is_some()
        && nodes[n].group.unwrap() < seeds.len() by {}
    lemma_zone_total(space, nodes, seeds, meta0.zone_groups(), meta0.border_list());
    assert forall|s: int, t: int|
        0 <= s < nodes.len() && 0 <= t < nodes.len() implies #[trigger] listed(nodes, meta, s, t) by {
        assert(nodes[s].group.unwrap() < seeds.len());
        assert(nodes[t].group.unwrap() < seeds.len());
    }
}

/// No two gateways join the same pair of zones.
pub open spec fn one_gate_each<S: Space>(space: &S, nodes: Seq<Node>, edges: Seq<Edge>) -> bool {
    forall|e: int, f: int|
        0 <= e < f < edges.len() && (#[trigger] edges[e]).direction == EdgeDirection::Border && (
        #[trigger] edges[f]).direction == EdgeDirection::Border ==> edge_key(space, nodes, e)
            != edge_key(space, nodes, f)
}

/// The gateways that were opened in a forest join different pairs of zones:
/// each is the gateway of the border of its pair, and a border has one.
pub proof fn lemma_one_gate_each<S: Space>(
    space: &S,
    nodes: Seq<Node>,
    forest: Seq<Edge>,
    gated: Seq<Edge>,
    meta0: &SpaceMeta,
    meta: &SpaceMeta,
    meta_edges: Seq<Edge>,
)
    requires
        meta0.describes(space, nodes, space.edge_count()),
        meta.valid(),
        meta_edges.len() == meta.border_list().len(),
        meta.border_list().len() == meta0.border_list().len(),
        forall|b: int|
            0 <= b < meta_edges.len() ==> (#[trigger] meta.border_list()[b]).edges@
                == meta0.border_list()[b].edges@ && meta.border_list()[b].key
                == meta0.border_list()[b].key,
        gated.len() == forest.len(),
        forest.len() <= usize::MAX,
        forall|e: int|
            0 <= e < forest.len() ==> (#[trigger] forest[e]).direction != EdgeDirection::Border,
        forall|e: int|
            0 <= e < forest.len() ==> (#[trigger] gated[e]) == (if opened(
                meta.border_list(),
                meta_edges,
                meta_edges.len() as int,
                e,
            ) {
                Edge { direction: EdgeDirection::Border, solution: forest[e].solution }
            } else {
                forest[e]
            }),
    ensures
        one_gate_each(space, nodes, gated),
{
    let borders = meta.border_list();
    assert forall|e: int, f: int|
        0 <= e < f < gated.len() && (#[trigger] gated[e]).direction == EdgeDirection::Border && (
        #[trigger] gated[f]).direction == EdgeDirection::Border implies edge_key(space, nodes, e)
        != edge_key(space, nodes, f) by {
        assert(forest[e].direction != EdgeDirection::Border);
        assert(forest[f].direction != EdgeDirection::Border);
        assert(opened(borders, meta_edges, meta_edges.len() as int, e));
        assert(opened(borders, meta_edges, meta_edges.len() as int, f));
        let a = choose|a: int|
            0 <= a < meta_edges.len() && (#[trigger] meta_edges[a]).direction
                != EdgeDirection::Closed && borders[a].gateway == Some(e as usize);
        let b = choose|b: int|
            0 <= b < meta_edges.len() && (#[trigger] meta_edges[b]).direction
                != EdgeDirection::Closed && borders[b].gateway == Some(f as usize);
        assert(a != b);
        let i = choose|i: int| 0 <= i < borders[a].edges@.len() && borders[a].edges@[i] == e as usize;
        let j = choose|j: int| 0 <= j < borders[b].edges@.len() && borders[b].edges@[j] == f as usize;
        assert(meta0.border_list()[a].edges@[i] == e as usize);
        assert(meta0.border_list()[b].edges@[j] == f as usize);
        assert(edge_key(space, nodes, e) == borders[a].key);
        assert(edge_key(space, nodes, f) == borders[b].key);
        if a < b {
            assert(borders[a].key != borders[b].key);
        } else {
            assert(borders[b].key != borders[a].key);
        }
    }
}

/// Every node can be reached from every other through edges that can be
/// passed.
pub open spec fn one_piece<S: Space>(space: &S, edges: Seq<Edge>) -> bool {
    forall|a: int, b: int|
        0 <= a < space.node_count() && 0 <= b < space.node_count() ==> #[trigger] linked(
            space,
            edges,
            a,
            b,
        )
}

/// Each border whose state is a tree edge has got a gateway among its edges,
/// and that edge is a `Border` edge.
pub proof fn lemma_gates_open(
    gated: Seq<Edge>,
    forest: Seq<Edge>,
    meta0: &SpaceMeta,
    meta: &SpaceMeta,
    meta_edges: Seq<Edge>,
)
    requires
        meta.valid(),
        meta0.fits(forest.len()),
        meta_edges.len() == meta.border_list().len(),
        meta.border_list().len() == meta0.border_list().len(),
        forall|b: int|
            0 <= b < meta_edges.len() ==> (#[trigger] meta.border_list()[b]).edges@
                == meta0.border_list()[b].edges@,
        forall|b: int|
            0 <= b < meta_edges.len() && (#[trigger] meta_edges[b]).direction
                != EdgeDirection::Closed ==> meta.border_list()[b].gateway.is_some(),
        gated.len() == forest.len(),
        forall|e: int|
            0 <= e < forest.len() ==> (#[trigger] gated[e]) == (if opened(
                meta.border_list(),
                meta_edges,
                meta_edges.len() as int,
                e,
            ) {
                Edge { direction: EdgeDirection::Border, solution: forest[e].solution }
            } else {
                forest[e]
            }),
    ensures
        forall|b: int|
            0 <= b < meta_edges.len() && (#[trigger] meta_edges[b]).direction.is_tree() ==> {
                &&& meta.border_list()[b].gateway.is_some()
                &&& meta0.border_list()[b].edges@.contains(meta.border_list()[b].gateway.unwrap())
                &&& gated[meta.border_list()[b].gateway.unwrap() as int].direction
                    == EdgeDirection::Border
            },
{
    assert forall|b: int|
        0 <= b < meta_edges.len() && (#[trigger] meta_edges[b]).direction.is_tree() implies {
        &&& meta.border_list()[b].gateway.is_some()
        &&& meta0.border_list()[b].edges@.contains(meta.border_list()[b].gateway.unwrap())
        &&& gated[meta.border_list()[b].gateway.unwrap() as int].direction == EdgeDirection::Border
    } by {
        let border = meta.border_list()[b];
        assert(border.gateway.is_some());
        let gw = border.gateway.unwrap();
        assert(border.edges@.contains(gw));
        let k = choose|k: int| 0 <= k < border.edges@.len() && border.edges@[k] == gw;
        assert(meta0.border_list()[b].edges@[k] == gw);
        assert(gw < forest.len());
        assert(opened(meta.border_list(), meta_edges, meta_edges.len() as int, gw as int));
    }
}

/// A forest on a geometry in one piece, its zones and borders, a forest of one
/// tree over them, and one gateway opened in each border of that tree make a
/// perfect maze: every cell can be reached from every other through edges
/// that can be passed, and these are one less than the cells. `forest` and
/// `meta0` are the edges and the zones before the gateways were opened, `gated`
/// and `meta` after.
pub proof fn lemma_perfect_maze<S: Space>(
    space: &S,
    nodes: Seq<Node>,
    forest: Seq<Edge>,
    gated: Seq<Edge>,
    meta0: &SpaceMeta,
    meta: &SpaceMeta,
    cells: Seq<Node>,
    meta_edges: Seq<Edge>,
    trees: nat,
)
    requires
        space.wf(),
        connected(space),
        1 <= trees <= usize::MAX,
        is_forest(space, nodes, forest, trees),
        meta0.valid(),
        meta0.describes(space, nodes, space.edge_count()),
        meta0.zone_groups().len() > 0 ==> is_forest(meta0, cells, meta_edges, 1),
        meta_edges.len() == meta0.border_list().len(),
        meta.valid(),
        meta.zone_groups() == meta0.zone_groups(),
        meta.border_list().len() == meta0.border_list().len(),
        forall|b: int|
            0 <= b < meta_edges.len() ==> (#[trigger] meta.border_list()[b]).edges@
                == meta0.border_list()[b].edges@ && meta.border_list()[b].key
                == meta0.border_list()[b].key,
        forall|b: int|
            0 <= b < meta_edges.len() && (#[trigger] meta_edges[b]).direction
                != EdgeDirection::Closed ==> meta.border_list()[b].gateway.is_some(),
        gated.len() == forest.len(),
        forall|e: int|
            0 <= e < forest.len() ==> (#[trigger] gated[e]) == (if opened(
                meta.border_list(),
                meta_edges,
                meta_edges.len() as int,
                e,
            ) {
                Edge { direction: EdgeDirection::Border, solution: forest[e].solution }
            } else {
                forest[e]
            }),
        border_count(gated) == count_true(open_flags(meta_edges)),
    ensures
        is_maze(space, nodes, gated, trees),
        one_piece(space, gated),
        one_gate_each(space, nodes, gated),
        border_count(gated) + 1 == trees,
        tree_count(gated) + border_count(gated) + 1 == space.node_count(),
{
    space.geometry();
    lemma_forest_is_maze(space, nodes, forest, trees);
    let seeds = choose|seeds: Seq<usize>| seeds.len() == trees && roots_marked(nodes, seeds);
    lemma_zone_total(space, nodes, seeds, meta0.zone_groups(), meta0.border_list());
    assert(meta0.fits(forest.len()));
    lemma_gates(space, nodes, forest, gated, meta0, meta, meta_edges);
    lemma_maze_kept(space, nodes, forest, gated, trees);
    lemma_one_gate_each(space, nodes, forest, gated, meta0, meta, meta_edges);
    lemma_gates_open(gated, forest, meta0, meta, meta_edges);
    if meta0.zone_groups().len() > 0 {
        assert(zone_forest(meta0, meta_edges));
        assert(open_flags(meta_edges) =~= tree_flags(meta_edges));
    } else {
        if meta0.border_list().len() > 0 {
            assert(meta0.zone_groups().contains(meta0.border_list()[0].key.0));
        }
        assert(open_flags(meta_edges) =~= Seq::<bool>::empty());
    }
    let gates = Seq::new(meta.border_list().len(), |b: int| meta.border_list()[b].gateway);
    let g = choose|g: Growth| oriented(space, nodes, gated, g);
    lemma_one_piece(space, nodes, gated, g, seeds, meta0, gates, meta_edges);
}

/// Stitches the zones of a finished forest together: finds the zones and
/// borders, grows a spanning tree of the zones from one random zone, and opens
/// one gateway in each border of that tree. Returns the zones and borders and
/// the edges of the tree of zones.
///
/// On a geometry in one piece this succeeds and leaves one gateway less than
/// zones. It fails, with `BuilderStall`, only where the zones are not in one
/// piece.
pub fn stitch_zones<S: Space>(
    space: &S,
    nodes: &Vec<Node>,
    edges: &mut Vec<Edge>,
    rng: &mut ChaCha12Rng,
) -> (r: Result<(SpaceMeta, Vec<Edge>), Error>)
    requires
        space.wf(),
        is_forest(space, nodes@, old(edges)@, root_count(nodes@)),
        1 <= root_count(nodes@) <= usize::MAX,
    ensures
        r.is_ok() ==> stitched(
            space,
            nodes@,
            old(edges)@,
            final(edges)@,
            &r.unwrap().0,
            r.unwrap().1@,
        ),
        r.is_err() ==> r.unwrap_err() == Error::BuilderStall && !connected(space),
{
    let ghost trees = root_count(nodes@);
    let ghost forest = edges@;
    let mut meta = SpaceMeta::new(space, edges, nodes);
    let ghost meta0 = meta;
    let ghost total = meta.zone_groups().len();
    proof {
        lemma_forest_is_maze(space, nodes@, forest, trees);
        if connected(space) {
            let seeds = choose|seeds: Seq<usize>| seeds.len() == trees && roots_marked(nodes@, seeds);
            lemma_zone_total(space, nodes@, seeds, meta.zone_groups(), meta.border_list());
            lemma_meta_connected(space, nodes@, &meta);
        }
    }
    let meta_edges = match grow_zone_tree(&meta, rng) {
        Ok(grown) => grown,
        Err(e) => {
            return Err(e);
        },
    };
    meta.open_gateways(&meta_edges, edges, rng);
    proof {
        space.geometry();
        let rank = choose|rank: Seq<nat>| ranked(&meta0, meta_edges@, rank);
        lemma_same_meta_ends(&meta, &meta0, meta_edges@, rank);
        assert(zone_tree(&meta, meta_edges@));
        lemma_gates(space, nodes@, forest, edges@, &meta0, &meta, meta_edges@);
        lemma_maze_kept(space, nodes@, forest, edges@, trees);
        lemma_one_gate_each(space, nodes@, forest, edges@, &meta0, &meta, meta_edges@);
        assert(is_maze(space, nodes@, edges@, trees));
        assert(forall|e: int| 0 <= e < edges@.len() ==> !(#[trigger] edges@[e]).solution);
        if connected(space) {
            assert(border_count(edges@) == count_true(open_flags(meta_edges@)));
            assert(border_count(edges@) + 1 == trees);
            lemma_gates_open(edges@, forest, &meta0, &meta, meta_edges@);
            let gates = Seq::new(
                meta.border_list().len(),
                |b: int| meta.border_list()[b].gateway,
            );
            let g = choose|g: Growth| oriented(space, nodes@, edges@, g);
            let seeds = choose|seeds: Seq<usize>| seeds.len() == trees && roots_marked(nodes@, seeds);
            lemma_one_piece(space, nodes@, edges@, g, seeds, &meta0, gates, meta_edges@);
            assert(one_piece(space, edges@));
            lemma_all_listed(space, nodes@, forest, &meta0, &meta, trees);
        }
        lemma_gates_open(edges@, forest, &meta0, &meta, meta_edges@);
        lemma_stitched_ready(space, nodes@, forest, edges@, &meta0, &meta, meta_edges@, trees);
        lemma_zones_fit(space, nodes@, &meta0, trees);
        assert(border_count(edges@) == count_true(open_flags(meta_edges@)));
        assert(border_count(edges@) + 1 <= trees);
        assert(stitched(space, nodes@, forest, edges@, &meta, meta_edges@));
    }
    Ok((meta, meta_edges))
}

/// A path of passable edges that takes no edge twice holds no more gateways
/// than there are, and no more edges than can be passed.
pub proof fn lemma_way_bounds(edges: Seq<Edge>, path: Seq<usize>)
    requires
        path.no_duplicates(),
        passable_path(edges, path),
    ensures
        gates_on(edges, path) <= border_count(edges),
        path.len() <= tree_count(edges) + border_count(edges),
{
    lemma_picked_fit(border_flags(edges), path);
    let open = Seq::new(edges.len(), |i: int| tree_flags(edges)[i] || border_flags(edges)[i]);
    lemma_count_either(tree_flags(edges), border_flags(edges));
    lemma_picked_fit(open, path);
    lemma_picked_every(open, path);
}

/// A way of tree edges that takes no edge twice is no longer than there are
/// tree edges.
pub proof fn lemma_tree_way_fits(edges: Seq<Edge>, path: Seq<usize>)
    requires
        crate::space::fresh_way(edges, path),
    ensures
        path.len() <= tree_count(edges),
{
    lemma_picked_fit(tree_flags(edges), path);
    lemma_picked_every(tree_flags(edges), path);
}

/// Builds one maze on a geometry: a forest of `roots` zones (no more than there
/// are nodes), two random distinct endpoints, the zones stitched together by
/// gateways, and the way from endpoint to endpoint through the zones.
///
/// Fails with `InvalidGeometry` exactly where `roots` is zero or the geometry
/// has fewer than two nodes, and in no other way on a geometry in one piece.
/// On others it may fail with `BuilderStall`, or with the errors of
/// `solve_zones` where the two endpoints lie in parts that no edge joins.
pub fn build<S: Space>(space: &S, roots: usize, rng: &mut ChaCha12Rng) -> (r: Result<Maze, Error>)
    requires
        space.wf(),
    ensures
        (roots == 0 || space.node_count() < 2) <==> r == Err::<Maze, Error>(Error::InvalidGeometry),
        r == Err::<Maze, Error>(Error::BuilderStall) ==> !connected(space),
        connected(space) && roots != 0 && space.node_count() >= 2 ==> r.is_ok(),
        r.is_ok() ==> finished(space, r.unwrap(), tree_total(space.node_count(), roots as nat)),
{
    let num_nodes = space.num_nodes();
    if roots == 0 || num_nodes < 2 {
        return Err(Error::InvalidGeometry);
    }
    let ghost trees = tree_total(space.node_count(), roots as nat);
    let (nodes, mut edges) = match layout(space, roots, rng) {
        Ok(pair) => pair,
        Err(e) => {
            return Err(e);
        },
    };
    let (start, end) = get_endpoints(space, rng);
    let ghost forest = edges@;
    let (meta, mut meta_edges) = match stitch_zones(space, &nodes, &mut edges, rng) {
        Ok(pair) => pair,
        Err(e) => {
            return Err(e);
        },
    };
    let ghost gated = edges@;
    proof {
        assert(stitched(space, nodes@, forest, gated, &meta, meta_edges@));
        let g = choose|g: Growth| oriented(space, nodes@, gated, g);
        assert(ranked(space, gated, g.rank));
    }
    match solve_zones(space, &nodes, &mut edges, &meta, &mut meta_edges, start, end) {
        Err(e) => Err(e),
        Ok((solution_zones, solution)) => {
            proof {
                assert forall|e: int| 0 <= e < edges@.len() implies (#[trigger] edges@[e]).direction
                    == gated[e].direction || (edges@[e].direction == EdgeDirection::Border
                    && straddles(space, nodes@, e)) by {}
                lemma_maze_kept(space, nodes@, gated, edges@, trees);
                assert(border_flags(edges@) =~= border_flags(gated));
                assert(solution@.len() >= 1);
                lemma_way_bounds(edges@, solution@);
                if connected(space) {
                    assert forall|a: int, b: int|
                        0 <= a < space.node_count() && 0 <= b
                            < space.node_count() implies #[trigger] linked(space, edges@, a, b) by {
                        assert(linked(space, gated, a, b));
                        lemma_linked_same(space, gated, edges@, a, b);
                    }
                }
            }
            Ok(Maze { nodes, edges, start, end, solution_zones, solution })
        },
    }
}

/// Builds one maze on a grid of `width` by `height` cells with six zones (one
/// per cell where there are fewer than six cells) from a generator seeded with
/// `seed`. Fails, with `InvalidGeometry`, exactly where the grid has fewer than
/// two cells or its edge numbers do not fit the machine.
pub fn maze_square(seed: u64, width: usize, height: usize) -> (r: Result<Maze, Error>)
    ensures
        r.is_ok() <==> width >= 1 && height >= 1 && width * height >= 2 && height * (2 * width)
            <= usize::MAX,
        r.is_err() ==> r == Err::<Maze, Error>(Error::InvalidGeometry),
        r.is_ok() ==> {
            let space = SpaceSquare::new_spec(height, width);
            &&& finished(&space, r.unwrap(), tree_total((width * height) as nat, 6))
            &&& border_count(r.unwrap().edges@) + 1 == tree_total((width * height) as nat, 6)
            &&& tree_count(r.unwrap().edges@) + border_count(r.unwrap().edges@) + 1 == width
                * height
            &&& one_piece(&space, r.unwrap().edges@)
            &&& r.unwrap().solution@.no_duplicates()
            &&& 1 <= r.unwrap().solution@.len() <= width * height - 1
            &&& r.unwrap().solution_zones == 1 + gates_on(r.unwrap().edges@, r.unwrap().solution@)
            &&& 1 <= r.unwrap().solution_zones <= tree_total((width * height) as nat, 6) <= 6
            &&& marks_on(r.unwrap().edges@, r.unwrap().solution@)
        },
{
    let mut rng = seeded(seed);
    let space = match SpaceSquare::try_new(height, width) {
        Ok(space) => space,
        Err(e) => {
            return Err(e);
        },
    };
    proof {
        space.lemma_connected();
        assert(space.node_count() == height * width);
        assert(height * width == width * height) by (nonlinear_arith);
        assert(space == SpaceSquare::new_spec(height, width));
    }
    build(&space, 6, &mut rng)
}

} // verus!
