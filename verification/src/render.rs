use vstd::prelude::*;
use crate::edge::{Edge, EdgeDirection};
use crate::node::Node;

verus! {

/// How an edge is drawn where it is drawn as a line.
#[derive(Debug, Clone, Copy, PartialEq, Eq, Structural)]
pub enum WallKind {
    /// A closed edge: a solid wall.
    Wall,
    /// A gateway between two zones.
    Gateway,
}

/// The line that stands for an edge of this direction: a wall for a closed
/// edge, a gateway for a border edge, none for the others.
pub open spec fn wall_of(direction: EdgeDirection) -> Option<WallKind> {
    match direction {
        EdgeDirection::Closed => Some(WallKind::Wall),
        EdgeDirection::Border => Some(WallKind::Gateway),
        _ => None,
    }
}

/// Whether the edge gets a solution marker: it bears the mark and can be passed.
pub open spec fn marker_of(edge: Edge) -> bool {
    edge.solution && edge.direction.is_passable()
}

/// The lines of the first `upto` edges, each with the number of its edge.
pub open spec fn walls_upto(edges: Seq<Edge>, upto: nat) -> Seq<(usize, WallKind)>
    decreases upto,
{
    if upto == 0 {
        Seq::<(usize, WallKind)>::empty()
    } else {
        let rest = walls_upto(edges, (upto - 1) as nat);
        match wall_of(edges[upto - 1].direction) {
            Some(kind) => rest.push(((upto - 1) as usize, kind)),
            None => rest,
        }
    }
}

/// The numbers of those of the first `upto` edges that get a solution marker.
pub open spec fn markers_upto(edges: Seq<Edge>, upto: nat) -> Seq<usize>
    decreases upto,
{
    if upto == 0 {
        Seq::<usize>::empty()
    } else {
        let rest = markers_upto(edges, (upto - 1) as nat);
        if marker_of(edges[upto - 1]) {
            rest.push((upto - 1) as usize)
        } else {
            rest
        }
    }
}

/// The line that stands for an edge of this direction, if any.
pub fn wall_kind(direction: EdgeDirection) -> (r: Option<WallKind>)
    ensures
        r == wall_of(direction),
{
    match direction {
        EdgeDirection::Closed => Some(WallKind::Wall),
        EdgeDirection::Border => Some(WallKind::Gateway),
        _ => None,
    }
}

/// Whether the edge gets a solution marker.
pub fn shows_solution(edge: &Edge) -> (r: bool)
    ensures
        r == marker_of(*edge),
{
    edge.solution && match edge.direction {
        EdgeDirection::Forward => true,
        EdgeDirection::Backward => true,
        EdgeDirection::Border => true,
        _ => false,
    }
}

/// The lines to draw: for each closed or border edge, in rising order, its
/// number and its kind.
pub fn walls_2d(edges: &Vec<Edge>) -> (walls: Vec<(usize, WallKind)>)
    ensures
        walls@ == walls_upto(edges@, edges@.len()),
{
    let mut walls: Vec<(usize, WallKind)> = Vec::new();
    let mut eid: usize = 0;
    while eid < edges.len()
        invariant
            eid <= edges.len(),
            walls@ == walls_upto(edges@, eid as nat),
        decreases edges.len() - eid,
    {
        match wall_kind(edges[eid].direction) {
            Some(kind) => {
                walls.push((eid, kind));
            },
            None => {},
        }
        eid += 1;
    }
    walls
}

/// The edges that get a solution marker, in rising order.
pub fn solution_2d(edges: &Vec<Edge>) -> (marked: Vec<usize>)
    ensures
        marked@ == markers_upto(edges@, edges@.len()),
{
    let mut marked: Vec<usize> = Vec::new();
    let mut eid: usize = 0;
    while eid < edges.len()
        invariant
            eid <= edges.len(),
            marked@ == markers_upto(edges@, eid as nat),
        decreases edges.len() - eid,
    {
        if shows_solution(&edges[eid]) {
            marked.push(eid);
        }
        eid += 1;
    }
    marked
}

/// The zone number that a cell is tagged with: its zone, or the largest number
/// where it has none.
pub fn node_group_tag(node: &Node) -> (tag: usize)
    ensures
        tag == match node.group {
            Some(g) => g,
            None => usize::MAX,
        },
{
    match node.group {
        Some(g) => g,
        None => usize::MAX,
    }
}

} // verus!
