use vstd::prelude::*;

verus! {

/// State of one edge of a geometry.
///
/// `Forward` and `Backward` mark tree edges: the lower numbered end of a
/// `Forward` edge is the parent, the higher numbered end of a `Backward` edge is.
#[derive(Debug, Default, Clone, Copy, PartialEq, Eq, PartialOrd, Ord, Structural)]
pub enum EdgeDirection {
    #[default]
    Unknown,
    Closed,
    Forward,
    Backward,
    Border,
}

/// One edge: its direction and whether it lies on the current solution path.
#[derive(Debug, Clone, Copy)]
pub struct Edge {
    pub direction: EdgeDirection,
    pub solution: bool,
}

impl Default for Edge {
    fn default() -> (e: Self)
        ensures
            e.direction == EdgeDirection::Unknown,
            e.solution == false,
    {
        Edge { direction: EdgeDirection::Unknown, solution: false }
    }
}

impl EdgeDirection {
    /// A tree edge is one that the forest builder oriented.
    pub open spec fn is_tree(self) -> bool {
        self == EdgeDirection::Forward || self == EdgeDirection::Backward
    }

    /// A passable edge is a tree edge or a gateway.
    pub open spec fn is_passable(self) -> bool {
        self.is_tree() || self == EdgeDirection::Border
    }
}

} // verus!
