use vstd::prelude::*;

verus! {

/// What can go wrong with an index into a graph.
#[derive(Debug, Clone, Copy, PartialEq, Eq, Structural)]
pub enum GraphError {
    ErrOutOfBounds,
}

/// The direction of an edge between two cells given by number: none yet, from
/// a parent (first) to a child (second), or closed.
#[derive(Debug, Clone, Copy, PartialEq, Eq, Structural)]
pub enum Direction {
    Undefined,
    Directed(usize, usize),
    Closed,
}

/// An edge that names its two cells.
#[derive(Debug, Clone, Copy)]
pub struct Edge {
    pub a: usize,
    pub b: usize,
    pub direction: Direction,
    pub solution: bool,
}

impl Default for Edge {
    fn default() -> (e: Self)
        ensures
            e.a == usize::MAX,
            e.b == usize::MAX,
            e.direction == Direction::Undefined,
            e.solution == false,
    {
        Self { a: usize::MAX, b: usize::MAX, direction: Direction::Undefined, solution: false }
    }
}

impl Edge {
    /// Whether the edge is directed and `idx` is its parent cell.
    pub fn is_head(&self, idx: usize) -> (r: bool)
        ensures
            r == match self.direction {
                Direction::Directed(head, _) => head == idx,
                _ => false,
            },
    {
        if let Direction::Directed(head, _) = self.direction {
            return head == idx;
        }
        false
    }

    /// The other cell of the edge, seen from `idx`: `b` from `a`, and `a` from
    /// anything else.
    pub fn follow_from(&self, idx: usize) -> (r: usize)
        ensures
            r == if self.a == idx {
                self.b
            } else {
                self.a
            },
    {
        if self.a == idx {
            return self.b;
        }
        self.a
    }
}

} // verus!
