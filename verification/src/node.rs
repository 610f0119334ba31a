use vstd::prelude::*;

verus! {

/// One cell: the zone it belongs to, once visited, and whether it seeded a zone.
#[derive(Debug, Clone, Copy)]
pub struct Node {
    pub group: Option<usize>,
    pub root: bool,
}

impl Default for Node {
    fn default() -> (n: Self)
        ensures
            n.group.is_none(),
            n.root == false,
    {
        Node { group: None, root: false }
    }
}

impl Node {
    /// A fresh cell: no zone, not a root.
    pub fn new() -> (n: Self)
        ensures
            n.group.is_none(),
            n.root == false,
    {
        Node { group: None, root: false }
    }
}

} // verus!
