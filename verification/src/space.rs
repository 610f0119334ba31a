use vstd::prelude::*;
use rand_chacha::ChaCha12Rng;
use crate::count::{count_true, lemma_count_bound, lemma_count_every, lemma_count_none, lemma_count_update};
use crate::edge::{Edge, EdgeDirection};
use crate::error::Error;
use crate::node::Node;
use crate::rng::random_below;

verus! {

/// A geometry: a fixed number of nodes and edges, the edges that touch each
/// node and the two nodes that each edge joins.
pub trait Space {
    /// The instance describes a geometry at all (its counts fit the machine).
    spec fn wf(&self) -> bool;

    /// Number of nodes.
    spec fn node_count(&self) -> nat;

    /// Number of edges.
    spec fn edge_count(&self) -> nat;

    /// The edges that touch a node, in the order in which they are listed.
    spec fn incident(&self, node_id: int) -> Seq<usize>;

    /// The nodes that an edge joins.
    spec fn ends(&self, edge_id: int) -> Seq<usize>;

    /// Incidence and its inverse agree: an edge joins two distinct nodes, each of
    /// which lists it, and a node lists each of its edges once.
    proof fn geometry(&self)
        requires
            self.wf(),
        ensures
            forall|n: int, i: int|
                0 <= n < self.node_count() && 0 <= i < self.incident(n).len() ==> {
                    &&& (#[trigger] self.incident(n)[i]) < self.edge_count()
                    &&& self.ends(self.incident(n)[i] as int).contains(n as usize)
                },
            forall|n: int, i: int, j: int|
                0 <= n < self.node_count() && 0 <= i < j < self.incident(n).len() ==> (
                #[trigger] self.incident(n)[i]) != (#[trigger] self.incident(n)[j]),
            forall|e: int|
                0 <= e < self.edge_count() ==> {
                    &&& (#[trigger] self.ends(e)).len() == 2
                    &&& self.ends(e)[0] < self.node_count()
                    &&& self.ends(e)[1] < self.node_count()
                    &&& self.ends(e)[0] != self.ends(e)[1]
                    &&& self.incident(self.ends(e)[0] as int).contains(e as usize)
                    &&& self.incident(self.ends(e)[1] as int).contains(e as usize)
                },
            self.node_count() <= usize::MAX,
            self.edge_count() < usize::MAX,
    ;

    /// Number of nodes.
    fn num_nodes(&self) -> (n: usize)
        requires
            self.wf(),
        ensures
            n == self.node_count(),
    ;

    /// Number of edges.
    fn num_edges(&self) -> (n: usize)
        requires
            self.wf(),
        ensures
            n == self.edge_count(),
    ;

    /// The edges that touch `node_id`.
    fn node_edges(&self, node_id: usize) -> (v: Vec<usize>)
        requires
            self.wf(),
            node_id < self.node_count(),
        ensures
            v@ == self.incident(node_id as int),
    ;

    /// The nodes that `edge_id` joins.
    fn edge_nodes(&self, edge_id: usize) -> (v: Vec<usize>)
        requires
            self.wf(),
            edge_id < self.edge_count(),
        ensures
            v@ == self.ends(edge_id as int),
    ;
}

/// The end of edge `e` that is not node `n`.
pub open spec fn far_end<S: Space>(space: &S, e: int, n: int) -> int {
    if space.ends(e)[0] != n {
        space.ends(e)[0] as int
    } else {
        space.ends(e)[1] as int
    }
}

/// The lower numbered end of an edge.
pub open spec fn low_end<S: Space>(space: &S, e: int) -> int {
    if space.ends(e)[0] < space.ends(e)[1] {
        space.ends(e)[0] as int
    } else {
        space.ends(e)[1] as int
    }
}

/// The higher numbered end of an edge.
pub open spec fn high_end<S: Space>(space: &S, e: int) -> int {
    if space.ends(e)[0] < space.ends(e)[1] {
        space.ends(e)[1] as int
    } else {
        space.ends(e)[0] as int
    }
}

/// The end of a tree edge that is nearer to the root: the lower one of a
/// `Forward` edge, the higher one of a `Backward` edge.
pub open spec fn parent_end<S: Space>(space: &S, edges: Seq<Edge>, e: int) -> int {
    if edges[e].direction == EdgeDirection::Forward {
        low_end(space, e)
    } else {
        high_end(space, e)
    }
}

/// The end of a tree edge that is farther from the root.
pub open spec fn child_end<S: Space>(space: &S, edges: Seq<Edge>, e: int) -> int {
    if edges[e].direction == EdgeDirection::Forward {
        high_end(space, e)
    } else {
        low_end(space, e)
    }
}

/// Edge `e` leads from node `n` to the parent of `n`.
pub open spec fn points_up<S: Space>(space: &S, edges: Seq<Edge>, n: int, e: int) -> bool {
    ||| edges[e].direction == EdgeDirection::Forward && far_end(space, e, n) < n
    ||| edges[e].direction == EdgeDirection::Backward && far_end(space, e, n) > n
}

/// For each edge, whether it is a tree edge.
pub open spec fn tree_flags(edges: Seq<Edge>) -> Seq<bool> {
    Seq::new(edges.len(), |i: int| edges[i].direction.is_tree())
}

/// For each edge, whether it is a gateway.
pub open spec fn border_flags(edges: Seq<Edge>) -> Seq<bool> {
    Seq::new(edges.len(), |i: int| edges[i].direction == EdgeDirection::Border)
}

/// For each node, whether it has a zone.
pub open spec fn grouped_flags(nodes: Seq<Node>) -> Seq<bool> {
    Seq::new(nodes.len(), |i: int| nodes[i].group.is_some())
}

/// For each node, whether it is a root.
pub open spec fn root_flags(nodes: Seq<Node>) -> Seq<bool> {
    Seq::new(nodes.len(), |i: int| nodes[i].root)
}

/// Number of tree edges.
pub open spec fn tree_count(edges: Seq<Edge>) -> nat {
    count_true(tree_flags(edges))
}

/// Number of gateways.
pub open spec fn border_count(edges: Seq<Edge>) -> nat {
    count_true(border_flags(edges))
}

/// Number of nodes that have a zone.
pub open spec fn grouped_count(nodes: Seq<Node>) -> nat {
    count_true(grouped_flags(nodes))
}

/// Number of roots.
pub open spec fn root_count(nodes: Seq<Node>) -> nat {
    count_true(root_flags(nodes))
}

/// `seeds` are the roots: seed `i` is a root of zone `i`, every root is a seed,
/// and every zone is that of a seed.
pub open spec fn roots_marked(nodes: Seq<Node>, seeds: Seq<usize>) -> bool {
    &&& forall|i: int|
        0 <= i < seeds.len() ==> {
            &&& (#[trigger] seeds[i]) < nodes.len()
            &&& nodes[seeds[i] as int].root
            &&& nodes[seeds[i] as int].group == Some(i as usize)
        }
    &&& forall|n: int| 0 <= n < nodes.len() && (#[trigger] nodes[n]).root ==> seeds.contains(n as usize)
    &&& forall|n: int|
        0 <= n < nodes.len() && (#[trigger] nodes[n]).group.is_some() ==> nodes[n].group.unwrap()
            < seeds.len()
    &&& root_count(nodes) == seeds.len()
}

/// A rank for every node under which each tree edge leads from a lower ranked
/// parent to a higher ranked child: the tree edges hold no cycle.
pub open spec fn ranked<S: Space>(space: &S, edges: Seq<Edge>, rank: Seq<nat>) -> bool {
    &&& rank.len() == space.node_count()
    &&& forall|e: int|
        0 <= e < edges.len() && (#[trigger] edges[e]).direction.is_tree() ==> rank[parent_end(
            space,
            edges,
            e,
        )] < rank[child_end(space, edges, e)]
}

/// What the forest builder keeps track of beside the nodes and edges: the rank
/// of each node (its distance from its root), the edge that leads to its parent
/// and the seeds.
pub struct Growth {
    pub rank: Seq<nat>,
    pub up: Seq<int>,
    pub seeds: Seq<usize>,
}

/// The tree edges as the builder grows them: each joins two nodes of one zone,
/// leads to a child that is no root and lies one step farther from the root
/// than the parent, and is the one edge that leads up from that child; each
/// node with a zone that is no root has such an edge; a root has rank 0.
pub open spec fn oriented<S: Space>(space: &S, nodes: Seq<Node>, edges: Seq<Edge>, g: Growth) -> bool {
    &&& g.up.len() == nodes.len()
    &&& ranked(space, edges, g.rank)
    &&& forall|n: int| 0 <= n < nodes.len() && nodes[n].root ==> (#[trigger] g.rank[n]) == 0
    &&& forall|e: int|
        0 <= e < edges.len() && (#[trigger] edges[e]).direction.is_tree() ==> {
            &&& nodes[parent_end(space, edges, e)].group == nodes[child_end(space, edges, e)].group
            &&& !nodes[child_end(space, edges, e)].root
            &&& g.up[child_end(space, edges, e)] == e
            &&& g.rank[child_end(space, edges, e)] == g.rank[parent_end(space, edges, e)] + 1
        }
    &&& forall|n: int|
        0 <= n < nodes.len() && nodes[n].group.is_some() && !nodes[n].root ==> {
            &&& 0 <= (#[trigger] g.up[n]) < edges.len()
            &&& edges[g.up[n]].direction.is_tree()
            &&& child_end(space, edges, g.up[n]) == n
        }
}

/// The state of the builder between two steps. `busy` is the node whose edges
/// are being worked on, or -1.
pub open spec fn growing<S: Space>(
    space: &S,
    nodes: Seq<Node>,
    edges: Seq<Edge>,
    frontier: Seq<usize>,
    g: Growth,
    busy: int,
) -> bool {
    &&& space.wf()
    &&& nodes.len() == space.node_count()
    &&& edges.len() == space.edge_count()
    &&& roots_marked(nodes, g.seeds)
    &&& oriented(space, nodes, edges, g)
    &&& forall|k: int|
        0 <= k < frontier.len() ==> (#[trigger] frontier[k]) < nodes.len()
            && nodes[frontier[k] as int].group.is_some()
    &&& forall|e: int|
        0 <= e < edges.len() ==> !(#[trigger] edges[e]).solution && edges[e].direction
            != EdgeDirection::Border
    &&& forall|e: int|
        0 <= e < edges.len() && (#[trigger] edges[e]).direction != EdgeDirection::Unknown ==> {
            &&& nodes[space.ends(e)[0] as int].group.is_some()
            &&& nodes[space.ends(e)[1] as int].group.is_some()
        }
    &&& forall|n: int, i: int|
        0 <= n < nodes.len() && n != busy && nodes[n].group.is_some() && !frontier.contains(
            n as usize,
        ) && 0 <= i < space.incident(n).len() ==> edges[(#[trigger] space.incident(n)[i]) as int].direction
            != EdgeDirection::Unknown
    &&& tree_count(edges) + g.seeds.len() == grouped_count(nodes)
}

/// A finished forest of `roots` trees over a geometry: every node has a zone,
/// every edge is a tree edge or closed, there are `roots` roots, one per zone,
/// and as many tree edges as there are nodes that are no roots. The tree
/// edges hold no cycle, every node but a root has exactly one edge that leads to
/// its parent, a root has none, and a tree edge stays within one zone.
pub open spec fn is_forest<S: Space>(space: &S, nodes: Seq<Node>, edges: Seq<Edge>, roots: nat) -> bool {
    &&& nodes.len() == space.node_count()
    &&& edges.len() == space.edge_count()
    &&& forall|e: int|
        0 <= e < edges.len() ==> !(#[trigger] edges[e]).solution && (edges[e].direction.is_tree()
            || edges[e].direction == EdgeDirection::Closed)
    &&& forall|n: int|
        0 <= n < nodes.len() ==> (#[trigger] nodes[n]).group.is_some() && nodes[n].group.unwrap()
            < roots
    &&& exists|seeds: Seq<usize>| seeds.len() == roots && roots_marked(nodes, seeds)
    &&& root_count(nodes) == roots
    &&& tree_count(edges) + roots == nodes.len()
    &&& exists|g: Growth| oriented(space, nodes, edges, g)
}

/// The other end of `edge_id`, seen from `node_id`.
pub fn follow_edge<S: Space>(space: &S, node_id: usize, edge_id: usize) -> (r: Option<usize>)
    requires
        space.wf(),
        edge_id < space.edge_count(),
    ensures
        r == Some(far_end(space, edge_id as int, node_id as int) as usize),
        r.unwrap() < space.node_count(),
        space.ends(edge_id as int).contains(node_id) ==> r.unwrap() != node_id,
{
    let ends = space.edge_nodes(edge_id);
    proof {
        space.geometry();
        assert(space.ends(edge_id as int).len() == 2);
        if space.ends(edge_id as int).contains(node_id) {
            let k = choose|k: int|
                0 <= k < space.ends(edge_id as int).len() && space.ends(edge_id as int)[k]
                    == node_id;
        }
    }
    if ends[0] != node_id {
        Some(ends[0])
    } else {
        Some(ends[1])
    }
}

/// `n` distinct indices below `len`, each drawn evenly from those not yet drawn.
pub fn n_unique_indices(rng: &mut ChaCha12Rng, len: usize, n: usize) -> (out: Vec<usize>)
    requires
        n <= len,
    ensures
        out.len() == n,
        forall|i: int| 0 <= i < n ==> (#[trigger] out[i]) < len,
        forall|i: int, j: int| 0 <= i < j < n ==> out[i] != out[j],
{
    let mut pool: Vec<usize> = Vec::new();
    let mut i: usize = 0;
    while i < len
        invariant
            i <= len,
            pool.len() == i,
            forall|k: int| 0 <= k < i ==> pool[k] == k,
        decreases len - i,
    {
        pool.push(i);
        i += 1;
    }
    let mut out: Vec<usize> = Vec::new();
    let mut c: usize = 0;
    while c < n
        invariant
            c <= n <= len,
            pool.len() == len - c,
            out.len() == c,
            forall|k: int| 0 <= k < pool.len() ==> (#[trigger] pool[k]) < len,
            forall|k: int, l: int| 0 <= k < l < pool.len() ==> pool[k] != pool[l],
            forall|k: int| 0 <= k < c ==> (#[trigger] out[k]) < len,
            forall|k: int, l: int| 0 <= k < l < c ==> out[k] != out[l],
            forall|k: int, l: int| 0 <= k < c && 0 <= l < pool.len() ==> out[k] != pool[l],
        decreases n - c,
    {
        let j = random_below(rng, pool.len());
        let idx = pool.swap_remove(j);
        out.push(idx);
        c += 1;
    }
    out
}

/// Setting the direction of an edge that was no tree edge to one that is none
/// leaves the tree edges as they were.
proof fn lemma_close_keeps_count(edges: Seq<Edge>, e: int, edge: Edge)
    requires
        0 <= e < edges.len(),
        !edges[e].direction.is_tree(),
        !edge.direction.is_tree(),
    ensures
        tree_count(edges.update(e, edge)) == tree_count(edges),
{
    assert(tree_flags(edges.update(e, edge)) =~= tree_flags(edges));
}

/// Turning an edge that was no tree edge into one adds one to the count.
proof fn lemma_orient_adds_one(edges: Seq<Edge>, e: int, edge: Edge)
    requires
        0 <= e < edges.len(),
        !edges[e].direction.is_tree(),
        edge.direction.is_tree(),
    ensures
        tree_count(edges.update(e, edge)) == tree_count(edges) + 1,
{
    assert(tree_flags(edges.update(e, edge)) =~= tree_flags(edges).update(e, true));
    lemma_count_update(tree_flags(edges), e, true);
}

/// Giving a zone to a node that had none adds one to the count of nodes with a
/// zone and leaves the roots as they were.
proof fn lemma_group_adds_one(nodes: Seq<Node>, n: int, node: Node)
    requires
        0 <= n < nodes.len(),
        nodes[n].group.is_none(),
        node.group.is_some(),
        node.root == nodes[n].root,
    ensures
        grouped_count(nodes.update(n, node)) == grouped_count(nodes) + 1,
        root_count(nodes.update(n, node)) == root_count(nodes),
{
    assert(grouped_flags(nodes.update(n, node)) =~= grouped_flags(nodes).update(n, true));
    lemma_count_update(grouped_flags(nodes), n, true);
    assert(root_flags(nodes.update(n, node)) =~= root_flags(nodes));
}

/// One step of the builder: takes a node from the frontier at a random place
/// and works on each of its edges that is still `Unknown`. Where the far end
/// has a zone the edge is closed; else the edge becomes a tree edge, the far
/// end joins the zone and the frontier.
fn visit<S: Space>(
    space: &S,
    rng: &mut ChaCha12Rng,
    nodes: &mut Vec<Node>,
    edges: &mut Vec<Edge>,
    visiting: &mut Vec<usize>,
    Ghost(g0): Ghost<Growth>,
) -> (out: Ghost<Growth>)
    requires
        growing(space, old(nodes)@, old(edges)@, old(visiting)@, g0, -1),
        old(visiting).len() > 0,
    ensures
        growing(space, final(nodes)@, final(edges)@, final(visiting)@, out@, -1),
        out@.seeds == g0.seeds,
        grouped_count(final(nodes)@) + old(visiting).len() == grouped_count(old(nodes)@)
            + final(visiting).len() + 1,
        grouped_count(final(nodes)@) >= grouped_count(old(nodes)@),
{
    let pick = random_below(rng, visiting.len());
    let idx = visiting.swap_remove(pick);
    let node_group = nodes[idx].group;
    let eids = space.node_edges(idx);
    let ghost mut g = g0;
    proof {
        space.geometry();
        let before = old(visiting)@;
        let after = visiting@;
        assert forall|x: usize| x != idx && #[trigger] before.contains(x) implies after.contains(
            x,
        ) by {
            let j = choose|j: int| 0 <= j < before.len() && before[j] == x;
            if j == before.len() - 1 {
                assert(after[pick as int] == x);
            } else {
                assert(after[j] == x);
            }
        }
    }
    let mut i: usize = 0;
    while i < eids.len()
        invariant
            0 <= i <= eids.len(),
            eids@ == space.incident(idx as int),
            idx < nodes.len(),
            nodes[idx as int].group == node_group,
            node_group.is_some(),
            growing(space, nodes@, edges@, visiting@, g, idx as int),
            g.seeds == g0.seeds,
            forall|j: int|
                0 <= j < i ==> edges@[(#[trigger] eids@[j]) as int].direction
                    != EdgeDirection::Unknown,
            grouped_count(nodes@) + old(visiting).len() == grouped_count(old(nodes)@)
                + visiting.len() + 1,
            grouped_count(nodes@) >= grouped_count(old(nodes)@),
        decreases eids.len() - i,
    {
        let eid = eids[i];
        proof {
            space.geometry();
            assert(space.incident(idx as int)[i as int] == eid);
        }
        if edges[eid].direction == EdgeDirection::Unknown {
            let nidx = follow_edge(space, idx, eid).unwrap();
            let ghost nodes0 = nodes@;
            let ghost edges0 = edges@;
            let ghost front0 = visiting@;
            proof {
                let k = choose|k: int|
                    0 <= k < space.ends(eid as int).len() && space.ends(eid as int)[k] == idx;
                assert(space.ends(eid as int).len() == 2);
            }
            if nodes[nidx].group.is_some() {
                let closed = Edge { direction: EdgeDirection::Closed, solution: edges[eid].solution };
                edges.set(eid, closed);
                proof {
                    lemma_close_keeps_count(edges0, eid as int, closed);
                    assert forall|e: int|
                        0 <= e < edges.len() && (#[trigger] edges@[e]).direction.is_tree() implies {
                        &&& parent_end(space, edges@, e) == parent_end(space, edges0, e)
                        &&& child_end(space, edges@, e) == child_end(space, edges0, e)
                        &&& edges0[e].direction.is_tree()
                    } by {}
                    assert(growing(space, nodes@, edges@, visiting@, g, idx as int));
                }
            } else {
                let dir = if idx < nidx {
                    EdgeDirection::Forward
                } else {
                    EdgeDirection::Backward
                };
                let open = Edge { direction: dir, solution: edges[eid].solution };
                edges.set(eid, open);
                let joined = Node { group: node_group, root: nodes[nidx].root };
                nodes.set(nidx, joined);
                visiting.push(nidx);
                proof {
                    let g1 = Growth {
                        rank: g.rank.update(nidx as int, g.rank[idx as int] + 1),
                        up: g.up.update(nidx as int, eid as int),
                        seeds: g.seeds,
                    };
                    lemma_orient_adds_one(edges0, eid as int, open);
                    lemma_group_adds_one(nodes0, nidx as int, joined);
                    assert(parent_end(space, edges@, eid as int) == idx);
                    assert(child_end(space, edges@, eid as int) == nidx);
                    assert forall|e: int|
                        0 <= e < edges.len() && e != eid && (#[trigger] edges@[e]).direction.is_tree() implies {
                        &&& parent_end(space, edges@, e) == parent_end(space, edges0, e)
                        &&& child_end(space, edges@, e) == child_end(space, edges0, e)
                        &&& edges0[e].direction.is_tree()
                        &&& parent_end(space, edges0, e) != nidx
                        &&& child_end(space, edges0, e) != nidx
                    } by {
                        assert(edges0[e].direction != EdgeDirection::Unknown);
                    }
                    assert forall|x: usize| #[trigger] front0.contains(x) implies visiting@.contains(
                        x,
                    ) by {
                        let j = choose|j: int| 0 <= j < front0.len() && front0[j] == x;
                        assert(visiting@[j] == x);
                    }
                    assert(visiting@[front0.len() as int] == nidx);
                    assert(visiting@.contains(nidx));
                    assert(ranked(space, edges@, g1.rank));
                    assert(oriented(space, nodes@, edges@, g1));
                    assert(roots_marked(nodes@, g1.seeds));
                    g = g1;
                    assert(growing(space, nodes@, edges@, visiting@, g, idx as int));
                }
            }
        }
        i += 1;
    }
    proof {
        assert forall|k: int| 0 <= k < space.incident(idx as int).len() implies edges@[(
        #[trigger] space.incident(idx as int)[k]) as int].direction != EdgeDirection::Unknown by {
            assert(eids@[k] == space.incident(idx as int)[k]);
        }
    }
    Ghost(g)
}

/// Whether `inside` holds some node of the geometry but not all of them.
pub open spec fn splits<S: Space>(space: &S, inside: Set<int>) -> bool {
    &&& exists|a: int| 0 <= a < space.node_count() && inside.contains(a)
    &&& exists|b: int| 0 <= b < space.node_count() && !inside.contains(b)
}

/// Whether edge `e` joins a node in `inside` to one that is not.
pub open spec fn crosses<S: Space>(space: &S, inside: Set<int>, e: int) -> bool {
    &&& 0 <= e < space.edge_count()
    &&& inside.contains(space.ends(e)[0] as int) != inside.contains(space.ends(e)[1] as int)
}

/// The geometry is in one piece: however its nodes are split in two, some edge
/// joins the two parts.
pub open spec fn connected<S: Space>(space: &S) -> bool {
    forall|inside: Set<int>| #[trigger]
        splits(space, inside) ==> exists|e: int| crosses(space, inside, e)
}

/// Once the frontier is empty on a geometry in one piece, every node has a zone.
proof fn lemma_all_reached<S: Space>(
    space: &S,
    nodes: Seq<Node>,
    edges: Seq<Edge>,
    g: Growth,
)
    requires
        growing(space, nodes, edges, Seq::<usize>::empty(), g, -1),
        g.seeds.len() >= 1,
        connected(space),
    ensures
        forall|n: int| 0 <= n < nodes.len() ==> (#[trigger] nodes[n]).group.is_some(),
{
    space.geometry();
    let inside = Set::new(|n: int| 0 <= n < nodes.len() && nodes[n].group.is_some());
    if exists|b: int| 0 <= b < nodes.len() && !nodes[b].group.is_some() {
        let b = choose|b: int| 0 <= b < nodes.len() && !nodes[b].group.is_some();
        let a = g.seeds[0] as int;
        assert(inside.contains(a));
        assert(!inside.contains(b));
        assert(splits(space, inside));
        let e = choose|e: int| crosses(space, inside, e);
        let x = space.ends(e)[0] as int;
        let y = space.ends(e)[1] as int;
        let near = if inside.contains(x) { x } else { y };
        let k = choose|k: int|
            0 <= k < space.incident(near).len() && space.incident(near)[k] == e as usize;
        assert(!Seq::<usize>::empty().contains(near as usize));
        assert(edges[space.incident(near)[k] as int].direction != EdgeDirection::Unknown);
        assert(edges[e].direction != EdgeDirection::Unknown);
        assert(false);
    }
}

/// How many trees a forest of `roots` roots gets on `nodes` nodes: one per root,
/// but no more than there are nodes.
pub open spec fn tree_total(nodes: nat, roots: nat) -> nat {
    if roots > nodes {
        nodes
    } else {
        roots
    }
}

/// A forest of `roots` trees over the geometry, grown from as many random
/// seeds: zone `i` is the tree of the `i`-th seed. A root count above the node
/// count is taken down to it.
///
/// Fails with `InvalidGeometry` exactly where `roots` is zero or the geometry
/// has no node, and with `BuilderStall` only where the frontier ran empty
/// before every node had a zone, which does not happen on a geometry in one
/// piece, nor where there are as many roots as nodes. In the forest, solving
/// between two nodes of one zone finds the way.
pub fn layout<S: Space>(space: &S, roots: usize, rng: &mut ChaCha12Rng) -> (r: Result<
    (Vec<Node>, Vec<Edge>),
    Error,
>)
    requires
        space.wf(),
    ensures
        (roots == 0 || space.node_count() == 0) <==> r == Err::<(Vec<Node>, Vec<Edge>), Error>(
            Error::InvalidGeometry,
        ),
        r.is_err() ==> r.unwrap_err() == Error::InvalidGeometry || r.unwrap_err()
            == Error::BuilderStall,
        connected(space) && roots != 0 && space.node_count() != 0 ==> r.is_ok(),
        roots >= space.node_count() && space.node_count() != 0 ==> r.is_ok(),
        r.is_ok() ==> forall|s: int, t: int|
            0 <= s < space.node_count() && 0 <= t < space.node_count() && r.unwrap().0@[s].group
                == r.unwrap().0@[t].group ==> #[trigger] crate::way::clear_tree(
                space,
                r.unwrap().1@,
                s,
                t,
            ),
        r.is_ok() ==> is_forest(
            space,
            r.unwrap().0@,
            r.unwrap().1@,
            tree_total(space.node_count(), roots as nat),
        ),
{
    let num_nodes = space.num_nodes();
    let num_edges = space.num_edges();
    if roots == 0 || num_nodes == 0 {
        return Err(Error::InvalidGeometry);
    }
    let trees = if roots > num_nodes {
        num_nodes
    } else {
        roots
    };
    let mut nodes: Vec<Node> = Vec::with_capacity(num_nodes);
    let mut visiting: Vec<usize> = Vec::with_capacity(num_nodes);
    let mut i: usize = 0;
    while i < num_nodes
        invariant
            i <= num_nodes,
            nodes.len() == i,
            forall|k: int| 0 <= k < i ==> (#[trigger] nodes@[k]).group.is_none() && !nodes@[k].root,
        decreases num_nodes - i,
    {
        nodes.push(Node::default());
        i += 1;
    }
    let mut edges: Vec<Edge> = Vec::with_capacity(num_edges);
    let mut i: usize = 0;
    while i < num_edges
        invariant
            i <= num_edges,
            edges.len() == i,
            forall|k: int|
                0 <= k < i ==> (#[trigger] edges@[k]).direction == EdgeDirection::Unknown
                    && !edges@[k].solution,
        decreases num_edges - i,
    {
        edges.push(Edge::default());
        i += 1;
    }
    let seeds = n_unique_indices(rng, num_nodes, trees);
    proof {
        lemma_count_none(grouped_flags(nodes@));
        lemma_count_none(root_flags(nodes@));
        lemma_count_none(tree_flags(edges@));
    }
    let mut i: usize = 0;
    while i < trees
        invariant
            i <= trees,
            trees == seeds.len(),
            nodes.len() == num_nodes,
            visiting@ == seeds@.take(i as int),
            forall|k: int| 0 <= k < trees ==> (#[trigger] seeds@[k]) < num_nodes,
            forall|k: int, l: int| 0 <= k < l < trees ==> seeds@[k] != seeds@[l],
            forall|k: int|
                0 <= k < i ==> nodes@[(#[trigger] seeds@[k]) as int].root && nodes@[seeds@[k] as int].group
                    == Some(k as usize),
            forall|n: int|
                0 <= n < num_nodes && !seeds@.take(i as int).contains(n as usize) ==> (
                #[trigger] nodes@[n]).group.is_none() && !nodes@[n].root,
            grouped_count(nodes@) == i,
            root_count(nodes@) == i,
        decreases trees - i,
    {
        let idx = seeds[i];
        let ghost nodes0 = nodes@;
        let seed = Node { group: Some(i), root: true };
        proof {
            assert(!seeds@.take(i as int).contains(idx)) by {
                if seeds@.take(i as int).contains(idx) {
                    let k = choose|k: int|
                        0 <= k < seeds@.take(i as int).len() && seeds@.take(i as int)[k] == idx;
                    assert(seeds@[k] == idx);
                }
            }
        }
        nodes.set(idx, seed);
        visiting.push(idx);
        proof {
            assert(grouped_flags(nodes@) =~= grouped_flags(nodes0).update(idx as int, true));
            lemma_count_update(grouped_flags(nodes0), idx as int, true);
            assert(root_flags(nodes@) =~= root_flags(nodes0).update(idx as int, true));
            lemma_count_update(root_flags(nodes0), idx as int, true);
            assert(seeds@.take(i + 1) =~= seeds@.take(i as int).push(idx));
            assert forall|n: int|
                0 <= n < num_nodes && !seeds@.take(i + 1).contains(n as usize) implies (
            #[trigger] nodes@[n]).group.is_none() && !nodes@[n].root by {
                assert(seeds@.take(i + 1)[i as int] == idx);
                if seeds@.take(i as int).contains(n as usize) {
                    let k = choose|k: int|
                        0 <= k < seeds@.take(i as int).len() && seeds@.take(i as int)[k]
                            == n as usize;
                    assert(seeds@.take(i + 1)[k] == n as usize);
                }
            }
        }
        i += 1;
    }
    let ghost mut g = Growth {
        rank: Seq::new(num_nodes as nat, |n: int| 0nat),
        up: Seq::new(num_nodes as nat, |n: int| -1int),
        seeds: seeds@,
    };
    proof {
        assert(seeds@.take(trees as int) =~= seeds@);
        assert forall|n: int| 0 <= n < nodes.len() && (#[trigger] nodes@[n]).root implies seeds@.contains(
            n as usize,
        ) by {}
        assert(roots_marked(nodes@, g.seeds));
        assert(growing(space, nodes@, edges@, visiting@, g, -1));
    }
    while visiting.len() > 0
        invariant
            growing(space, nodes@, edges@, visiting@, g, -1),
            g.seeds.len() == trees,
            trees >= 1,
        decreases nodes.len() - grouped_count(nodes@), visiting.len(),
    {
        proof {
            lemma_count_bound(grouped_flags(nodes@));
        }
        let Ghost(g1) = visit(space, rng, &mut nodes, &mut edges, &mut visiting, Ghost(g));
        proof {
            g = g1;
            lemma_count_bound(grouped_flags(nodes@));
        }
    }
    proof {
        assert(visiting@ =~= Seq::<usize>::empty());
        if connected(space) {
            lemma_all_reached(space, nodes@, edges@, g);
        }
        if roots >= num_nodes {
            lemma_count_bound(grouped_flags(nodes@));
            crate::count::lemma_count_full(grouped_flags(nodes@));
            assert forall|n: int| 0 <= n < nodes.len() implies (#[trigger] nodes@[n]).group.is_some() by {
                assert(grouped_flags(nodes@)[n]);
            }
        }
    }
    let mut i: usize = 0;
    while i < nodes.len()
        invariant
            i <= nodes.len(),
            roots != 0,
            space.node_count() != 0,
            connected(space) || roots >= space.node_count() ==> forall|n: int|
                0 <= n < nodes.len() ==> (#[trigger] nodes@[n]).group.is_some(),
            forall|k: int| 0 <= k < i ==> (#[trigger] nodes@[k]).group.is_some(),
        decreases nodes.len() - i,
    {
        if nodes[i].group.is_none() {
            return Err(Error::BuilderStall);
        }
        i += 1;
    }
    proof {
        space.geometry();
        lemma_count_every(grouped_flags(nodes@));
        assert forall|e: int| 0 <= e < edges.len() implies (#[trigger] edges@[e]).direction
            != EdgeDirection::Unknown by {
            let n = space.ends(e)[0] as int;
            let k = choose|k: int|
                0 <= k < space.incident(n).len() && space.incident(n)[k] == e as usize;
            assert(!visiting@.contains(n as usize));
            assert(edges@[space.incident(n)[k] as int].direction != EdgeDirection::Unknown);
        }
        assert(oriented(space, nodes@, edges@, g));
        assert(g.seeds.len() == trees && roots_marked(nodes@, g.seeds));
        assert(is_forest(space, nodes@, edges@, trees as nat));
        assert forall|s: int, t: int|
            0 <= s < space.node_count() && 0 <= t < space.node_count() && nodes@[s].group
                == nodes@[t].group implies #[trigger] crate::way::clear_tree(space, edges@, s, t) by {
            crate::way::lemma_forest_clear(space, nodes@, edges@, trees as nat, s, t);
        }
    }
    Ok((nodes, edges))
}

/// The first edge that node `n` lists, from place `from` on, that leads to the
/// parent of `n`.
pub open spec fn first_up<S: Space>(space: &S, edges: Seq<Edge>, n: int, from: int) -> Option<int>
    decreases space.incident(n).len() - from,
{
    if from < 0 || from >= space.incident(n).len() {
        None
    } else if points_up(space, edges, n, space.incident(n)[from] as int) {
        Some(space.incident(n)[from] as int)
    } else {
        first_up(space, edges, n, from + 1)
    }
}

/// What `first_up` finds is a tree edge from `n` to its parent; where it finds
/// nothing, no edge from that place on leads up.
pub proof fn lemma_first_up<S: Space>(space: &S, edges: Seq<Edge>, n: int, from: int)
    requires
        space.wf(),
        0 <= n < space.node_count(),
        0 <= from,
        edges.len() == space.edge_count(),
    ensures
        match first_up(space, edges, n, from) {
            Some(e) => {
                &&& 0 <= e < space.edge_count()
                &&& points_up(space, edges, n, e)
                &&& edges[e].direction.is_tree()
                &&& child_end(space, edges, e) == n
                &&& parent_end(space, edges, e) == far_end(space, e, n)
                &&& 0 <= far_end(space, e, n) < space.node_count()
                &&& far_end(space, e, n) != n
            },
            None => forall|k: int|
                from <= k < space.incident(n).len() ==> !points_up(
                    space,
                    edges,
                    n,
                    (#[trigger] space.incident(n)[k]) as int,
                ),
        },
    decreases space.incident(n).len() - from,
{
    space.geometry();
    if from < space.incident(n).len() {
        let e = space.incident(n)[from] as int;
        if points_up(space, edges, n, e) {
            let k = choose|k: int| 0 <= k < space.ends(e).len() && space.ends(e)[k] == n as usize;
            assert(space.ends(e).len() == 2);
        } else {
            lemma_first_up(space, edges, n, from + 1);
        }
    }
}

/// `first_up` looks at directions only.
pub proof fn lemma_first_up_same<S: Space>(
    space: &S,
    edges: Seq<Edge>,
    other: Seq<Edge>,
    n: int,
    from: int,
)
    requires
        space.wf(),
        0 <= n < space.node_count(),
        edges.len() == space.edge_count(),
        same_directions(edges, other),
    ensures
        first_up(space, edges, n, from) == first_up(space, other, n, from),
    decreases space.incident(n).len() - from,
{
    space.geometry();
    if 0 <= from < space.incident(n).len() {
        let e = space.incident(n)[from] as int;
        assert(edges[e].direction == other[e].direction);
        if !points_up(space, edges, n, e) {
            lemma_first_up_same(space, edges, other, n, from + 1);
        }
    }
}

/// Two lists of edges that agree in every direction.
pub open spec fn same_directions(edges: Seq<Edge>, other: Seq<Edge>) -> bool {
    &&& edges.len() == other.len()
    &&& forall|e: int| 0 <= e < edges.len() ==> (#[trigger] edges[e]).direction == other[e].direction
}

/// Whether the way from `n` to its root can be walked: the geometry is sound,
/// there is an edge state for every edge, and `rank` shows the tree edges
/// free of cycles.
pub open spec fn climbable<S: Space>(space: &S, edges: Seq<Edge>, rank: Seq<nat>, n: int) -> bool {
    &&& space.wf()
    &&& edges.len() == space.edge_count()
    &&& ranked(space, edges, rank)
    &&& 0 <= n < space.node_count()
}

/// The edges on the way from `n` to the root of its tree, `n`'s own first.
pub open spec fn root_path<S: Space>(space: &S, edges: Seq<Edge>, rank: Seq<nat>, n: int) -> Seq<int>
    decreases rank[n],
    when climbable(space, edges, rank, n)
{
    match first_up(space, edges, n, 0) {
        None => Seq::<int>::empty(),
        Some(e) => {
            proof {
                lemma_first_up(space, edges, n, 0);
            }
            seq![e] + root_path(space, edges, rank, far_end(space, e, n))
        },
    }
}

/// The way to the root is a list of edges of the geometry.
pub proof fn lemma_root_path_edges<S: Space>(space: &S, edges: Seq<Edge>, rank: Seq<nat>, n: int)
    requires
        climbable(space, edges, rank, n),
    ensures
        forall|i: int|
            0 <= i < root_path(space, edges, rank, n).len() ==> 0 <= (#[trigger] root_path(
                space,
                edges,
                rank,
                n,
            )[i]) < edges.len(),
    decreases rank[n],
{
    lemma_first_up(space, edges, n, 0);
    match first_up(space, edges, n, 0) {
        None => {},
        Some(e) => {
            let rest = root_path(space, edges, rank, far_end(space, e, n));
            lemma_root_path_edges(space, edges, rank, far_end(space, e, n));
            let all = root_path(space, edges, rank, n);
            assert(all == seq![e] + rest);
            assert forall|i: int| 0 <= i < all.len() implies 0 <= #[trigger] all[i] < edges.len() by {
                if i > 0 {
                    assert(all[i] == rest[i - 1]);
                }
            }
        },
    }
}

/// The way to the root depends on the directions alone: not on the solution
/// marks, and not on which rank shows the tree edges free of cycles.
pub proof fn lemma_root_path_same<S: Space>(
    space: &S,
    edges: Seq<Edge>,
    rank: Seq<nat>,
    other: Seq<Edge>,
    other_rank: Seq<nat>,
    n: int,
)
    requires
        climbable(space, edges, rank, n),
        climbable(space, other, other_rank, n),
        same_directions(edges, other),
    ensures
        root_path(space, edges, rank, n) == root_path(space, other, other_rank, n),
    decreases rank[n],
{
    lemma_first_up(space, edges, n, 0);
    lemma_first_up_same(space, edges, other, n, 0);
    match first_up(space, edges, n, 0) {
        None => {},
        Some(e) => {
            lemma_root_path_same(space, edges, rank, other, other_rank, far_end(space, e, n));
        },
    }
}

/// The edges with the solution mark of edge `e` turned over.
pub open spec fn toggle_one(edges: Seq<Edge>, e: int) -> Seq<Edge> {
    edges.update(e, Edge { direction: edges[e].direction, solution: !edges[e].solution })
}

/// The edges with the solution mark of each edge of `path` turned over, once
/// for each time it is listed.
pub open spec fn toggle_all(edges: Seq<Edge>, path: Seq<int>) -> Seq<Edge>
    decreases path.len(),
{
    if path.len() == 0 {
        edges
    } else {
        toggle_one(toggle_all(edges, path.drop_last()), path.last())
    }
}

/// Turning marks over changes no direction.
pub proof fn lemma_toggle_all_directions(edges: Seq<Edge>, path: Seq<int>)
    requires
        forall|i: int| 0 <= i < path.len() ==> 0 <= #[trigger] path[i] < edges.len(),
    ensures
        same_directions(toggle_all(edges, path), edges),
    decreases path.len(),
{
    if path.len() > 0 {
        lemma_toggle_all_directions(edges, path.drop_last());
    }
}

/// Turning one more mark over before a path is the same as after it.
pub proof fn lemma_toggle_commutes(edges: Seq<Edge>, path: Seq<int>, e: int)
    requires
        0 <= e < edges.len(),
        forall|i: int| 0 <= i < path.len() ==> 0 <= #[trigger] path[i] < edges.len(),
    ensures
        toggle_all(toggle_one(edges, e), path) == toggle_one(toggle_all(edges, path), e),
    decreases path.len(),
{
    if path.len() > 0 {
        let p = path.drop_last();
        lemma_toggle_commutes(edges, p, e);
        lemma_toggle_all_directions(edges, p);
        let mid = toggle_all(edges, p);
        assert(toggle_one(toggle_one(mid, e), path.last()) =~= toggle_one(
            toggle_one(mid, path.last()),
            e,
        ));
    }
}

/// Turning the marks of a path over twice restores every mark.
pub proof fn lemma_toggle_twice(edges: Seq<Edge>, path: Seq<int>)
    requires
        forall|i: int| 0 <= i < path.len() ==> 0 <= #[trigger] path[i] < edges.len(),
    ensures
        toggle_all(toggle_all(edges, path), path) == edges,
    decreases path.len(),
{
    if path.len() > 0 {
        let p = path.drop_last();
        let e = path.last();
        lemma_toggle_all_directions(edges, p);
        let once = toggle_all(edges, p);
        lemma_toggle_commutes(once, p, e);
        lemma_toggle_twice(edges, p);
        assert(toggle_one(toggle_one(edges, e), e) =~= edges);
    }
}

/// The edge that leads from `node_id` to its parent and that parent: the first
/// edge that the node lists which is `Forward` to a lower node or `Backward` to
/// a higher one. `None` at a root.
pub fn node_parent<S: Space>(space: &S, node_id: usize, edges: &Vec<Edge>) -> (r: Option<
    (usize, usize),
>)
    requires
        space.wf(),
        node_id < space.node_count(),
        edges.len() == space.edge_count(),
    ensures
        match r {
            None => first_up(space, edges@, node_id as int, 0).is_none(),
            Some((eid, nid)) => {
                &&& first_up(space, edges@, node_id as int, 0) == Some(eid as int)
                &&& nid == far_end(space, eid as int, node_id as int)
            },
        },
{
    let eids = space.node_edges(node_id);
    let mut i: usize = 0;
    while i < eids.len()
        invariant
            i <= eids.len(),
            space.wf(),
            node_id < space.node_count(),
            edges.len() == space.edge_count(),
            eids@ == space.incident(node_id as int),
            first_up(space, edges@, node_id as int, 0) == first_up(
                space,
                edges@,
                node_id as int,
                i as int,
            ),
        decreases eids.len() - i,
    {
        let eid = eids[i];
        proof {
            space.geometry();
            assert(space.incident(node_id as int)[i as int] == eid);
        }
        if eid < edges.len() {
            match edges[eid].direction {
                EdgeDirection::Forward => {
                    let nid = follow_edge(space, node_id, eid).unwrap();
                    if nid < node_id {
                        return Some((eid, nid));
                    }
                },
                EdgeDirection::Backward => {
                    let nid = follow_edge(space, node_id, eid).unwrap();
                    if nid > node_id {
                        return Some((eid, nid));
                    }
                },
                _ => {},
            }
        }
        i += 1;
    }
    None
}

/// Walks from `node_id` to the root of its tree and turns the solution mark of
/// each edge on the way over.
pub fn find_root<S: Space>(space: &S, edges: &mut Vec<Edge>, node_id: usize)
    requires
        space.wf(),
        node_id < space.node_count(),
        old(edges).len() == space.edge_count(),
        exists|rank: Seq<nat>| ranked(space, old(edges)@, rank),
    ensures
        same_directions(final(edges)@, old(edges)@),
        forall|rank: Seq<nat>| #[trigger]
            ranked(space, old(edges)@, rank) ==> final(edges)@ == toggle_all(
                old(edges)@,
                root_path(space, old(edges)@, rank, node_id as int),
            ),
{
    let ghost rank = choose|rank: Seq<nat>| ranked(space, old(edges)@, rank);
    let ghost mut path = Seq::<int>::empty();
    let mut nid = node_id;
    loop
        invariant
            space.wf(),
            nid < space.node_count(),
            node_id < space.node_count(),
            edges.len() == space.edge_count(),
            same_directions(edges@, old(edges)@),
            ranked(space, old(edges)@, rank),
            edges@ == toggle_all(old(edges)@, path),
            root_path(space, old(edges)@, rank, node_id as int) == path + root_path(
                space,
                old(edges)@,
                rank,
                nid as int,
            ),
        decreases rank[nid as int],
    {
        proof {
            lemma_first_up(space, old(edges)@, nid as int, 0);
            lemma_first_up_same(space, edges@, old(edges)@, nid as int, 0);
        }
        match node_parent(space, nid, edges) {
            None => {
                proof {
                    assert(path + Seq::<int>::empty() =~= path);
                    assert forall|other: Seq<nat>| #[trigger]
                        ranked(space, old(edges)@, other) implies edges@ == toggle_all(
                        old(edges)@,
                        root_path(space, old(edges)@, other, node_id as int),
                    ) by {
                        lemma_root_path_same(
                            space,
                            old(edges)@,
                            rank,
                            old(edges)@,
                            other,
                            node_id as int,
                        );
                    }
                }
                return ;
            },
            Some((eid, new_nid)) => {
                let edge = edges[eid];
                let ghost before = edges@;
                edges.set(eid, Edge { direction: edge.direction, solution: !edge.solution });
                proof {
                    let rest = root_path(space, old(edges)@, rank, new_nid as int);
                    assert(path.push(eid as int).drop_last() =~= path);
                    assert(path.push(eid as int) + rest =~= path + (seq![eid as int] + rest));
                    assert(edges@ =~= toggle_one(before, eid as int));
                    path = path.push(eid as int);
                }
                nid = new_nid;
            },
        }
    }
}

/// A rank that shows the tree edges free of cycles does so for any edges with
/// the same directions.
pub proof fn lemma_ranked_same<S: Space>(space: &S, edges: Seq<Edge>, other: Seq<Edge>, rank: Seq<nat>)
    requires
        ranked(space, edges, rank),
        same_directions(edges, other),
    ensures
        ranked(space, other, rank),
{
    assert forall|e: int|
        0 <= e < other.len() && (#[trigger] other[e]).direction.is_tree() implies rank[parent_end(
        space,
        other,
        e,
    )] < rank[child_end(space, other, e)] by {
        assert(edges[e].direction == other[e].direction);
    }
}

/// Walking from the same node to its root twice restores every solution mark:
/// the second walk takes the way of the first, and turns each mark back.
pub proof fn lemma_find_root_twice<S: Space>(space: &S, edges: Seq<Edge>, rank: Seq<nat>, n: int)
    requires
        climbable(space, edges, rank, n),
    ensures
        climbable(space, toggle_all(edges, root_path(space, edges, rank, n)), rank, n),
        toggle_all(
            toggle_all(edges, root_path(space, edges, rank, n)),
            root_path(space, toggle_all(edges, root_path(space, edges, rank, n)), rank, n),
        ) == edges,
{
    let path = root_path(space, edges, rank, n);
    let once = toggle_all(edges, path);
    lemma_root_path_edges(space, edges, rank, n);
    lemma_toggle_all_directions(edges, path);
    lemma_ranked_same(space, edges, once, rank);
    lemma_root_path_same(space, edges, rank, once, rank, n);
    lemma_toggle_twice(edges, path);
}

/// Whether the walk along the solution may take edge `e`: a tree edge that
/// bears the solution mark and is not the edge just taken.
pub open spec fn marked(edges: Seq<Edge>, e: int, last: Option<usize>) -> bool {
    &&& edges[e].solution
    &&& edges[e].direction.is_tree()
    &&& last != Some(e as usize)
}

/// The first edge that node `n` lists, from place `from` on, that the walk
/// along the solution may take.
pub open spec fn first_marked<S: Space>(
    space: &S,
    edges: Seq<Edge>,
    n: int,
    last: Option<usize>,
    from: int,
) -> Option<int>
    decreases space.incident(n).len() - from,
{
    if from < 0 || from >= space.incident(n).len() {
        None
    } else if marked(edges, space.incident(n)[from] as int, last) {
        Some(space.incident(n)[from] as int)
    } else {
        first_marked(space, edges, n, last, from + 1)
    }
}

/// What `first_marked` finds is an edge of node `n` that the walk may take.
pub proof fn lemma_first_marked<S: Space>(
    space: &S,
    edges: Seq<Edge>,
    n: int,
    last: Option<usize>,
    from: int,
)
    requires
        space.wf(),
        0 <= n < space.node_count(),
        0 <= from,
    ensures
        match first_marked(space, edges, n, last, from) {
            Some(e) => {
                &&& 0 <= e < space.edge_count()
                &&& marked(edges, e, last)
                &&& space.ends(e).contains(n as usize)
                &&& 0 <= far_end(space, e, n) < space.node_count()
            },
            None => true,
        },
    decreases space.incident(n).len() - from,
{
    space.geometry();
    if from < space.incident(n).len() {
        let e = space.incident(n)[from] as int;
        if marked(edges, e, last) {
            assert(space.ends(e).len() == 2);
        } else {
            lemma_first_marked(space, edges, n, last, from + 1);
        }
    }
}

/// The edges that the walk along the solution takes from `node` until it comes
/// to `end`, finds no edge to take, or has taken `fuel` edges.
pub open spec fn walk<S: Space>(
    space: &S,
    edges: Seq<Edge>,
    node: int,
    last: Option<usize>,
    end: int,
    fuel: nat,
) -> Seq<usize>
    decreases fuel,
{
    if fuel == 0 || node == end {
        Seq::<usize>::empty()
    } else {
        match first_marked(space, edges, node, last, 0) {
            None => Seq::<usize>::empty(),
            Some(e) => seq![e as usize] + walk(
                space,
                edges,
                far_end(space, e, node),
                Some(e as usize),
                end,
                (fuel - 1) as nat,
            ),
        }
    }
}

/// The node at which that walk stops.
pub open spec fn walk_end<S: Space>(
    space: &S,
    edges: Seq<Edge>,
    node: int,
    last: Option<usize>,
    end: int,
    fuel: nat,
) -> int
    decreases fuel,
{
    if fuel == 0 || node == end {
        node
    } else {
        match first_marked(space, edges, node, last, 0) {
            None => node,
            Some(e) => walk_end(
                space,
                edges,
                far_end(space, e, node),
                Some(e as usize),
                end,
                (fuel - 1) as nat,
            ),
        }
    }
}

/// `path` leads from `from` to `to`: each edge joins the node reached so far to
/// the next.
pub open spec fn is_chain<S: Space>(space: &S, path: Seq<usize>, from: int, to: int) -> bool
    decreases path.len(),
{
    if path.len() == 0 {
        from == to
    } else {
        &&& path[0] < space.edge_count()
        &&& space.ends(path[0] as int).contains(from as usize)
        &&& is_chain(space, path.skip(1), far_end(space, path[0] as int, from), to)
    }
}

/// Two chains that meet make one.
pub proof fn lemma_chain_join<S: Space>(
    space: &S,
    first: Seq<usize>,
    second: Seq<usize>,
    from: int,
    mid: int,
    to: int,
)
    requires
        is_chain(space, first, from, mid),
        is_chain(space, second, mid, to),
    ensures
        is_chain(space, first + second, from, to),
    decreases first.len(),
{
    if first.len() == 0 {
        assert(first + second =~= second);
    } else {
        lemma_chain_join(
            space,
            first.skip(1),
            second,
            far_end(space, first[0] as int, from),
            mid,
            to,
        );
        assert((first + second).skip(1) =~= first.skip(1) + second);
    }
}

/// The walk along the solution is a chain of marked tree edges from its first
/// node to the node at which it stops.
pub proof fn lemma_walk_chain<S: Space>(
    space: &S,
    edges: Seq<Edge>,
    node: int,
    last: Option<usize>,
    end: int,
    fuel: nat,
)
    requires
        space.wf(),
        0 <= node < space.node_count(),
    ensures
        is_chain(
            space,
            walk(space, edges, node, last, end, fuel),
            node,
            walk_end(space, edges, node, last, end, fuel),
        ),
        0 <= walk_end(space, edges, node, last, end, fuel) < space.node_count(),
        walk(space, edges, node, last, end, fuel).len() <= fuel,
        forall|i: int|
            0 <= i < walk(space, edges, node, last, end, fuel).len() ==> {
                &&& (#[trigger] walk(space, edges, node, last, end, fuel)[i]) < space.edge_count()
                &&& edges[walk(space, edges, node, last, end, fuel)[i] as int].solution
                &&& edges[walk(space, edges, node, last, end, fuel)[i] as int].direction.is_tree()
            },
    decreases fuel,
{
    if fuel == 0 || node == end {
    } else {
        lemma_first_marked(space, edges, node, last, 0);
        match first_marked(space, edges, node, last, 0) {
            None => {},
            Some(e) => {
                let next = far_end(space, e, node);
                let rest = walk(space, edges, next, Some(e as usize), end, (fuel - 1) as nat);
                let all = walk(space, edges, node, last, end, fuel);
                lemma_walk_chain(space, edges, next, Some(e as usize), end, (fuel - 1) as nat);
                space.geometry();
                assert(all == seq![e as usize] + rest);
                assert(all.skip(1) =~= rest);
                assert forall|i: int| 0 <= i < all.len() implies {
                    &&& (#[trigger] all[i]) < space.edge_count()
                    &&& edges[all[i] as int].solution
                    &&& edges[all[i] as int].direction.is_tree()
                } by {
                    if i > 0 {
                        assert(all[i] == rest[i - 1]);
                    }
                }
            },
        }
    }
}

/// A walk along the solution: the node it stands on and the edge it came by.
pub struct SolutionIterator<'a, S: Space> {
    pub space: &'a S,
    pub edges: &'a Vec<Edge>,
    pub last_node: usize,
    pub last_edge: Option<usize>,
}

impl<'a, S: Space> SolutionIterator<'a, S> {
    /// The walk stands on a node of a sound geometry with a state for every edge.
    pub open spec fn wf(&self) -> bool {
        &&& self.space.wf()
        &&& self.edges@.len() == self.space.edge_count()
        &&& self.last_node < self.space.node_count()
    }

    /// Takes the first edge of the node that is a tree edge with the solution
    /// mark and not the edge just taken, and moves to its far end. `None`,
    /// and nothing changes, where there is no such edge.
    pub fn next(&mut self) -> (r: Option<usize>)
        requires
            old(self).wf(),
        ensures
            final(self).wf(),
            final(self).space == old(self).space,
            final(self).edges == old(self).edges,
            match r {
                None => {
                    &&& first_marked(
                        old(self).space,
                        old(self).edges@,
                        old(self).last_node as int,
                        old(self).last_edge,
                        0,
                    ).is_none()
                    &&& final(self).last_node == old(self).last_node
                    &&& final(self).last_edge == old(self).last_edge
                },
                Some(e) => {
                    &&& first_marked(
                        old(self).space,
                        old(self).edges@,
                        old(self).last_node as int,
                        old(self).last_edge,
                        0,
                    ) == Some(e as int)
                    &&& final(self).last_edge == Some(e)
                    &&& final(self).last_node == far_end(
                        old(self).space,
                        e as int,
                        old(self).last_node as int,
                    )
                },
            },
    {
        let eids = self.space.node_edges(self.last_node);
        let mut i: usize = 0;
        while i < eids.len()
            invariant
                i <= eids.len(),
                self.wf(),
                *self == *old(self),
                eids@ == self.space.incident(self.last_node as int),
                first_marked(self.space, self.edges@, self.last_node as int, self.last_edge, 0)
                    == first_marked(
                    self.space,
                    self.edges@,
                    self.last_node as int,
                    self.last_edge,
                    i as int,
                ),
            decreases eids.len() - i,
        {
            let eid = eids[i];
            proof {
                self.space.geometry();
                assert(self.space.incident(self.last_node as int)[i as int] == eid);
            }
            let edge = self.edges[eid];
            let fresh = match self.last_edge {
                None => true,
                Some(leid) => eid != leid,
            };
            let tree = match edge.direction {
                EdgeDirection::Forward => true,
                EdgeDirection::Backward => true,
                _ => false,
            };
            if edge.solution && tree && fresh {
                self.last_edge = Some(eid);
                self.last_node = follow_edge(self.space, self.last_node, eid).unwrap();
                return Some(eid);
            }
            i += 1;
        }
        None
    }
}

/// The edges of the walk along the solution from `start` to `end`, or `None`
/// where the walk does not come to `end`.
pub fn trace<S: Space>(space: &S, edges: &Vec<Edge>, start: usize, end: usize) -> (r: Option<
    Vec<usize>,
>)
    requires
        space.wf(),
        edges.len() == space.edge_count(),
        start < space.node_count(),
        end < space.node_count(),
    ensures
        match r {
            Some(path) => {
                &&& walk_end(space, edges@, start as int, None, end as int, space.edge_count())
                    == end
                &&& path@ == walk(space, edges@, start as int, None, end as int, space.edge_count())
                &&& is_chain(space, path@, start as int, end as int)
            },
            None => walk_end(space, edges@, start as int, None, end as int, space.edge_count())
                != end,
        },
{
    let total = space.num_edges();
    let mut it = SolutionIterator { space, edges, last_node: start, last_edge: None };
    let mut out: Vec<usize> = Vec::new();
    let mut fuel = total;
    proof {
        lemma_walk_chain(space, edges@, start as int, None, end as int, total as nat);
        assert(out@ + walk(space, edges@, start as int, None, end as int, total as nat) =~= walk(
            space,
            edges@,
            start as int,
            None,
            end as int,
            total as nat,
        ));
    }
    while it.last_node != end && fuel > 0
        invariant
            it.wf(),
            it.space == space,
            it.edges == edges,
            total == space.edge_count(),
            out@ + walk(space, edges@, it.last_node as int, it.last_edge, end as int, fuel as nat)
                == walk(space, edges@, start as int, None, end as int, total as nat),
            walk_end(space, edges@, it.last_node as int, it.last_edge, end as int, fuel as nat)
                == walk_end(space, edges@, start as int, None, end as int, total as nat),
            is_chain(
                space,
                walk(space, edges@, start as int, None, end as int, total as nat),
                start as int,
                walk_end(space, edges@, start as int, None, end as int, total as nat),
            ),
        decreases fuel,
    {
        let ghost node = it.last_node as int;
        let ghost last = it.last_edge;
        let ghost before = out@;
        match it.next() {
            None => {
                proof {
                    assert(out@ + Seq::<usize>::empty() =~= out@);
                }
                return None;
            },
            Some(e) => {
                out.push(e);
                proof {
                    let rest = walk(
                        space,
                        edges@,
                        it.last_node as int,
                        it.last_edge,
                        end as int,
                        (fuel - 1) as nat,
                    );
                    assert(out@ + rest =~= before + (seq![e] + rest));
                }
            },
        }
        fuel -= 1;
    }
    if it.last_node != end {
        return None;
    }
    proof {
        assert(out@ + Seq::<usize>::empty() =~= out@);
    }
    Some(out)
}

/// The way from `start` to `end` within one tree. Walks from each of the two to
/// the root, turning the solution marks on the way over, so that the marks of
/// the shared part of the two ways are restored; then follows the marks from
/// `start`. `None` where the marks do not lead to `end`; they do lead there
/// where the two are nodes of one tree of a forest whose zone has no marks,
/// and then the way takes no edge twice, its edges get the mark and no other
/// mark changes.
pub fn solve<S: Space>(space: &S, edges: &mut Vec<Edge>, start: usize, end: usize) -> (r: Option<
    Vec<usize>,
>)
    requires
        space.wf(),
        old(edges).len() == space.edge_count(),
        start < space.node_count(),
        end < space.node_count(),
        exists|rank: Seq<nat>| ranked(space, old(edges)@, rank),
    ensures
        same_directions(final(edges)@, old(edges)@),
        forall|rank: Seq<nat>| #[trigger]
            ranked(space, old(edges)@, rank) ==> final(edges)@ == toggle_all(
                toggle_all(old(edges)@, root_path(space, old(edges)@, rank, start as int)),
                root_path(space, old(edges)@, rank, end as int),
            ),
        match r {
            Some(path) => {
                &&& walk_end(
                    space,
                    final(edges)@,
                    start as int,
                    None,
                    end as int,
                    space.edge_count(),
                ) == end
                &&& path@ == walk(
                    space,
                    final(edges)@,
                    start as int,
                    None,
                    end as int,
                    space.edge_count(),
                )
                &&& is_chain(space, path@, start as int, end as int)
            },
            None => walk_end(
                space,
                final(edges)@,
                start as int,
                None,
                end as int,
                space.edge_count(),
            ) != end,
        },
        crate::way::clear_tree(space, old(edges)@, start as int, end as int) ==> r.is_some()
            && marks_added(old(edges)@, final(edges)@, r.unwrap()@) && fresh_way(
            old(edges)@,
            r.unwrap()@,
        ) && r.unwrap()@.len() <= tree_count(old(edges)@),
{
    proof {
        if crate::way::clear_tree(space, old(edges)@, start as int, end as int) {
            crate::way::lemma_solve_succeeds(space, old(edges)@, start as int, end as int);
        }
    }
    let ghost clear = crate::way::clear_tree(space, old(edges)@, start as int, end as int);
    find_root(space, edges, start);
    let ghost mid = edges@;
    proof {
        let rank = choose|rank: Seq<nat>| ranked(space, old(edges)@, rank);
        lemma_ranked_same(space, old(edges)@, mid, rank);
    }
    find_root(space, edges, end);
    proof {
        assert forall|rank: Seq<nat>| #[trigger]
            ranked(space, old(edges)@, rank) implies edges@ == toggle_all(
            toggle_all(old(edges)@, root_path(space, old(edges)@, rank, start as int)),
            root_path(space, old(edges)@, rank, end as int),
        ) by {
            lemma_ranked_same(space, old(edges)@, mid, rank);
            lemma_root_path_same(space, old(edges)@, rank, mid, rank, end as int);
        }
        if clear {
            crate::way::lemma_solved_marks(space, old(edges)@, edges@, start as int, end as int);
            crate::maze::lemma_tree_way_fits(
                old(edges)@,
                walk(space, edges@, start as int, None, end as int, space.edge_count()),
            );
        }
    }
    trace(space, edges, start, end)
}

/// The edges of `after` bear the solution mark where those of `before` did
/// and on `path`, and nowhere else.
pub open spec fn marks_added(before: Seq<Edge>, after: Seq<Edge>, path: Seq<usize>) -> bool {
    &&& after.len() == before.len()
    &&& forall|e: int|
        0 <= e < before.len() ==> (#[trigger] after[e]).solution == (path.contains(e as usize)
            || before[e].solution)
}

/// `path` holds no edge twice, and each of its edges is a tree edge of `before`
/// that bears no solution mark there.
pub open spec fn fresh_way(before: Seq<Edge>, path: Seq<usize>) -> bool {
    &&& path.no_duplicates()
    &&& forall|k: int|
        0 <= k < path.len() ==> (#[trigger] path[k]) < before.len()
            && !before[path[k] as int].solution && before[path[k] as int].direction.is_tree()
}

/// Two distinct nodes, each drawn at random.
pub fn get_endpoints<S: Space>(space: &S, rng: &mut ChaCha12Rng) -> (r: (usize, usize))
    requires
        space.wf(),
        space.node_count() >= 2,
    ensures
        r.0 < space.node_count(),
        r.1 < space.node_count(),
        r.0 != r.1,
{
    let num_nodes = space.num_nodes();
    let start = random_below(rng, num_nodes);
    let other = random_below(rng, num_nodes - 1);
    let end = if other >= start {
        other + 1
    } else {
        other
    };
    (start, end)
}

/// The lower numbered end of a `Forward` tree edge of a forest, and the higher
/// numbered end of a `Backward` one, is the parent: it lies one step nearer to
/// the root than the other end, it lies in the same zone, and the edge is the
/// one that leads up from the other end.
pub proof fn lemma_polarity<S: Space>(
    space: &S,
    nodes: Seq<Node>,
    edges: Seq<Edge>,
    g: Growth,
    e: int,
)
    requires
        oriented(space, nodes, edges, g),
        0 <= e < edges.len(),
        edges[e].direction.is_tree(),
    ensures
        edges[e].direction == EdgeDirection::Forward ==> {
            &&& g.rank[low_end(space, e)] + 1 == g.rank[high_end(space, e)]
            &&& g.up[high_end(space, e)] == e
            &&& nodes[low_end(space, e)].group == nodes[high_end(space, e)].group
        },
        edges[e].direction == EdgeDirection::Backward ==> {
            &&& g.rank[high_end(space, e)] + 1 == g.rank[low_end(space, e)]
            &&& g.up[low_end(space, e)] == e
            &&& nodes[low_end(space, e)].group == nodes[high_end(space, e)].group
        },
{
    assert(nodes[parent_end(space, edges, e)].group == nodes[child_end(space, edges, e)].group);
}

} // verus!
