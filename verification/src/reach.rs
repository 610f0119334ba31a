use vstd::prelude::*;
use crate::edge::{Edge, EdgeDirection};
use crate::node::Node;
use crate::space::{
    child_end, connected, far_end, is_chain, is_forest, lemma_chain_join, oriented, parent_end,
    roots_marked, Growth, Space,
};
use crate::space_meta::{edge_key, lemma_zone_total, straddles, zone_of, SpaceMeta};

verus! {

/// Every edge of `path` is an edge that can be passed: a tree edge or a gateway.
pub open spec fn passable_path(edges: Seq<Edge>, path: Seq<usize>) -> bool {
    forall|i: int|
        0 <= i < path.len() ==> (#[trigger] path[i]) < edges.len()
            && edges[path[i] as int].direction.is_passable()
}

/// Node `b` can be reached from node `a` through edges that can be passed.
pub open spec fn linked<S: Space>(space: &S, edges: Seq<Edge>, a: int, b: int) -> bool {
    exists|path: Seq<usize>| is_chain(space, path, a, b) && passable_path(edges, path)
}

/// One edge is a chain between its two ends, either way.
pub proof fn lemma_step<S: Space>(space: &S, e: int, a: int)
    requires
        space.wf(),
        0 <= e < space.edge_count(),
        space.ends(e).contains(a as usize),
        0 <= a < space.node_count(),
    ensures
        is_chain(space, seq![e as usize], a, far_end(space, e, a)),
        is_chain(space, seq![e as usize], far_end(space, e, a), a),
        space.ends(e).contains(far_end(space, e, a) as usize),
        far_end(space, e, far_end(space, e, a)) == a,
        0 <= far_end(space, e, a) < space.node_count(),
{
    space.geometry();
    let k = choose|k: int| 0 <= k < space.ends(e).len() && space.ends(e)[k] == a as usize;
    assert(space.ends(e).len() == 2);
    let b = far_end(space, e, a);
    assert(space.ends(e)[1 - k] == b as usize);
    let one = seq![e as usize];
    assert(one.skip(1) =~= Seq::<usize>::empty());
    assert(is_chain(space, one.skip(1), b, b));
    assert(is_chain(space, one.skip(1), a, a));
}

/// A chain can be walked backwards.
pub proof fn lemma_chain_back<S: Space>(space: &S, path: Seq<usize>, a: int, b: int)
    requires
        space.wf(),
        0 <= a < space.node_count(),
        is_chain(space, path, a, b),
    ensures
        is_chain(space, path.reverse(), b, a),
    decreases path.len(),
{
    if path.len() == 0 {
        assert(path.reverse() =~= path);
    } else {
        let e = path[0] as int;
        let next = far_end(space, e, a);
        lemma_step(space, e, a);
        lemma_chain_back(space, path.skip(1), next, b);
        lemma_chain_join(space, path.skip(1).reverse(), seq![e as usize], b, next, a);
        assert(path.reverse() =~= path.skip(1).reverse() + seq![e as usize]);
    }
}

/// Being linked goes both ways.
pub proof fn lemma_linked_back<S: Space>(space: &S, edges: Seq<Edge>, a: int, b: int)
    requires
        space.wf(),
        0 <= a < space.node_count(),
        linked(space, edges, a, b),
    ensures
        linked(space, edges, b, a),
{
    let path = choose|path: Seq<usize>| is_chain(space, path, a, b) && passable_path(edges, path);
    lemma_chain_back(space, path, a, b);
    let back = path.reverse();
    assert forall|i: int| 0 <= i < back.len() implies (#[trigger] back[i]) < edges.len()
        && edges[back[i] as int].direction.is_passable() by {
        assert(back[i] == path[path.len() - 1 - i]);
    }
    assert(is_chain(space, back, b, a) && passable_path(edges, back));
}

/// Being linked carries over a node in between.
pub proof fn lemma_linked_on<S: Space>(space: &S, edges: Seq<Edge>, a: int, b: int, c: int)
    requires
        linked(space, edges, a, b),
        linked(space, edges, b, c),
    ensures
        linked(space, edges, a, c),
{
    let first = choose|path: Seq<usize>| is_chain(space, path, a, b) && passable_path(edges, path);
    let second = choose|path: Seq<usize>| is_chain(space, path, b, c) && passable_path(edges, path);
    lemma_chain_join(space, first, second, a, b, c);
    let all = first + second;
    assert forall|i: int| 0 <= i < all.len() implies (#[trigger] all[i]) < edges.len()
        && edges[all[i] as int].direction.is_passable() by {
        if i < first.len() {
            assert(all[i] == first[i]);
        } else {
            assert(all[i] == second[i - first.len()]);
        }
    }
    assert(is_chain(space, all, a, c) && passable_path(edges, all));
}

/// The two ends of an edge that can be passed are linked.
pub proof fn lemma_linked_step<S: Space>(space: &S, edges: Seq<Edge>, e: int, a: int)
    requires
        space.wf(),
        edges.len() == space.edge_count(),
        0 <= e < space.edge_count(),
        edges[e].direction.is_passable(),
        space.ends(e).contains(a as usize),
        0 <= a < space.node_count(),
    ensures
        linked(space, edges, a, far_end(space, e, a)),
{
    lemma_step(space, e, a);
    space.geometry();
    let one = seq![e as usize];
    assert(passable_path(edges, one));
    assert(is_chain(space, one, a, far_end(space, e, a)) && passable_path(edges, one));
}

/// A node is linked to itself.
pub proof fn lemma_linked_self<S: Space>(space: &S, edges: Seq<Edge>, a: int)
    ensures
        linked(space, edges, a, a),
{
    let none = Seq::<usize>::empty();
    assert(is_chain(space, none, a, a) && passable_path(edges, none));
}

/// Within a forest every node is linked to the root of its zone: each zone
/// is in one piece.
pub proof fn lemma_linked_to_root<S: Space>(
    space: &S,
    nodes: Seq<Node>,
    edges: Seq<Edge>,
    g: Growth,
    seeds: Seq<usize>,
    n: int,
)
    requires
        space.wf(),
        nodes.len() == space.node_count(),
        edges.len() == space.edge_count(),
        forall|k: int| 0 <= k < nodes.len() ==> (#[trigger] nodes[k]).group.is_some(),
        oriented(space, nodes, edges, g),
        roots_marked(nodes, seeds),
        seeds.len() <= usize::MAX,
        0 <= n < nodes.len(),
    ensures
        0 <= zone_of(nodes, n) < seeds.len(),
        linked(space, edges, n, seeds[zone_of(nodes, n) as int] as int),
    decreases g.rank[n],
{
    space.geometry();
    assert(nodes[n].group.is_some());
    if nodes[n].root {
        assert(seeds.contains(n as usize));
        let i = choose|i: int| 0 <= i < seeds.len() && seeds[i] == n as usize;
        assert(nodes[seeds[i] as int].group == Some(i as usize));
        lemma_linked_self(space, edges, n);
    } else {
        let e = g.up[n];
        assert(edges[e].direction.is_tree());
        let p = parent_end(space, edges, e);
        assert(child_end(space, edges, e) == n);
        assert(space.ends(e).len() == 2);
        assert(space.ends(e)[0] == n as usize || space.ends(e)[1] == n as usize);
        assert(far_end(space, e, n) == p);
        assert(g.rank[p] < g.rank[n]);
        assert(nodes[p].group == nodes[n].group);
        lemma_linked_step(space, edges, e, n);
        lemma_linked_to_root(space, nodes, edges, g, seeds, p);
        lemma_linked_on(space, edges, n, p, seeds[zone_of(nodes, n) as int] as int);
    }
}

/// Being linked depends on the directions alone.
pub proof fn lemma_linked_same<S: Space>(space: &S, edges: Seq<Edge>, other: Seq<Edge>, a: int, b: int)
    requires
        linked(space, edges, a, b),
        edges.len() == other.len(),
        forall|e: int| 0 <= e < edges.len() ==> (#[trigger] other[e]).direction == edges[e].direction,
    ensures
        linked(space, other, a, b),
{
    let path = choose|path: Seq<usize>| is_chain(space, path, a, b) && passable_path(edges, path);
    assert forall|i: int| 0 <= i < path.len() implies (#[trigger] path[i]) < other.len()
        && other[path[i] as int].direction.is_passable() by {
        assert(other[path[i] as int].direction == edges[path[i] as int].direction);
    }
    assert(is_chain(space, path, a, b) && passable_path(other, path));
}

/// The border states are those of a forest of one tree over the zones, where
/// there are zones.
pub open spec fn zone_forest(meta: &SpaceMeta, meta_edges: Seq<Edge>) -> bool {
    meta.zone_groups().len() > 0 ==> exists|cells: Seq<Node>| is_forest(meta, cells, meta_edges, 1)
}

/// The root of every zone with a border is linked to the root of the zone from
/// which the tree of zones was grown: through the tree of each zone, and from
/// zone to zone through the gateways.
pub proof fn lemma_zone_linked<S: Space>(
    space: &S,
    nodes: Seq<Node>,
    edges: Seq<Edge>,
    g: Growth,
    seeds: Seq<usize>,
    meta: &SpaceMeta,
    gates: Seq<Option<usize>>,
    cells: Seq<Node>,
    meta_edges: Seq<Edge>,
    mg: Growth,
    top: int,
    i: int,
)
    requires
        space.wf(),
        nodes.len() == space.node_count(),
        edges.len() == space.edge_count(),
        forall|k: int| 0 <= k < nodes.len() ==> (#[trigger] nodes[k]).group.is_some(),
        oriented(space, nodes, edges, g),
        roots_marked(nodes, seeds),
        seeds.len() <= usize::MAX,
        meta.valid(),
        meta.describes(space, nodes, space.edge_count()),
        gates.len() == meta.border_list().len(),
        meta_edges.len() == meta.border_list().len(),
        forall|b: int|
            0 <= b < meta_edges.len() && (#[trigger] meta_edges[b]).direction.is_tree() ==> {
                &&& gates[b].is_some()
                &&& meta.border_list()[b].edges@.contains(gates[b].unwrap())
                &&& edges[gates[b].unwrap() as int].direction == EdgeDirection::Border
            },
        cells.len() == meta.zone_groups().len(),
        forall|k: int| 0 <= k < cells.len() ==> (#[trigger] cells[k]).group.is_some(),
        oriented(meta, cells, meta_edges, mg),
        forall|k: int| 0 <= k < cells.len() && (#[trigger] cells[k]).root ==> k == top,
        0 <= top < cells.len(),
        0 <= i < cells.len(),
        forall|k: int|
            0 <= k < meta.zone_groups().len() ==> (#[trigger] meta.zone_groups()[k]) < seeds.len(),
    ensures
        linked(
            space,
            edges,
            seeds[meta.zone_groups()[i] as int] as int,
            seeds[meta.zone_groups()[top] as int] as int,
        ),
    decreases mg.rank[i],
{
    let zones = meta.zone_groups();
    let borders = meta.border_list();
    space.geometry();
    meta.geometry();
    if cells[i].root {
        lemma_linked_self(space, edges, seeds[zones[i] as int] as int);
    } else {
        let b = mg.up[i];
        assert(meta_edges[b].direction.is_tree());
        let j = parent_end(meta, meta_edges, b);
        assert(child_end(meta, meta_edges, b) == i);
        assert(mg.rank[j] < mg.rank[i]);
        let key = borders[b].key;
        meta.lemma_zone_place(key.0);
        meta.lemma_zone_place(key.1);
        let low_at = meta.zone_place(key.0);
        let high_at = meta.zone_place(key.1);
        assert(meta.ends(b)[0] == low_at as usize && meta.ends(b)[1] == high_at as usize);
        assert((i == low_at && j == high_at) || (i == high_at && j == low_at));
        let gw = gates[b].unwrap() as int;
        let k = choose|k: int| 0 <= k < borders[b].edges@.len() && borders[b].edges@[k] == gw as usize;
        assert(borders[b].edges@[k] < space.edge_count());
        assert(straddles(space, nodes, gw));
        assert(edge_key(space, nodes, gw) == key);
        let x0 = space.ends(gw)[0] as int;
        let x1 = space.ends(gw)[1] as int;
        let x = if zone_of(nodes, x0) == zones[i] { x0 } else { x1 };
        let y = if zone_of(nodes, x0) == zones[i] { x1 } else { x0 };
        assert(zone_of(nodes, x) == zones[i]);
        assert(zone_of(nodes, y) == zones[j]);
        assert(space.ends(gw)[if x == x0 { 0int } else { 1int }] == x as usize);
        assert(far_end(space, gw, x) == y);
        let root_i = seeds[zones[i] as int] as int;
        let root_j = seeds[zones[j] as int] as int;
        let root_top = seeds[zones[top] as int] as int;
        lemma_linked_to_root(space, nodes, edges, g, seeds, x);
        lemma_linked_back(space, edges, x, root_i);
        lemma_linked_step(space, edges, gw, x);
        lemma_linked_to_root(space, nodes, edges, g, seeds, y);
        lemma_zone_linked(space, nodes, edges, g, seeds, meta, gates, cells, meta_edges, mg, top, j);
        lemma_linked_on(space, edges, root_i, x, y);
        lemma_linked_on(space, edges, root_i, y, root_j);
        lemma_linked_on(space, edges, root_i, root_j, root_top);
    }
}

/// On a geometry in one piece, a forest whose zones were stitched together by
/// gateways along a tree of the zones links every node to every other.
pub proof fn lemma_one_piece<S: Space>(
    space: &S,
    nodes: Seq<Node>,
    edges: Seq<Edge>,
    g: Growth,
    seeds: Seq<usize>,
    meta: &SpaceMeta,
    gates: Seq<Option<usize>>,
    meta_edges: Seq<Edge>,
)
    requires
        space.wf(),
        connected(space),
        nodes.len() == space.node_count(),
        edges.len() == space.edge_count(),
        forall|k: int| 0 <= k < nodes.len() ==> (#[trigger] nodes[k]).group.is_some(),
        oriented(space, nodes, edges, g),
        roots_marked(nodes, seeds),
        1 <= seeds.len() <= usize::MAX,
        meta.valid(),
        meta.describes(space, nodes, space.edge_count()),
        gates.len() == meta.border_list().len(),
        meta_edges.len() == meta.border_list().len(),
        forall|b: int|
            0 <= b < meta_edges.len() && (#[trigger] meta_edges[b]).direction.is_tree() ==> {
                &&& gates[b].is_some()
                &&& meta.border_list()[b].edges@.contains(gates[b].unwrap())
                &&& edges[gates[b].unwrap() as int].direction == EdgeDirection::Border
            },
        zone_forest(meta, meta_edges),
    ensures
        forall|a: int, b: int|
            0 <= a < nodes.len() && 0 <= b < nodes.len() ==> #[trigger] linked(space, edges, a, b),
{
    let zones = meta.zone_groups();
    assert forall|i: int| 0 <= i < seeds.len() implies (#[trigger] seeds[i]) < nodes.len()
        && nodes[seeds[i] as int].group == Some(i as usize) by {}
    assert forall|n: int| 0 <= n < nodes.len() implies (#[trigger] nodes[n]).group.is_some()
        && nodes[n].group.unwrap() < seeds.len() by {}
    lemma_zone_total(space, nodes, seeds, zones, meta.border_list());
    assert forall|a: int, b: int| 0 <= a < nodes.len() && 0 <= b < nodes.len() implies #[trigger] linked(
        space,
        edges,
        a,
        b,
    ) by {
        lemma_linked_to_root(space, nodes, edges, g, seeds, a);
        lemma_linked_to_root(space, nodes, edges, g, seeds, b);
        let root_a = seeds[zone_of(nodes, a) as int] as int;
        let root_b = seeds[zone_of(nodes, b) as int] as int;
        lemma_linked_back(space, edges, b, root_b);
        if seeds.len() >= 2 {
            let cells = choose|cells: Seq<Node>| is_forest(meta, cells, meta_edges, 1);
            let tops = choose|tops: Seq<usize>| tops.len() == 1 && roots_marked(cells, tops);
            let mg = choose|mg: Growth| oriented(meta, cells, meta_edges, mg);
            let top = tops[0] as int;
            assert forall|k: int| 0 <= k < cells.len() && (#[trigger] cells[k]).root implies k
                == top by {
                assert(tops.contains(k as usize));
            }
            assert(zones.contains(zone_of(nodes, a)));
            assert(zones.contains(zone_of(nodes, b)));
            let ia = choose|i: int| 0 <= i < zones.len() && zones[i] == zone_of(nodes, a);
            let ib = choose|i: int| 0 <= i < zones.len() && zones[i] == zone_of(nodes, b);
            let root_top = seeds[zones[top] as int] as int;
            lemma_zone_linked(space, nodes, edges, g, seeds, meta, gates, cells, meta_edges, mg, top, ia);
            lemma_zone_linked(space, nodes, edges, g, seeds, meta, gates, cells, meta_edges, mg, top, ib);
            space.geometry();
            lemma_linked_back(space, edges, root_b, root_top);
            lemma_linked_on(space, edges, a, root_a, root_top);
            lemma_linked_on(space, edges, a, root_top, root_b);
            lemma_linked_on(space, edges, a, root_b, b);
        } else {
            assert(root_a == root_b);
            lemma_linked_on(space, edges, a, root_a, b);
        }
    }
}

} // verus!
