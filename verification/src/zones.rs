use vstd::prelude::*;
use crate::edge::{Edge, EdgeDirection};
use crate::node::Node;
use crate::count::{count_true, lemma_picked_none, lemma_picked_push, picked};
use crate::space::{
    border_flags, child_end, fresh_way, marks_added, parent_end, ranked, root_path, roots_marked,
    toggle_all, Growth, Space,
};
use crate::space_meta::{edge_key, lemma_gateways_differ, zone_of, SpaceMeta};
use crate::way::{
    both_ways, clear_tree, descent, grown, lemma_descent, lemma_on_way, lemma_route,
    lemma_solution, lemma_toward, lemma_up_edge, lemma_zone_shares_root, on_way, parent_of,
    route, shares_root, toward, zone_unmarked,
};

verus! {

/// How far along the way through the zones to zone `me` a zone lies: zones on
/// the way up come first, the nearer to the root the later; then the zones on
/// the way down to `me`, the farther from the root the later.
pub open spec fn pot<S: Space>(
    meta: &S,
    cells: Seq<Node>,
    marks: Seq<Edge>,
    mg: Growth,
    me: int,
    y: int,
) -> int {
    if on_way(meta, cells, marks, mg, y, me) {
        mg.rank[y] as int
    } else {
        -(mg.rank[y] as int) - 1
    }
}

/// Each border whose state is a tree edge has a gateway among its edges that is
/// a `Border` edge, and each edge of a border joins the two zones of the border.
pub open spec fn gates_set<S: Space>(
    space: &S,
    nodes: Seq<Node>,
    edges: Seq<Edge>,
    meta: &SpaceMeta,
    marks: Seq<Edge>,
) -> bool {
    let borders = meta.border_list();
    &&& meta.valid()
    &&& marks.len() == borders.len()
    &&& forall|b: int|
        0 <= b < marks.len() && (#[trigger] marks[b]).direction.is_tree() ==> {
            &&& borders[b].gateway.is_some()
            &&& borders[b].edges@.contains(borders[b].gateway.unwrap())
            &&& edges[borders[b].gateway.unwrap() as int].direction == EdgeDirection::Border
        }
    &&& forall|b: int, k: int|
        0 <= b < borders.len() && 0 <= k < borders[b].edges@.len() ==> {
            &&& (#[trigger] borders[b].edges@[k]) < space.edge_count()
            &&& edge_key(space, nodes, borders[b].edges@[k] as int) == borders[b].key
        }
}

/// The tree edge `e`, if it bears the solution mark, lies in a zone that the
/// way through the zones has left behind when it stands at zone `x`.
pub open spec fn behind<S: Space>(
    space: &S,
    nodes: Seq<Node>,
    edges: Seq<Edge>,
    meta: &SpaceMeta,
    cells: Seq<Node>,
    marks: Seq<Edge>,
    mg: Growth,
    me: int,
    x: int,
    e: int,
) -> bool {
    edges[e].direction.is_tree() && edges[e].solution ==> exists|y: int|
        0 <= y < cells.len() && #[trigger] meta.zone_groups()[y] == zone_of(
            nodes,
            child_end(space, edges, e),
        ) && pot(meta, cells, marks, mg, me, y) < pot(meta, cells, marks, mg, me, x)
}

/// The state of the way through the zones when it stands at cell `cur` of zone
/// `x`, with the borders `rest` still to cross.
pub open spec fn underway<S: Space>(
    space: &S,
    nodes: Seq<Node>,
    edges: Seq<Edge>,
    g: Growth,
    seeds: Seq<usize>,
    meta: &SpaceMeta,
    cells: Seq<Node>,
    marks: Seq<Edge>,
    mg: Growth,
    me: int,
    rest: Seq<usize>,
    x: int,
    cur: int,
) -> bool {
    &&& grown(space, nodes, edges, g)
    &&& roots_marked(nodes, seeds)
    &&& seeds.len() <= usize::MAX
    &&& grown(meta, cells, marks, mg)
    &&& gates_set(space, nodes, edges, meta, marks)
    &&& 0 <= x < cells.len()
    &&& 0 <= me < cells.len()
    &&& 0 <= cur < nodes.len()
    &&& shares_root(meta, cells, marks, mg, x, me)
    &&& rest == route(meta, cells, marks, mg, x, me)
    &&& zone_of(nodes, cur) == meta.zone_groups()[x]
    &&& forall|e: int|
        0 <= e < edges.len() ==> #[trigger] behind(space, nodes, edges, meta, cells, marks, mg, me, x, e)
}

/// The first edge of a route that is not empty is a tree edge at the node
/// where the route starts; it leads to a node that lies farther along, from
/// which the rest of the route is the route to the same end.
pub proof fn lemma_route_step<S: Space>(
    meta: &S,
    cells: Seq<Node>,
    marks: Seq<Edge>,
    mg: Growth,
    me: int,
    x: int,
) -> (next: int)
    requires
        grown(meta, cells, marks, mg),
        0 <= x < cells.len(),
        0 <= me < cells.len(),
        shares_root(meta, cells, marks, mg, x, me),
        route(meta, cells, marks, mg, x, me).len() > 0,
    ensures
        0 <= next < cells.len(),
        next != x,
        route(meta, cells, marks, mg, x, me)[0] < marks.len(),
        marks[route(meta, cells, marks, mg, x, me)[0] as int].direction.is_tree(),
        meta.ends(route(meta, cells, marks, mg, x, me)[0] as int).contains(x as usize),
        meta.ends(route(meta, cells, marks, mg, x, me)[0] as int).contains(next as usize),
        shares_root(meta, cells, marks, mg, next, me),
        route(meta, cells, marks, mg, x, me).skip(1) == route(meta, cells, marks, mg, next, me),
        pot(meta, cells, marks, mg, me, x) < pot(meta, cells, marks, mg, me, next),
{
    meta.geometry();
    lemma_up_edge(meta, cells, marks, mg, x);
    let rest = route(meta, cells, marks, mg, x, me);
    let r = choose|r: int|
        0 <= r < cells.len() && cells[r].root && on_way(meta, cells, marks, mg, r, x) && on_way(
            meta,
            cells,
            marks,
            mg,
            r,
            me,
        );
    if on_way(meta, cells, marks, mg, x, me) {
        lemma_descent(meta, cells, marks, mg, me, x);
        lemma_on_way(meta, cells, marks, mg, x, me);
        assert(x != me);
        lemma_toward(meta, cells, marks, mg, me, x);
        let d = toward(meta, cells, marks, mg, me, x);
        lemma_up_edge(meta, cells, marks, mg, d);
        lemma_on_way(meta, cells, marks, mg, d, me);
        assert(rest[0] == mg.up[d] as usize);
        assert(rest.skip(1) =~= descent(meta, cells, marks, mg, me, d));
        lemma_on_way(meta, cells, marks, mg, r, me);
        crate::way::lemma_way_at_rank(meta, cells, marks, mg, r, d, me);
        assert(shares_root(meta, cells, marks, mg, d, me));
        d
    } else {
        if cells[x].root {
            lemma_on_way(meta, cells, marks, mg, r, x);
            assert(r == x);
        }
        let p = parent_of(meta, marks, mg, x);
        assert(rest == seq![mg.up[x] as usize] + route(meta, cells, marks, mg, p, me));
        assert(rest[0] == mg.up[x] as usize);
        assert(rest.skip(1) =~= route(meta, cells, marks, mg, p, me));
        lemma_on_way(meta, cells, marks, mg, r, x);
        assert(on_way(meta, cells, marks, mg, r, p));
        assert(shares_root(meta, cells, marks, mg, p, me));
        p
    }
}

/// The gateway of a border whose state is a tree edge is a `Border` edge of the
/// geometry that joins the two zones of the border.
pub proof fn lemma_gate_zones<S: Space>(
    space: &S,
    nodes: Seq<Node>,
    edges: Seq<Edge>,
    meta: &SpaceMeta,
    marks: Seq<Edge>,
    b: int,
    x: int,
    next: int,
)
    requires
        gates_set(space, nodes, edges, meta, marks),
        0 <= b < marks.len(),
        marks[b].direction.is_tree(),
        0 <= x < meta.zone_groups().len(),
        0 <= next < meta.zone_groups().len(),
        x != next,
        meta.ends(b).contains(x as usize),
        meta.ends(b).contains(next as usize),
    ensures
        meta.border_list()[b].gateway.is_some(),
        meta.border_list()[b].gateway.unwrap() < space.edge_count(),
        edges[meta.border_list()[b].gateway.unwrap() as int].direction == EdgeDirection::Border,
        ({
            let gw = meta.border_list()[b].gateway.unwrap() as int;
            let here = meta.zone_groups()[x];
            let there = meta.zone_groups()[next];
            let first = zone_of(nodes, space.ends(gw)[0] as int);
            let second = zone_of(nodes, space.ends(gw)[1] as int);
            &&& here != there
            &&& ((first == here && second == there) || (first == there && second == here))
        }),
{
    meta.geometry();
    let borders = meta.border_list();
    let key = borders[b].key;
    meta.lemma_zone_place(key.0);
    meta.lemma_zone_place(key.1);
    let low_at = meta.zone_place(key.0);
    let high_at = meta.zone_place(key.1);
    assert(meta.ends(b)[0] == low_at as usize && meta.ends(b)[1] == high_at as usize);
    let i = choose|i: int| 0 <= i < meta.ends(b).len() && meta.ends(b)[i] == x as usize;
    let j = choose|j: int| 0 <= j < meta.ends(b).len() && meta.ends(b)[j] == next as usize;
    assert((x == low_at && next == high_at) || (x == high_at && next == low_at));
    let gw = borders[b].gateway.unwrap();
    let k = choose|k: int| 0 <= k < borders[b].edges@.len() && borders[b].edges@[k] == gw;
    assert(borders[b].edges@[k] < space.edge_count());
    assert(edge_key(space, nodes, borders[b].edges@[k] as int) == key);
}

/// Where the way through the zones stands in a zone, no tree edge of that zone
/// bears a mark, so that the way within the zone can be solved.
pub proof fn lemma_segment_clear<S: Space>(
    space: &S,
    nodes: Seq<Node>,
    edges: Seq<Edge>,
    g: Growth,
    seeds: Seq<usize>,
    meta: &SpaceMeta,
    cells: Seq<Node>,
    marks: Seq<Edge>,
    mg: Growth,
    me: int,
    rest: Seq<usize>,
    x: int,
    cur: int,
    exit: int,
)
    requires
        underway(space, nodes, edges, g, seeds, meta, cells, marks, mg, me, rest, x, cur),
        0 <= exit < nodes.len(),
        zone_of(nodes, exit) == zone_of(nodes, cur),
    ensures
        clear_tree(space, edges, cur, exit),
{
    assert(nodes[cur].group.is_some() && nodes[exit].group.is_some());
    lemma_zone_shares_root(space, nodes, edges, g, seeds, cur, exit);
    assert forall|k: int|
        0 <= k < edges.len() && (#[trigger] edges[k]).direction.is_tree() && nodes[child_end(
            space,
            edges,
            k,
        )].group == nodes[cur].group implies !edges[k].solution by {
        assert(behind(space, nodes, edges, meta, cells, marks, mg, me, x, k));
        if edges[k].solution {
            let y = choose|y: int|
                0 <= y < cells.len() && #[trigger] meta.zone_groups()[y] == zone_of(
                    nodes,
                    child_end(space, edges, k),
                ) && pot(meta, cells, marks, mg, me, y) < pot(meta, cells, marks, mg, me, x);
            assert(y != x);
            assert(meta.zone_groups()[y] == meta.zone_groups()[x]);
            if y < x {
                assert(meta.zone_groups()[y] != meta.zone_groups()[x]);
            } else {
                assert(meta.zone_groups()[x] != meta.zone_groups()[y]);
            }
        }
    }
    assert(zone_unmarked(space, nodes, edges, cur));
    assert(grown(space, nodes, edges, g) && 0 <= cur < nodes.len() && 0 <= exit < nodes.len()
        && shares_root(space, nodes, edges, g, cur, exit) && zone_unmarked(space, nodes, edges, cur));
}

/// A forest stays a forest, and the gateways stay set, while only solution
/// marks change.
pub proof fn lemma_marks_only<S: Space>(
    space: &S,
    nodes: Seq<Node>,
    before: Seq<Edge>,
    after: Seq<Edge>,
    g: Growth,
    meta: &SpaceMeta,
    marks: Seq<Edge>,
)
    requires
        grown(space, nodes, before, g),
        gates_set(space, nodes, before, meta, marks),
        before.len() == after.len(),
        forall|e: int| 0 <= e < before.len() ==> (#[trigger] after[e]).direction == before[e].direction,
    ensures
        grown(space, nodes, after, g),
        gates_set(space, nodes, after, meta, marks),
        forall|e: int|
            0 <= e < before.len() ==> child_end(space, after, e) == child_end(space, before, e),
{
    space.geometry();
    assert forall|e: int| 0 <= e < after.len() implies child_end(space, after, e) == child_end(
        space,
        before,
        e,
    ) && parent_end(space, after, e) == parent_end(space, before, e) by {
        assert(after[e].direction == before[e].direction);
    }
    assert forall|e: int|
        0 <= e < after.len() && (#[trigger] after[e]).direction.is_tree() implies {
        &&& g.rank[parent_end(space, after, e)] < g.rank[child_end(space, after, e)]
        &&& nodes[parent_end(space, after, e)].group == nodes[child_end(space, after, e)].group
        &&& !nodes[child_end(space, after, e)].root
        &&& g.up[child_end(space, after, e)] == e
        &&& g.rank[child_end(space, after, e)] == g.rank[parent_end(space, after, e)] + 1
    } by {
        assert(before[e].direction == after[e].direction);
    }
    assert forall|n: int|
        0 <= n < nodes.len() && nodes[n].group.is_some() && !nodes[n].root implies {
        &&& 0 <= (#[trigger] g.up[n]) < after.len()
        &&& after[g.up[n]].direction.is_tree()
        &&& child_end(space, after, g.up[n]) == n
    } by {
        let e = g.up[n];
        assert(before[e].direction.is_tree());
        assert(after[e].direction == before[e].direction);
    }
    assert forall|b: int|
        0 <= b < marks.len() && (#[trigger] marks[b]).direction.is_tree() implies after[meta.border_list()[b].gateway.unwrap() as int].direction
        == EdgeDirection::Border by {
        let gw = meta.border_list()[b].gateway.unwrap();
        let k = choose|k: int|
            0 <= k < meta.border_list()[b].edges@.len() && meta.border_list()[b].edges@[k] == gw;
        assert(meta.border_list()[b].edges@[k] < space.edge_count());
        assert(after[gw as int].direction == before[gw as int].direction);
    }
}

/// After the way within the zone at `x` was solved, every mark on a tree edge
/// lies in that zone or in one left behind before, so that the way can go on
/// from any zone farther along.
pub proof fn lemma_segment_done<S: Space>(
    space: &S,
    nodes: Seq<Node>,
    before: Seq<Edge>,
    after: Seq<Edge>,
    g: Growth,
    seeds: Seq<usize>,
    meta: &SpaceMeta,
    cells: Seq<Node>,
    marks: Seq<Edge>,
    mg: Growth,
    me: int,
    rest: Seq<usize>,
    x: int,
    cur: int,
    exit: int,
    next: int,
    entry: int,
)
    requires
        underway(space, nodes, before, g, seeds, meta, cells, marks, mg, me, rest, x, cur),
        0 <= exit < nodes.len(),
        zone_of(nodes, exit) == zone_of(nodes, cur),
        forall|rank: Seq<nat>| #[trigger]
            ranked(space, before, rank) ==> after == toggle_all(
                toggle_all(before, root_path(space, before, rank, cur)),
                root_path(space, before, rank, exit),
            ),
        0 <= next < cells.len(),
        0 <= entry < nodes.len(),
        zone_of(nodes, entry) == meta.zone_groups()[next],
        shares_root(meta, cells, marks, mg, next, me),
        pot(meta, cells, marks, mg, me, x) < pot(meta, cells, marks, mg, me, next),
    ensures
        underway(
            space,
            nodes,
            after,
            g,
            seeds,
            meta,
            cells,
            marks,
            mg,
            me,
            route(meta, cells, marks, mg, next, me),
            next,
            entry,
        ),
{
    lemma_segment_clear(space, nodes, before, g, seeds, meta, cells, marks, mg, me, rest, x, cur, exit);
    lemma_zone_shares_root(space, nodes, before, g, seeds, cur, exit);
    assert(zone_unmarked(space, nodes, before, cur)) by {
        assert forall|k: int|
            0 <= k < before.len() && (#[trigger] before[k]).direction.is_tree() && nodes[child_end(
                space,
                before,
                k,
            )].group == nodes[cur].group implies !before[k].solution by {
            assert(behind(space, nodes, before, meta, cells, marks, mg, me, x, k));
            if before[k].solution {
                let y = choose|y: int|
                    0 <= y < cells.len() && #[trigger] meta.zone_groups()[y] == zone_of(
                        nodes,
                        child_end(space, before, k),
                    ) && pot(meta, cells, marks, mg, me, y) < pot(meta, cells, marks, mg, me, x);
                if y < x {
                    assert(meta.zone_groups()[y] != meta.zone_groups()[x]);
                } else if x < y {
                    assert(meta.zone_groups()[x] != meta.zone_groups()[y]);
                }
            }
        }
    }
    lemma_solution(space, nodes, before, g, cur, exit);
    lemma_route(space, nodes, before, g, cur, exit);
    assert(ranked(space, before, g.rank));
    assert(after == both_ways(space, before, g, cur, exit));
    assert forall|e: int| 0 <= e < before.len() implies (#[trigger] after[e]).direction
        == before[e].direction by {}
    lemma_marks_only(space, nodes, before, after, g, meta, marks);
    let way = route(space, nodes, before, g, cur, exit);
    assert forall|e: int| 0 <= e < after.len() implies #[trigger] behind(
        space,
        nodes,
        after,
        meta,
        cells,
        marks,
        mg,
        me,
        next,
        e,
    ) by {
        if after[e].direction.is_tree() && after[e].solution {
            let c = child_end(space, before, e);
            assert(child_end(space, after, e) == c);
            if way.contains(e as usize) {
                if on_way(space, nodes, before, g, c, cur) {
                    lemma_on_way(space, nodes, before, g, c, cur);
                } else {
                    assert(on_way(space, nodes, before, g, c, exit));
                    lemma_on_way(space, nodes, before, g, c, exit);
                }
                assert(meta.zone_groups()[x] == zone_of(nodes, c));
            } else {
                assert(before[e].solution);
                assert(behind(space, nodes, before, meta, cells, marks, mg, me, x, e));
                let y = choose|y: int|
                    0 <= y < cells.len() && #[trigger] meta.zone_groups()[y] == zone_of(
                        nodes,
                        child_end(space, before, e),
                    ) && pot(meta, cells, marks, mg, me, y) < pot(meta, cells, marks, mg, me, x);
                assert(meta.zone_groups()[y] == zone_of(nodes, c));
            }
        }
    }
}

/// What lets the way through the zones be found: the edges hold a forest and
/// bear no mark; the border states hold a tree over the zones with no mark;
/// each border of that tree has a gateway that is a `Border` edge; and every
/// border edge joins the two zones of its border.
pub open spec fn ready<S: Space>(
    space: &S,
    nodes: Seq<Node>,
    edges: Seq<Edge>,
    meta: &SpaceMeta,
    marks: Seq<Edge>,
) -> bool {
    &&& exists|g: Growth, seeds: Seq<usize>|
        grown(space, nodes, edges, g) && roots_marked(nodes, seeds) && seeds.len() <= usize::MAX
    &&& forall|e: int| 0 <= e < edges.len() ==> !(#[trigger] edges[e]).solution
    &&& gates_set(space, nodes, edges, meta, marks)
    &&& forall|k: int| 0 <= k < marks.len() ==> !(#[trigger] marks[k]).solution
    &&& (meta.zone_groups().len() > 0 ==> exists|cells: Seq<Node>, mg: Growth, tops: Seq<usize>|
        grown(meta, cells, marks, mg) && roots_marked(cells, tops) && tops.len() == 1)
}

/// The two nodes lie in one zone, or each in a zone that has a border.
pub open spec fn listed(nodes: Seq<Node>, meta: &SpaceMeta, s: int, t: int) -> bool {
    nodes[s].group == nodes[t].group || (meta.zone_groups().contains(zone_of(nodes, s))
        && meta.zone_groups().contains(zone_of(nodes, t)))
}

/// Where the way is ready to be found within one zone, that zone is clear.
pub proof fn lemma_ready_zone<S: Space>(
    space: &S,
    nodes: Seq<Node>,
    edges: Seq<Edge>,
    meta: &SpaceMeta,
    marks: Seq<Edge>,
    s: int,
    t: int,
)
    requires
        ready(space, nodes, edges, meta, marks),
        0 <= s < nodes.len(),
        0 <= t < nodes.len(),
        nodes[s].group == nodes[t].group,
    ensures
        clear_tree(space, edges, s, t),
{
    let (g, seeds) = choose|g: Growth, seeds: Seq<usize>|
        grown(space, nodes, edges, g) && roots_marked(nodes, seeds) && seeds.len() <= usize::MAX;
    lemma_zone_shares_root(space, nodes, edges, g, seeds, s, t);
    assert(grown(space, nodes, edges, g) && 0 <= s < nodes.len() && 0 <= t < nodes.len()
        && shares_root(space, nodes, edges, g, s, t) && zone_unmarked(space, nodes, edges, s));
}

/// Where the way through the zones is ready to be found, the tree over the
/// zones is clear between any two zones, and all zones share its root.
pub proof fn lemma_ready_meta<S: Space>(
    space: &S,
    nodes: Seq<Node>,
    edges: Seq<Edge>,
    meta: &SpaceMeta,
    marks: Seq<Edge>,
    cells: Seq<Node>,
    mg: Growth,
    tops: Seq<usize>,
    ms: int,
    me: int,
)
    requires
        ready(space, nodes, edges, meta, marks),
        grown(meta, cells, marks, mg),
        roots_marked(cells, tops),
        tops.len() == 1,
        0 <= ms < cells.len(),
        0 <= me < cells.len(),
    ensures
        shares_root(meta, cells, marks, mg, ms, me),
        zone_unmarked(meta, cells, marks, ms),
        clear_tree(meta, marks, ms, me),
{
    assert(cells[ms].group.is_some() && cells[me].group.is_some());
    assert(cells[ms].group.unwrap() < 1 && cells[me].group.unwrap() < 1);
    lemma_zone_shares_root(meta, cells, marks, mg, tops, ms, me);
    assert(grown(meta, cells, marks, mg) && 0 <= ms < cells.len() && 0 <= me < cells.len()
        && shares_root(meta, cells, marks, mg, ms, me) && zone_unmarked(meta, cells, marks, ms));
}

/// The way through the zones starts under way.
pub proof fn lemma_set_out<S: Space>(
    space: &S,
    nodes: Seq<Node>,
    edges: Seq<Edge>,
    g: Growth,
    seeds: Seq<usize>,
    meta: &SpaceMeta,
    marks: Seq<Edge>,
    cells: Seq<Node>,
    mg: Growth,
    tops: Seq<usize>,
    after: Seq<Edge>,
    path: Seq<usize>,
    ms: int,
    me: int,
    start: int,
)
    requires
        ready(space, nodes, edges, meta, marks),
        grown(space, nodes, edges, g),
        roots_marked(nodes, seeds),
        seeds.len() <= usize::MAX,
        grown(meta, cells, marks, mg),
        roots_marked(cells, tops),
        tops.len() == 1,
        0 <= ms < cells.len(),
        0 <= me < cells.len(),
        0 <= start < nodes.len(),
        zone_of(nodes, start) == meta.zone_groups()[ms],
        forall|rank: Seq<nat>| #[trigger]
            ranked(meta, marks, rank) ==> after == toggle_all(
                toggle_all(marks, root_path(meta, marks, rank, ms)),
                root_path(meta, marks, rank, me),
            ),
        path == crate::space::walk(meta, after, ms, None, me, meta.edge_count()),
    ensures
        underway(space, nodes, edges, g, seeds, meta, cells, marks, mg, me, path, ms, start),
{
    lemma_ready_meta(space, nodes, edges, meta, marks, cells, mg, tops, ms, me);
    lemma_solution(meta, cells, marks, mg, ms, me);
    assert(ranked(meta, marks, mg.rank));
    assert(after == both_ways(meta, marks, mg, ms, me));
    assert forall|e: int| 0 <= e < edges.len() implies #[trigger] behind(
        space,
        nodes,
        edges,
        meta,
        cells,
        marks,
        mg,
        me,
        ms,
        e,
    ) by {}
}

/// Marking a gateway leaves the way through the zones under way.
pub proof fn lemma_gate_marked<S: Space>(
    space: &S,
    nodes: Seq<Node>,
    before: Seq<Edge>,
    after: Seq<Edge>,
    g: Growth,
    seeds: Seq<usize>,
    meta: &SpaceMeta,
    cells: Seq<Node>,
    marks: Seq<Edge>,
    mg: Growth,
    me: int,
    rest: Seq<usize>,
    x: int,
    cur: int,
    gw: int,
)
    requires
        underway(space, nodes, before, g, seeds, meta, cells, marks, mg, me, rest, x, cur),
        0 <= gw < before.len(),
        before[gw].direction == EdgeDirection::Border,
        after == before.update(gw, Edge { direction: EdgeDirection::Border, solution: true }),
    ensures
        underway(space, nodes, after, g, seeds, meta, cells, marks, mg, me, rest, x, cur),
{
    assert forall|e: int| 0 <= e < before.len() implies (#[trigger] after[e]).direction
        == before[e].direction by {}
    lemma_marks_only(space, nodes, before, after, g, meta, marks);
    assert forall|e: int| 0 <= e < after.len() implies #[trigger] behind(
        space,
        nodes,
        after,
        meta,
        cells,
        marks,
        mg,
        me,
        x,
        e,
    ) by {
        if after[e].direction.is_tree() && after[e].solution {
            assert(e != gw);
            assert(after[e] == before[e]);
            assert(behind(space, nodes, before, meta, cells, marks, mg, me, x, e));
            let y = choose|y: int|
                0 <= y < cells.len() && #[trigger] meta.zone_groups()[y] == zone_of(
                    nodes,
                    child_end(space, before, e),
                ) && pot(meta, cells, marks, mg, me, y) < pot(meta, cells, marks, mg, me, x);
            assert(meta.zone_groups()[y] == zone_of(nodes, child_end(space, after, e)));
        }
    }
}

/// Where no border is left to cross, the way stands in the zone of its end.
pub proof fn lemma_arrived<S: Space>(
    space: &S,
    nodes: Seq<Node>,
    edges: Seq<Edge>,
    g: Growth,
    seeds: Seq<usize>,
    meta: &SpaceMeta,
    cells: Seq<Node>,
    marks: Seq<Edge>,
    mg: Growth,
    me: int,
    rest: Seq<usize>,
    x: int,
    cur: int,
)
    requires
        underway(space, nodes, edges, g, seeds, meta, cells, marks, mg, me, rest, x, cur),
        rest.len() == 0,
    ensures
        x == me,
{
    lemma_route(meta, cells, marks, mg, x, me);
}

/// The edges that bear the solution mark are exactly those of `path`.
pub open spec fn marks_on(edges: Seq<Edge>, path: Seq<usize>) -> bool {
    forall|e: int| 0 <= e < edges.len() ==> (#[trigger] edges[e]).solution == path.contains(e as usize)
}

/// Marks that were on the way so far stay on the way when a gateway and the
/// way within one zone are added to both.
pub proof fn lemma_marks_step(
    before: Seq<Edge>,
    gated: Seq<Edge>,
    after: Seq<Edge>,
    walked: Seq<usize>,
    piece: Seq<usize>,
    gw: int,
)
    requires
        marks_on(before, walked),
        0 <= gw < before.len(),
        before.len() <= usize::MAX,
        gated == before.update(gw, Edge { direction: before[gw].direction, solution: true }),
        crate::space::marks_added(gated, after, piece),
    ensures
        marks_on(after, (walked + piece).push(gw as usize)),
{
    let all = (walked + piece).push(gw as usize);
    assert forall|e: int| 0 <= e < after.len() implies (#[trigger] after[e]).solution == all.contains(
        e as usize,
    ) by {
        assert(before[e].solution == walked.contains(e as usize));
        if walked.contains(e as usize) {
            let i = choose|i: int| 0 <= i < walked.len() && walked[i] == e as usize;
            assert(all[i] == e as usize);
        }
        if piece.contains(e as usize) {
            let i = choose|i: int| 0 <= i < piece.len() && piece[i] == e as usize;
            assert(all[walked.len() + i] == e as usize);
        }
        if e == gw {
            assert(all[all.len() - 1] == e as usize);
        }
        if all.contains(e as usize) {
            let i = choose|i: int| 0 <= i < all.len() && all[i] == e as usize;
            if i < walked.len() {
                assert(walked[i] == e as usize);
            } else if i < walked.len() + piece.len() {
                assert(piece[i - walked.len()] == e as usize);
            }
        }
    }
}

/// Marks that were on the way so far stay on the way when the way within one
/// zone is added to both.
pub proof fn lemma_marks_last(before: Seq<Edge>, after: Seq<Edge>, walked: Seq<usize>, piece: Seq<usize>)
    requires
        marks_on(before, walked),
        crate::space::marks_added(before, after, piece),
    ensures
        marks_on(after, walked + piece),
{
    let all = walked + piece;
    assert forall|e: int| 0 <= e < after.len() implies (#[trigger] after[e]).solution == all.contains(
        e as usize,
    ) by {
        assert(before[e].solution == walked.contains(e as usize));
        if walked.contains(e as usize) {
            let i = choose|i: int| 0 <= i < walked.len() && walked[i] == e as usize;
            assert(all[i] == e as usize);
        }
        if piece.contains(e as usize) {
            let i = choose|i: int| 0 <= i < piece.len() && piece[i] == e as usize;
            assert(all[walked.len() + i] == e as usize);
        }
        if all.contains(e as usize) {
            let i = choose|i: int| 0 <= i < all.len() && all[i] == e as usize;
            if i < walked.len() {
                assert(walked[i] == e as usize);
            } else {
                assert(piece[i - walked.len()] == e as usize);
            }
        }
    }
}

/// Number of gateways on a path: of `Border` edges, each counted as often as
/// the path takes it.
pub open spec fn gates_on(edges: Seq<Edge>, path: Seq<usize>) -> nat {
    count_true(picked(border_flags(edges), path))
}

/// The number of gateways on a path depends on the directions alone.
pub proof fn lemma_gates_same(edges: Seq<Edge>, other: Seq<Edge>, path: Seq<usize>)
    requires
        edges.len() == other.len(),
        forall|e: int| 0 <= e < edges.len() ==> (#[trigger] other[e]).direction == edges[e].direction,
        forall|k: int| 0 <= k < path.len() ==> (#[trigger] path[k]) < edges.len(),
    ensures
        gates_on(other, path) == gates_on(edges, path),
{
    assert(picked(border_flags(other), path) =~= picked(border_flags(edges), path)) by {
        assert forall|k: int| 0 <= k < path.len() implies border_flags(other)[path[k] as int]
            == border_flags(edges)[path[k] as int] by {
            assert(other[path[k] as int].direction == edges[path[k] as int].direction);
        }
    }
}

/// A way of tree edges, added to a path, adds no gateway.
pub proof fn lemma_gates_piece(edges: Seq<Edge>, walked: Seq<usize>, piece: Seq<usize>)
    requires
        forall|k: int|
            0 <= k < piece.len() ==> (#[trigger] piece[k]) < edges.len()
                && edges[piece[k] as int].direction.is_tree(),
    ensures
        gates_on(edges, walked + piece) == gates_on(edges, walked),
{
    lemma_picked_none(border_flags(edges), walked, piece);
}

/// A way of tree edges and then a gateway, added to a path, add one gateway.
pub proof fn lemma_gates_step(edges: Seq<Edge>, walked: Seq<usize>, piece: Seq<usize>, gw: usize)
    requires
        forall|k: int|
            0 <= k < piece.len() ==> (#[trigger] piece[k]) < edges.len()
                && edges[piece[k] as int].direction.is_tree(),
        gw < edges.len(),
        edges[gw as int].direction == EdgeDirection::Border,
    ensures
        gates_on(edges, (walked + piece).push(gw)) == gates_on(edges, walked) + 1,
{
    lemma_gates_piece(edges, walked, piece);
    lemma_picked_push(border_flags(edges), walked + piece, gw);
}

/// Each `Border` edge that bears the solution mark is the gateway of one of the
/// first `upto` borders of the way through the zones.
pub open spec fn gates_behind(edges: Seq<Edge>, meta: &SpaceMeta, meta_path: Seq<usize>, upto: int) -> bool {
    forall|e: int|
        0 <= e < edges.len() && (#[trigger] edges[e]).direction == EdgeDirection::Border
            && edges[e].solution ==> exists|j: int|
            0 <= j < upto && meta.border_list()[(#[trigger] meta_path[j]) as int].gateway == Some(
                e as usize,
            )
}

/// The gateway of the next border on a way that takes no border twice bears no
/// mark yet.
pub proof fn lemma_gate_fresh(
    edges: Seq<Edge>,
    meta: &SpaceMeta,
    meta_path: Seq<usize>,
    upto: int,
    gw: usize,
)
    requires
        gates_behind(edges, meta, meta_path, upto),
        meta.valid(),
        meta_path.no_duplicates(),
        0 <= upto < meta_path.len(),
        forall|k: int| 0 <= k < meta_path.len() ==> (#[trigger] meta_path[k]) < meta.border_list().len(),
        meta.border_list()[meta_path[upto] as int].gateway == Some(gw),
        gw < edges.len(),
        edges[gw as int].direction == EdgeDirection::Border,
    ensures
        !edges[gw as int].solution,
{
    if edges[gw as int].solution {
        let j = choose|j: int|
            0 <= j < upto && meta.border_list()[(#[trigger] meta_path[j]) as int].gateway == Some(
                gw as int as usize,
            );
        assert(meta_path[j] != meta_path[upto]);
        lemma_gateways_differ(meta, meta_path[j] as int, meta_path[upto] as int);
    }
}

/// After a gateway was marked and the way within one zone was solved, the
/// path with both added still takes no edge twice, and the marked gateways are
/// those of the borders crossed so far.
pub proof fn lemma_way_step(
    before: Seq<Edge>,
    gated: Seq<Edge>,
    after: Seq<Edge>,
    walked: Seq<usize>,
    piece: Seq<usize>,
    gw: usize,
    meta: &SpaceMeta,
    meta_path: Seq<usize>,
    upto: int,
)
    requires
        marks_on(before, walked),
        walked.no_duplicates(),
        before.len() <= usize::MAX,
        gw < before.len(),
        !before[gw as int].solution,
        before[gw as int].direction == EdgeDirection::Border,
        gated == before.update(
            gw as int,
            Edge { direction: before[gw as int].direction, solution: true },
        ),
        marks_added(gated, after, piece),
        fresh_way(gated, piece),
        forall|e: int| 0 <= e < gated.len() ==> (#[trigger] after[e]).direction == gated[e].direction,
        gates_behind(before, meta, meta_path, upto),
        0 <= upto < meta_path.len(),
        meta.border_list()[meta_path[upto] as int].gateway == Some(gw),
    ensures
        (walked + piece).push(gw).no_duplicates(),
        gates_behind(after, meta, meta_path, upto + 1),
{
    let all = (walked + piece).push(gw);
    assert forall|i: int, j: int| 0 <= i < all.len() && 0 <= j < all.len() && i != j implies all[i]
        != all[j] by {
        if all[i] == all[j] {
            let lo = if i < j { i } else { j };
            let hi = if i < j { j } else { i };
            let e = all[lo];
            if hi == all.len() - 1 {
                if lo < walked.len() {
                    assert(walked[lo] == gw);
                    assert(walked.contains(gw));
                } else {
                    assert(piece[lo - walked.len()] == gw);
                }
            } else if hi >= walked.len() {
                assert(piece[hi - walked.len()] == e);
                if lo < walked.len() {
                    assert(walked[lo] == e);
                    assert(walked.contains(e));
                    assert(before[e as int].solution);
                } else {
                    assert(piece[lo - walked.len()] == e);
                }
            } else {
                assert(walked[lo] == walked[hi]);
            }
        }
    }
    assert forall|e: int|
        0 <= e < after.len() && (#[trigger] after[e]).direction == EdgeDirection::Border
            && after[e].solution implies exists|j: int|
        0 <= j < upto + 1 && meta.border_list()[(#[trigger] meta_path[j]) as int].gateway == Some(
            e as usize,
        ) by {
        assert(after[e].direction == gated[e].direction);
        assert(e as usize as int == e);
        if piece.contains(e as usize) {
            let k = choose|k: int| 0 <= k < piece.len() && piece[k] == e as usize;
            assert(gated[piece[k] as int].direction.is_tree());
        }
        if e == gw {
            assert(meta.border_list()[meta_path[upto] as int].gateway == Some(e as usize));
        } else {
            assert(gated[e] == before[e]);
            assert(before[e].direction == EdgeDirection::Border && before[e].solution);
            let j = choose|j: int|
                0 <= j < upto && meta.border_list()[(#[trigger] meta_path[j]) as int].gateway
                    == Some(e as usize);
            assert(meta.border_list()[meta_path[j] as int].gateway == Some(e as usize));
        }
    }
}

/// After the way within the last zone was solved, the path with it added
/// still takes no edge twice.
pub proof fn lemma_way_last(before: Seq<Edge>, walked: Seq<usize>, piece: Seq<usize>)
    requires
        marks_on(before, walked),
        walked.no_duplicates(),
        fresh_way(before, piece),
    ensures
        (walked + piece).no_duplicates(),
{
    let all = walked + piece;
    assert forall|i: int, j: int| 0 <= i < all.len() && 0 <= j < all.len() && i != j implies all[i]
        != all[j] by {
        if all[i] == all[j] {
            let lo = if i < j { i } else { j };
            let hi = if i < j { j } else { i };
            let e = all[lo];
            if hi >= walked.len() {
                assert(piece[hi - walked.len()] == e);
                if lo < walked.len() {
                    assert(walked[lo] == e);
                    assert(walked.contains(e));
                    assert(before[e as int].solution);
                } else {
                    assert(piece[lo - walked.len()] == e);
                }
            } else {
                assert(walked[lo] == walked[hi]);
            }
        }
    }
}

} // verus!
