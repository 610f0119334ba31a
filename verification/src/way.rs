use vstd::prelude::*;
use crate::edge::Edge;
use crate::node::Node;
use crate::reach::lemma_step;
use crate::space::{
    child_end, climbable, far_end, first_marked, first_up, is_chain, lemma_chain_join,
    lemma_first_up, lemma_root_path_edges, lemma_toggle_all_directions, marked, oriented,
    parent_end, points_up, ranked, root_path, roots_marked, toggle_all, walk, walk_end, Growth,
    Space,
};
use crate::space::is_forest;
use crate::space_meta::zone_of;

verus! {

/// A forest on a geometry, with what shows it to be one.
pub open spec fn grown<S: Space>(space: &S, nodes: Seq<Node>, edges: Seq<Edge>, g: Growth) -> bool {
    &&& space.wf()
    &&& nodes.len() == space.node_count()
    &&& edges.len() == space.edge_count()
    &&& forall|k: int| 0 <= k < nodes.len() ==> (#[trigger] nodes[k]).group.is_some()
    &&& oriented(space, nodes, edges, g)
}

/// The parent of a node that is no root.
pub open spec fn parent_of<S: Space>(space: &S, edges: Seq<Edge>, g: Growth, n: int) -> int {
    parent_end(space, edges, g.up[n])
}

/// A node that is no root has one edge that leads up, to a parent one step
/// nearer to the root; a root has none.
pub proof fn lemma_up_edge<S: Space>(space: &S, nodes: Seq<Node>, edges: Seq<Edge>, g: Growth, n: int)
    requires
        grown(space, nodes, edges, g),
        0 <= n < nodes.len(),
    ensures
        nodes[n].root ==> first_up(space, edges, n, 0).is_none(),
        !nodes[n].root ==> {
            &&& first_up(space, edges, n, 0) == Some(g.up[n])
            &&& 0 <= g.up[n] < edges.len()
            &&& edges[g.up[n]].direction.is_tree()
            &&& child_end(space, edges, g.up[n]) == n
            &&& far_end(space, g.up[n], n) == parent_of(space, edges, g, n)
            &&& 0 <= parent_of(space, edges, g, n) < nodes.len()
            &&& g.rank[parent_of(space, edges, g, n)] + 1 == g.rank[n]
            &&& nodes[parent_of(space, edges, g, n)].group == nodes[n].group
            &&& space.ends(g.up[n]).contains(n as usize)
            &&& space.ends(g.up[n]).contains(parent_of(space, edges, g, n) as usize)
        },
{
    space.geometry();
    lemma_first_up(space, edges, n, 0);
    if nodes[n].root {
        if first_up(space, edges, n, 0).is_some() {
            let e = first_up(space, edges, n, 0).unwrap();
            assert(edges[e].direction.is_tree());
            assert(!nodes[child_end(space, edges, e)].root);
        }
    } else {
        let e = g.up[n];
        assert(edges[e].direction.is_tree());
        assert(space.ends(e).len() == 2);
        assert(space.ends(e)[0] == n as usize || space.ends(e)[1] == n as usize);
        assert(points_up(space, edges, n, e));
        let k = choose|k: int|
            0 <= k < space.incident(n).len() && space.incident(n)[k] == e as usize;
        match first_up(space, edges, n, 0) {
            None => {
                assert(!points_up(space, edges, n, space.incident(n)[k] as int));
            },
            Some(f) => {
                assert(edges[f].direction.is_tree());
                assert(g.up[child_end(space, edges, f)] == f);
            },
        }
        let p = parent_of(space, edges, g, n);
        assert(space.ends(e)[0] == p as usize || space.ends(e)[1] == p as usize);
    }
}

/// Whether node `x` lies on the way from `n` to its root, the two ends of the
/// way included.
pub open spec fn on_way<S: Space>(
    space: &S,
    nodes: Seq<Node>,
    edges: Seq<Edge>,
    g: Growth,
    x: int,
    n: int,
) -> bool
    decreases g.rank[n],
    when grown(space, nodes, edges, g) && 0 <= n < nodes.len()
{
    x == n || (!nodes[n].root && {
        proof {
            lemma_up_edge(space, nodes, edges, g, n);
        }
        on_way(space, nodes, edges, g, x, parent_of(space, edges, g, n))
    })
}

/// A node on the way from `n` is a node of the forest no farther from the root
/// than `n`; with each node but a root the way holds its parent; and it holds
/// no two nodes of one rank.
pub proof fn lemma_on_way<S: Space>(
    space: &S,
    nodes: Seq<Node>,
    edges: Seq<Edge>,
    g: Growth,
    x: int,
    n: int,
)
    requires
        grown(space, nodes, edges, g),
        0 <= n < nodes.len(),
        on_way(space, nodes, edges, g, x, n),
    ensures
        0 <= x < nodes.len(),
        g.rank[x] <= g.rank[n],
        g.rank[x] == g.rank[n] ==> x == n,
        nodes[x].group == nodes[n].group,
        !nodes[x].root ==> on_way(space, nodes, edges, g, parent_of(space, edges, g, x), n),
        forall|y: int|
            on_way(space, nodes, edges, g, y, n) && 0 <= y < nodes.len() && g.rank[y]
                == g.rank[x] ==> y == x,
    decreases g.rank[n],
{
    lemma_up_edge(space, nodes, edges, g, n);
    if x == n {
        if !nodes[n].root {
            let p = parent_of(space, edges, g, n);
            assert(on_way(space, nodes, edges, g, p, p));
        }
        assert forall|y: int|
            on_way(space, nodes, edges, g, y, n) && 0 <= y < nodes.len() && g.rank[y]
                == g.rank[x] implies y == x by {
            if y != n {
                lemma_on_way(space, nodes, edges, g, y, parent_of(space, edges, g, n));
            }
        }
    } else {
        let p = parent_of(space, edges, g, n);
        lemma_on_way(space, nodes, edges, g, x, p);
        assert forall|y: int|
            on_way(space, nodes, edges, g, y, n) && 0 <= y < nodes.len() && g.rank[y]
                == g.rank[x] implies y == x by {
            if y != n {
                assert(on_way(space, nodes, edges, g, y, p));
            }
        }
    }
}

/// The way from `n` to its root holds exactly the edges that lead up from the
/// nodes on it, each once.
pub proof fn lemma_root_path_holds<S: Space>(
    space: &S,
    nodes: Seq<Node>,
    edges: Seq<Edge>,
    g: Growth,
    n: int,
)
    requires
        grown(space, nodes, edges, g),
        0 <= n < nodes.len(),
    ensures
        climbable(space, edges, g.rank, n),
        root_path(space, edges, g.rank, n).no_duplicates(),
        forall|e: int|
            root_path(space, edges, g.rank, n).contains(e) <==> (0 <= e < edges.len()
                && (#[trigger] edges[e]).direction.is_tree() && on_way(
                space,
                nodes,
                edges,
                g,
                child_end(space, edges, e),
                n,
            )),
    decreases g.rank[n],
{
    lemma_up_edge(space, nodes, edges, g, n);
    space.geometry();
    let path = root_path(space, edges, g.rank, n);
    if nodes[n].root {
        assert(path =~= Seq::<int>::empty());
        assert forall|e: int|
            0 <= e < edges.len() && (#[trigger] edges[e]).direction.is_tree() implies !on_way(
            space,
            nodes,
            edges,
            g,
            child_end(space, edges, e),
            n,
        ) by {
            assert(!nodes[child_end(space, edges, e)].root);
        }
    } else {
        let u = g.up[n];
        let p = parent_of(space, edges, g, n);
        let rest = root_path(space, edges, g.rank, p);
        lemma_root_path_holds(space, nodes, edges, g, p);
        assert(path == seq![u] + rest);
        assert forall|e: int| path.contains(e) <==> (0 <= e < edges.len() && (
        #[trigger] edges[e]).direction.is_tree() && on_way(
            space,
            nodes,
            edges,
            g,
            child_end(space, edges, e),
            n,
        )) by {
            if path.contains(e) {
                let i = choose|i: int| 0 <= i < path.len() && path[i] == e;
                if i > 0 {
                    assert(rest[i - 1] == e);
                    assert(rest.contains(e));
                }
            }
            if 0 <= e < edges.len() && edges[e].direction.is_tree() && on_way(
                space,
                nodes,
                edges,
                g,
                child_end(space, edges, e),
                n,
            ) {
                let c = child_end(space, edges, e);
                if c == n {
                    assert(g.up[c] == e);
                    assert(path[0] == e);
                } else {
                    assert(rest.contains(e));
                    let i = choose|i: int| 0 <= i < rest.len() && rest[i] == e;
                    assert(path[i + 1] == e);
                }
            }
        }
        assert forall|i: int, j: int| 0 <= i < path.len() && 0 <= j < path.len() && i != j implies path[i]
            != path[j] by {
            if i > 0 && j > 0 {
                assert(path[i] == rest[i - 1] && path[j] == rest[j - 1]);
            } else {
                let k = if i == 0 { j } else { i };
                assert(path[k] == rest[k - 1]);
                assert(rest.contains(rest[k - 1]));
                let e = rest[k - 1];
                assert(edges[e].direction.is_tree());
                lemma_on_way(space, nodes, edges, g, child_end(space, edges, e), p);
                assert(child_end(space, edges, u) == n);
            }
        }
    }
}

/// Turning over the marks of a path that holds no edge twice turns over
/// exactly the marks of its edges.
pub proof fn lemma_toggle_marks(edges: Seq<Edge>, path: Seq<int>, e: int)
    requires
        path.no_duplicates(),
        forall|i: int| 0 <= i < path.len() ==> 0 <= #[trigger] path[i] < edges.len(),
        0 <= e < edges.len(),
    ensures
        toggle_all(edges, path).len() == edges.len(),
        toggle_all(edges, path)[e].direction == edges[e].direction,
        toggle_all(edges, path)[e].solution == (edges[e].solution != path.contains(e)),
    decreases path.len(),
{
    if path.len() > 0 {
        let p = path.drop_last();
        lemma_toggle_marks(edges, p, e);
        if path.last() == e {
            if p.contains(e) {
                let i = choose|i: int| 0 <= i < p.len() && p[i] == e;
                assert(path[i] == path[path.len() - 1]);
            }
            assert(path[path.len() - 1] == e);
        } else {
            if path.contains(e) {
                let i = choose|i: int| 0 <= i < path.len() && path[i] == e;
                assert(p[i] == e);
            }
            if p.contains(e) {
                let i = choose|i: int| 0 <= i < p.len() && p[i] == e;
                assert(path[i] == e);
            }
        }
    }
}

/// The marks after the walks from `s` and from `t` to the root.
pub open spec fn both_ways<S: Space>(space: &S, edges: Seq<Edge>, g: Growth, s: int, t: int) -> Seq<Edge> {
    toggle_all(
        toggle_all(edges, root_path(space, edges, g.rank, s)),
        root_path(space, edges, g.rank, t),
    )
}

/// The walks from `s` and from `t` to the root turn over the mark of exactly
/// the tree edges whose child lies on one of the two ways and not on the
/// other: the marks of the part that the two ways share are restored.
pub proof fn lemma_marks_between<S: Space>(
    space: &S,
    nodes: Seq<Node>,
    edges: Seq<Edge>,
    g: Growth,
    s: int,
    t: int,
    e: int,
)
    requires
        grown(space, nodes, edges, g),
        0 <= s < nodes.len(),
        0 <= t < nodes.len(),
        0 <= e < edges.len(),
    ensures
        both_ways(space, edges, g, s, t).len() == edges.len(),
        both_ways(space, edges, g, s, t)[e].direction == edges[e].direction,
        both_ways(space, edges, g, s, t)[e].solution == (edges[e].solution != (
        edges[e].direction.is_tree() && (on_way(space, nodes, edges, g, child_end(space, edges, e), s)
            != on_way(space, nodes, edges, g, child_end(space, edges, e), t)))),
{
    lemma_root_path_holds(space, nodes, edges, g, s);
    lemma_root_path_holds(space, nodes, edges, g, t);
    lemma_root_path_edges(space, edges, g.rank, s);
    lemma_root_path_edges(space, edges, g.rank, t);
    let first = root_path(space, edges, g.rank, s);
    let second = root_path(space, edges, g.rank, t);
    lemma_toggle_marks(edges, first, e);
    let mid = toggle_all(edges, first);
    lemma_toggle_marks(mid, second, e);
    assert(edges[e] == edges[e]);
}

/// The edges from node `a` down to node `t`, where `a` lies on the way from `t`
/// to its root: `a`'s first.
pub open spec fn descent<S: Space>(
    space: &S,
    nodes: Seq<Node>,
    edges: Seq<Edge>,
    g: Growth,
    t: int,
    a: int,
) -> Seq<usize>
    decreases g.rank[t],
    when grown(space, nodes, edges, g) && 0 <= t < nodes.len()
{
    if t == a || nodes[t].root {
        Seq::<usize>::empty()
    } else {
        proof {
            lemma_up_edge(space, nodes, edges, g, t);
        }
        descent(space, nodes, edges, g, parent_of(space, edges, g, t), a).push(g.up[t] as usize)
    }
}

/// The descent from `a` to `t` is a chain from `a` to `t` of the edges that
/// lead up from the nodes on the way from `t` that lie below `a`, each once.
pub proof fn lemma_descent<S: Space>(
    space: &S,
    nodes: Seq<Node>,
    edges: Seq<Edge>,
    g: Growth,
    t: int,
    a: int,
)
    requires
        grown(space, nodes, edges, g),
        0 <= t < nodes.len(),
        on_way(space, nodes, edges, g, a, t),
    ensures
        is_chain(space, descent(space, nodes, edges, g, t, a), a, t),
        descent(space, nodes, edges, g, t, a).len() == g.rank[t] - g.rank[a],
        forall|i: int|
            0 <= i < descent(space, nodes, edges, g, t, a).len() ==> {
                let e = #[trigger] descent(space, nodes, edges, g, t, a)[i];
                &&& e < edges.len()
                &&& edges[e as int].direction.is_tree()
                &&& on_way(space, nodes, edges, g, child_end(space, edges, e as int), t)
                &&& g.rank[child_end(space, edges, e as int)] == g.rank[a] + 1 + i
            },
    decreases g.rank[t],
{
    lemma_up_edge(space, nodes, edges, g, t);
    lemma_on_way(space, nodes, edges, g, a, t);
    space.geometry();
    let all = descent(space, nodes, edges, g, t, a);
    if t == a {
    } else {
        let p = parent_of(space, edges, g, t);
        let u = g.up[t];
        let rest = descent(space, nodes, edges, g, p, a);
        lemma_descent(space, nodes, edges, g, p, a);
        lemma_step(space, u, t);
        lemma_chain_join(space, rest, seq![u as usize], a, p, t);
        assert(all =~= rest + seq![u as usize]);
        assert forall|i: int| 0 <= i < all.len() implies {
            let e = #[trigger] all[i];
            &&& e < edges.len()
            &&& edges[e as int].direction.is_tree()
            &&& on_way(space, nodes, edges, g, child_end(space, edges, e as int), t)
            &&& g.rank[child_end(space, edges, e as int)] == g.rank[a] + 1 + i
        } by {
            if i < rest.len() {
                assert(all[i] == rest[i]);
            } else {
                assert(all[i] == u as usize);
                assert(on_way(space, nodes, edges, g, t, t));
            }
        }
    }
}

/// The edges of the way from `s` to `t` within one tree: up from `s` until the
/// way from `t` to the root is met, then down to `t`.
pub open spec fn route<S: Space>(
    space: &S,
    nodes: Seq<Node>,
    edges: Seq<Edge>,
    g: Growth,
    s: int,
    t: int,
) -> Seq<usize>
    decreases g.rank[s],
    when grown(space, nodes, edges, g) && 0 <= s < nodes.len() && 0 <= t < nodes.len()
{
    if on_way(space, nodes, edges, g, s, t) || nodes[s].root {
        descent(space, nodes, edges, g, t, s)
    } else {
        proof {
            lemma_up_edge(space, nodes, edges, g, s);
        }
        seq![g.up[s] as usize] + route(space, nodes, edges, g, parent_of(space, edges, g, s), t)
    }
}

/// The root of a node's tree lies on the way from the node.
pub open spec fn shares_root<S: Space>(
    space: &S,
    nodes: Seq<Node>,
    edges: Seq<Edge>,
    g: Growth,
    s: int,
    t: int,
) -> bool {
    exists|r: int|
        0 <= r < nodes.len() && nodes[r].root && on_way(space, nodes, edges, g, r, s) && on_way(
            space,
            nodes,
            edges,
            g,
            r,
            t,
        )
}

/// The route from `s` to `t` in one tree is a chain from `s` to `t`; it holds
/// exactly the tree edges whose child lies on the way to the root from one of
/// the two and not from the other, each once.
pub proof fn lemma_route<S: Space>(
    space: &S,
    nodes: Seq<Node>,
    edges: Seq<Edge>,
    g: Growth,
    s: int,
    t: int,
)
    requires
        grown(space, nodes, edges, g),
        0 <= s < nodes.len(),
        0 <= t < nodes.len(),
        shares_root(space, nodes, edges, g, s, t),
    ensures
        is_chain(space, route(space, nodes, edges, g, s, t), s, t),
        route(space, nodes, edges, g, s, t).no_duplicates(),
        forall|e: int|
            0 <= e < edges.len() ==> (route(space, nodes, edges, g, s, t).contains(e as usize) <==> (
            #[trigger] edges[e]).direction.is_tree() && (on_way(
                space,
                nodes,
                edges,
                g,
                child_end(space, edges, e),
                s,
            ) != on_way(space, nodes, edges, g, child_end(space, edges, e), t))),
        forall|i: int|
            0 <= i < route(space, nodes, edges, g, s, t).len() ==> (#[trigger] route(
                space,
                nodes,
                edges,
                g,
                s,
                t,
            )[i]) < edges.len(),
    decreases g.rank[s],
{
    lemma_up_edge(space, nodes, edges, g, s);
    space.geometry();
    let all = route(space, nodes, edges, g, s, t);
    let r = choose|r: int|
        0 <= r < nodes.len() && nodes[r].root && on_way(space, nodes, edges, g, r, s) && on_way(
            space,
            nodes,
            edges,
            g,
            r,
            t,
        );
    if on_way(space, nodes, edges, g, s, t) {
        lemma_descent(space, nodes, edges, g, t, s);
        lemma_on_way(space, nodes, edges, g, s, t);
        assert forall|i: int, j: int| 0 <= i < all.len() && 0 <= j < all.len() && i != j implies all[i]
            != all[j] by {
            assert(g.rank[child_end(space, edges, all[i] as int)] != g.rank[child_end(
                space,
                edges,
                all[j] as int,
            )]);
        }
        assert forall|e: int| 0 <= e < edges.len() implies (all.contains(e as usize) <==> (
        #[trigger] edges[e]).direction.is_tree() && (on_way(
            space,
            nodes,
            edges,
            g,
            child_end(space, edges, e),
            s,
        ) != on_way(space, nodes, edges, g, child_end(space, edges, e), t))) by {
            let c = child_end(space, edges, e);
            if all.contains(e as usize) {
                let i = choose|i: int| 0 <= i < all.len() && all[i] == e as usize;
                assert(all[i] as int == e);
                if on_way(space, nodes, edges, g, c, s) {
                    lemma_on_way(space, nodes, edges, g, c, s);
                }
            }
            if edges[e].direction.is_tree() && (on_way(space, nodes, edges, g, c, s) != on_way(
                space,
                nodes,
                edges,
                g,
                c,
                t,
            )) {
                lemma_way_below(space, nodes, edges, g, c, s, t);
                lemma_on_way(space, nodes, edges, g, c, t);
                let i = g.rank[c] - g.rank[s] - 1;
                let x = child_end(space, edges, all[i] as int);
                assert(on_way(space, nodes, edges, g, x, t));
                lemma_on_way(space, nodes, edges, g, x, t);
                assert(x == c);
                assert(g.up[c] == e);
                assert(g.up[x] == all[i] as int);
            }
        }
    } else {
        if nodes[s].root {
            lemma_on_way(space, nodes, edges, g, r, s);
            assert(r == s);
        }
        let p = parent_of(space, edges, g, s);
        let u = g.up[s];
        let rest = route(space, nodes, edges, g, p, t);
        lemma_on_way(space, nodes, edges, g, r, s);
        assert(on_way(space, nodes, edges, g, r, p));
        lemma_route(space, nodes, edges, g, p, t);
        lemma_step(space, u, s);
        lemma_chain_join(space, seq![u as usize], rest, s, p, t);
        assert(all == seq![u as usize] + rest);
        assert(all.skip(1) =~= rest);
        assert forall|e: int| 0 <= e < edges.len() implies (all.contains(e as usize) <==> (
        #[trigger] edges[e]).direction.is_tree() && (on_way(
            space,
            nodes,
            edges,
            g,
            child_end(space, edges, e),
            s,
        ) != on_way(space, nodes, edges, g, child_end(space, edges, e), t))) by {
            let c = child_end(space, edges, e);
            if edges[e].direction.is_tree() {
                assert(g.up[c] == e);
                if c != s && on_way(space, nodes, edges, g, s, t) == false {
                    assert(on_way(space, nodes, edges, g, c, s) == on_way(
                        space,
                        nodes,
                        edges,
                        g,
                        c,
                        p,
                    ));
                }
            }
            if all.contains(e as usize) {
                let i = choose|i: int| 0 <= i < all.len() && all[i] == e as usize;
                if i > 0 {
                    assert(rest[i - 1] == e as usize);
                    assert(rest.contains(e as usize));
                } else {
                    assert(e == u);
                    assert(on_way(space, nodes, edges, g, s, s));
                }
            }
            if edges[e].direction.is_tree() && (on_way(space, nodes, edges, g, c, s) != on_way(
                space,
                nodes,
                edges,
                g,
                c,
                t,
            )) {
                if c == s {
                    assert(all[0] == e as usize);
                } else {
                    assert(rest.contains(e as usize));
                    let i = choose|i: int| 0 <= i < rest.len() && rest[i] == e as usize;
                    assert(all[i + 1] == e as usize);
                }
            }
        }
        assert forall|i: int, j: int| 0 <= i < all.len() && 0 <= j < all.len() && i != j implies all[i]
            != all[j] by {
            if i > 0 && j > 0 {
                assert(all[i] == rest[i - 1] && all[j] == rest[j - 1]);
            } else {
                let k = if i == 0 { j } else { i };
                assert(all[k] == rest[k - 1]);
                assert(rest.contains(rest[k - 1]));
                let e = rest[k - 1] as int;
                assert(edges[e].direction.is_tree());
                let c = child_end(space, edges, e);
                if c == s {
                    assert(on_way(space, nodes, edges, g, s, s));
                    if on_way(space, nodes, edges, g, s, p) {
                        lemma_on_way(space, nodes, edges, g, s, p);
                    }
                }
                assert(g.up[c] == e);
            }
        }
        assert forall|i: int| 0 <= i < all.len() implies (#[trigger] all[i]) < edges.len() by {
            if i > 0 {
                assert(all[i] == rest[i - 1]);
            }
        }
    }
}

/// A node that lies on the way from `t` but not on the way from `s`, where `s`
/// itself lies on the way from `t`, lies below `s`.
pub proof fn lemma_way_below<S: Space>(
    space: &S,
    nodes: Seq<Node>,
    edges: Seq<Edge>,
    g: Growth,
    c: int,
    s: int,
    t: int,
)
    requires
        grown(space, nodes, edges, g),
        0 <= s < nodes.len(),
        0 <= t < nodes.len(),
        on_way(space, nodes, edges, g, s, t),
        on_way(space, nodes, edges, g, c, s) != on_way(space, nodes, edges, g, c, t),
    ensures
        on_way(space, nodes, edges, g, c, t),
        !on_way(space, nodes, edges, g, c, s),
        0 <= c < nodes.len(),
        g.rank[c] > g.rank[s],
    decreases g.rank[t],
{
    lemma_up_edge(space, nodes, edges, g, t);
    lemma_on_way(space, nodes, edges, g, s, t);
    if on_way(space, nodes, edges, g, c, s) {
        lemma_way_joins(space, nodes, edges, g, c, s, t);
    }
    lemma_on_way(space, nodes, edges, g, c, t);
    if g.rank[c] <= g.rank[s] {
        lemma_way_at_rank(space, nodes, edges, g, c, s, t);
    }
}

/// What lies on the way from `s` lies on the way from `t`, where `s` does.
pub proof fn lemma_way_joins<S: Space>(
    space: &S,
    nodes: Seq<Node>,
    edges: Seq<Edge>,
    g: Growth,
    c: int,
    s: int,
    t: int,
)
    requires
        grown(space, nodes, edges, g),
        0 <= s < nodes.len(),
        0 <= t < nodes.len(),
        on_way(space, nodes, edges, g, s, t),
        on_way(space, nodes, edges, g, c, s),
    ensures
        on_way(space, nodes, edges, g, c, t),
    decreases g.rank[t],
{
    if s != t {
        lemma_up_edge(space, nodes, edges, g, t);
        lemma_way_joins(space, nodes, edges, g, c, s, parent_of(space, edges, g, t));
    }
}

/// A node on the way from `t` that is no farther from the root than `s`, which
/// lies on that way too, lies on the way from `s`.
pub proof fn lemma_way_at_rank<S: Space>(
    space: &S,
    nodes: Seq<Node>,
    edges: Seq<Edge>,
    g: Growth,
    c: int,
    s: int,
    t: int,
)
    requires
        grown(space, nodes, edges, g),
        0 <= s < nodes.len(),
        0 <= t < nodes.len(),
        on_way(space, nodes, edges, g, s, t),
        on_way(space, nodes, edges, g, c, t),
        0 <= c < nodes.len(),
        g.rank[c] <= g.rank[s],
    ensures
        on_way(space, nodes, edges, g, c, s),
    decreases g.rank[t],
{
    lemma_on_way(space, nodes, edges, g, s, t);
    lemma_on_way(space, nodes, edges, g, c, t);
    if s == t {
    } else if c == t {
    } else {
        lemma_up_edge(space, nodes, edges, g, t);
        lemma_way_at_rank(space, nodes, edges, g, c, s, parent_of(space, edges, g, t));
    }
}

/// The marks `m` over the forest `edges` are, in the zone of `s`, those that
/// the walks from `s` and from `t` to the root leave where that zone had no
/// marks.
pub open spec fn marks_between<S: Space>(
    space: &S,
    nodes: Seq<Node>,
    edges: Seq<Edge>,
    g: Growth,
    s: int,
    t: int,
    m: Seq<Edge>,
) -> bool {
    &&& m.len() == edges.len()
    &&& forall|e: int|
        0 <= e < edges.len() ==> (#[trigger] m[e]).direction == edges[e].direction && (
        edges[e].direction.is_tree() && nodes[child_end(space, edges, e)].group == nodes[s].group
            ==> m[e].solution == (on_way(space, nodes, edges, g, child_end(space, edges, e), s)
            != on_way(space, nodes, edges, g, child_end(space, edges, e), t)))
}

/// No tree edge of the zone of `s` bears the solution mark.
pub open spec fn zone_unmarked<S: Space>(space: &S, nodes: Seq<Node>, edges: Seq<Edge>, s: int) -> bool {
    forall|k: int|
        0 <= k < edges.len() && (#[trigger] edges[k]).direction.is_tree() && nodes[child_end(
            space,
            edges,
            k,
        )].group == nodes[s].group ==> !edges[k].solution
}

/// Where exactly one of the edges of a node is one that the walk may take,
/// the walk takes it.
pub proof fn lemma_only_marked<S: Space>(
    space: &S,
    m: Seq<Edge>,
    n: int,
    last: Option<usize>,
    e: int,
    from: int,
)
    requires
        0 <= from,
        exists|k: int| from <= k < space.incident(n).len() && space.incident(n)[k] == e as usize,
        0 <= e <= usize::MAX,
        marked(m, e, last),
        forall|k: int|
            0 <= k < space.incident(n).len() && marked(
                m,
                (#[trigger] space.incident(n)[k]) as int,
                last,
            ) ==> space.incident(n)[k] == e as usize,
    ensures
        first_marked(space, m, n, last, from) == Some(e),
    decreases space.incident(n).len() - from,
{
    let k = choose|k: int| from <= k < space.incident(n).len() && space.incident(n)[k] == e as usize;
    if marked(m, space.incident(n)[from] as int, last) {
        assert(space.incident(n)[from] == e as usize);
    } else {
        assert(k != from);
        lemma_only_marked(space, m, n, last, e, from + 1);
    }
}

/// An edge of a node of the forest that is a tree edge leads up from the node
/// or up to it from a child.
pub proof fn lemma_tree_edge_at<S: Space>(
    space: &S,
    nodes: Seq<Node>,
    edges: Seq<Edge>,
    g: Growth,
    n: int,
    k: int,
)
    requires
        grown(space, nodes, edges, g),
        0 <= n < nodes.len(),
        0 <= k < space.incident(n).len(),
        edges[space.incident(n)[k] as int].direction.is_tree(),
    ensures
        ({
            let h = space.incident(n)[k] as int;
            let c = child_end(space, edges, h);
            &&& 0 <= h < edges.len()
            &&& 0 <= c < nodes.len()
            &&& !nodes[c].root
            &&& g.up[c] == h
            &&& (c == n || parent_of(space, edges, g, c) == n)
            &&& nodes[c].group == nodes[n].group
        }),
{
    space.geometry();
    let h = space.incident(n)[k] as int;
    assert(space.ends(h).contains(n as usize));
    let i = choose|i: int| 0 <= i < space.ends(h).len() && space.ends(h)[i] == n as usize;
    assert(space.ends(h).len() == 2);
    let c = child_end(space, edges, h);
    assert(g.up[c] == h);
}

/// The child of `n` on the way from `t`, where `n` lies on that way and is not
/// `t`.
pub open spec fn toward<S: Space>(
    space: &S,
    nodes: Seq<Node>,
    edges: Seq<Edge>,
    g: Growth,
    t: int,
    n: int,
) -> int
    decreases g.rank[t],
    when grown(space, nodes, edges, g) && 0 <= t < nodes.len()
{
    if nodes[t].root || parent_of(space, edges, g, t) == n {
        t
    } else {
        proof {
            lemma_up_edge(space, nodes, edges, g, t);
        }
        toward(space, nodes, edges, g, parent_of(space, edges, g, t), n)
    }
}

/// The child of `n` toward `t` is a child of `n` on the way from `t`, and the
/// descent from `n` starts with the edge to it.
pub proof fn lemma_toward<S: Space>(
    space: &S,
    nodes: Seq<Node>,
    edges: Seq<Edge>,
    g: Growth,
    t: int,
    n: int,
)
    requires
        grown(space, nodes, edges, g),
        0 <= t < nodes.len(),
        on_way(space, nodes, edges, g, n, t),
        n != t,
    ensures
        ({
            let d = toward(space, nodes, edges, g, t, n);
            &&& 0 <= d < nodes.len()
            &&& !nodes[d].root
            &&& parent_of(space, edges, g, d) == n
            &&& on_way(space, nodes, edges, g, d, t)
            &&& descent(space, nodes, edges, g, t, n) == seq![g.up[d] as usize] + descent(
                space,
                nodes,
                edges,
                g,
                t,
                d,
            )
        }),
    decreases g.rank[t],
{
    lemma_up_edge(space, nodes, edges, g, t);
    lemma_on_way(space, nodes, edges, g, n, t);
    let p = parent_of(space, edges, g, t);
    let d = toward(space, nodes, edges, g, t, n);
    if p == n {
        assert(on_way(space, nodes, edges, g, t, t));
        assert(descent(space, nodes, edges, g, p, n) =~= Seq::<usize>::empty());
        assert(descent(space, nodes, edges, g, t, t) =~= Seq::<usize>::empty());
        assert(descent(space, nodes, edges, g, t, n) =~= seq![g.up[t] as usize]
            + Seq::<usize>::empty());
    } else {
        lemma_toward(space, nodes, edges, g, p, n);
        lemma_on_way(space, nodes, edges, g, d, p);
        assert(d != t);
        let first = seq![g.up[d] as usize];
        assert(descent(space, nodes, edges, g, t, n) =~= first + descent(
            space,
            nodes,
            edges,
            g,
            t,
            d,
        )) by {
            assert(descent(space, nodes, edges, g, t, n) == descent(space, nodes, edges, g, p, n).push(
                g.up[t] as usize,
            ));
            assert(descent(space, nodes, edges, g, t, d) == descent(space, nodes, edges, g, p, d).push(
                g.up[t] as usize,
            ));
        }
    }
}

/// On the way down to `t` the walk along the marks takes the edges of the
/// descent and comes to `t`.
pub proof fn lemma_walk_down<S: Space>(
    space: &S,
    nodes: Seq<Node>,
    edges: Seq<Edge>,
    g: Growth,
    s: int,
    t: int,
    m: Seq<Edge>,
    n: int,
    last: Option<usize>,
    fuel: nat,
)
    requires
        grown(space, nodes, edges, g),
        0 <= s < nodes.len(),
        0 <= t < nodes.len(),
        0 <= n < nodes.len(),
        nodes[t].group == nodes[s].group,
        nodes[n].group == nodes[s].group,
        marks_between(space, nodes, edges, g, s, t, m),
        on_way(space, nodes, edges, g, n, t),
        ({
            ||| (n == s && last.is_none())
            ||| (last.is_some() && last.unwrap() < edges.len()
                && edges[last.unwrap() as int].direction.is_tree() && parent_of(
                space,
                edges,
                g,
                child_end(space, edges, last.unwrap() as int),
            ) == n && on_way(
                space,
                nodes,
                edges,
                g,
                child_end(space, edges, last.unwrap() as int),
                s,
            ) && !on_way(space, nodes, edges, g, child_end(space, edges, last.unwrap() as int), t))
            ||| (!nodes[n].root && last == Some(g.up[n] as usize) && !on_way(
                space,
                nodes,
                edges,
                g,
                n,
                s,
            ))
        }),
        fuel >= g.rank[t] - g.rank[n],
    ensures
        walk(space, m, n, last, t, fuel) == descent(space, nodes, edges, g, t, n),
        walk_end(space, m, n, last, t, fuel) == t,
    decreases g.rank[t] - g.rank[n],
{
    lemma_on_way(space, nodes, edges, g, n, t);
    space.geometry();
    if n == t {
        assert(descent(space, nodes, edges, g, t, n) =~= Seq::<usize>::empty());
    } else {
        lemma_toward(space, nodes, edges, g, t, n);
        let d = toward(space, nodes, edges, g, t, n);
        let f = g.up[d];
        lemma_up_edge(space, nodes, edges, g, d);
        lemma_up_edge(space, nodes, edges, g, n);
        lemma_on_way(space, nodes, edges, g, d, t);
        lemma_step(space, f, d);
        assert(far_end(space, f, n) == d);
        assert(!on_way(space, nodes, edges, g, d, s)) by {
            if on_way(space, nodes, edges, g, d, s) {
                lemma_on_way(space, nodes, edges, g, d, s);
                if n == s && last.is_none() {
                    assert(false);
                } else if !nodes[n].root && last == Some(g.up[n] as usize) && !on_way(
                    space,
                    nodes,
                    edges,
                    g,
                    n,
                    s,
                ) {
                    assert(false);
                } else {
                    let c = child_end(space, edges, last.unwrap() as int);
                    lemma_on_way(space, nodes, edges, g, c, s);
                    lemma_up_edge(space, nodes, edges, g, c);
                    assert(g.rank[c] == g.rank[d]);
                    assert(c == d);
                    assert(false);
                }
            }
        }
        assert(m[f].solution && m[f].direction.is_tree());
        assert(last != Some(f as usize)) by {
            if last == Some(f as usize) {
                assert(child_end(space, edges, f) == d);
            }
        }
        assert forall|k: int|
            0 <= k < space.incident(n).len() && marked(
                m,
                (#[trigger] space.incident(n)[k]) as int,
                last,
            ) implies space.incident(n)[k] == f as usize by {
            let h = space.incident(n)[k] as int;
            lemma_tree_edge_at(space, nodes, edges, g, n, k);
            let c = child_end(space, edges, h);
            if c == n {
                assert(on_way(space, nodes, edges, g, n, n));
                if n == s && last.is_none() {
                    assert(false);
                } else if !nodes[n].root && last == Some(g.up[n] as usize) && !on_way(
                    space,
                    nodes,
                    edges,
                    g,
                    n,
                    s,
                ) {
                    assert(false);
                } else {
                    let c2 = child_end(space, edges, last.unwrap() as int);
                    lemma_on_way(space, nodes, edges, g, c2, s);
                    lemma_up_edge(space, nodes, edges, g, c2);
                    assert(false);
                }
            } else {
                lemma_up_edge(space, nodes, edges, g, c);
                if on_way(space, nodes, edges, g, c, t) {
                    lemma_on_way(space, nodes, edges, g, c, t);
                    assert(g.rank[c] == g.rank[d]);
                    assert(c == d);
                } else {
                    assert(on_way(space, nodes, edges, g, c, s));
                    lemma_on_way(space, nodes, edges, g, c, s);
                    if n == s && last.is_none() {
                        assert(false);
                    } else if !nodes[n].root && last == Some(g.up[n] as usize) && !on_way(
                        space,
                        nodes,
                        edges,
                        g,
                        n,
                        s,
                    ) {
                        assert(false);
                    } else {
                        let c2 = child_end(space, edges, last.unwrap() as int);
                        lemma_on_way(space, nodes, edges, g, c2, s);
                        lemma_up_edge(space, nodes, edges, g, c2);
                        assert(g.rank[c2] == g.rank[c]);
                        assert(c2 == c);
                        assert(g.up[c2] == last.unwrap() as int);
                        assert(false);
                    }
                }
            }
        }
        assert(space.incident(n).contains(f as usize));
        lemma_only_marked(space, m, n, last, f, 0);
        lemma_walk_down(space, nodes, edges, g, s, t, m, d, Some(f as usize), (fuel - 1) as nat);
    }
}

/// The walk along the marks that the walks from `s` and from `t` to the root
/// leave takes the route from `s` to `t` and comes to `t`.
pub proof fn lemma_walk_up<S: Space>(
    space: &S,
    nodes: Seq<Node>,
    edges: Seq<Edge>,
    g: Growth,
    s: int,
    t: int,
    m: Seq<Edge>,
    n: int,
    last: Option<usize>,
    fuel: nat,
)
    requires
        grown(space, nodes, edges, g),
        0 <= s < nodes.len(),
        0 <= t < nodes.len(),
        0 <= n < nodes.len(),
        nodes[t].group == nodes[s].group,
        nodes[n].group == nodes[s].group,
        marks_between(space, nodes, edges, g, s, t, m),
        shares_root(space, nodes, edges, g, s, t),
        on_way(space, nodes, edges, g, n, s),
        ({
            ||| (n == s && last.is_none())
            ||| (last.is_some() && last.unwrap() < edges.len()
                && edges[last.unwrap() as int].direction.is_tree() && parent_of(
                space,
                edges,
                g,
                child_end(space, edges, last.unwrap() as int),
            ) == n && on_way(
                space,
                nodes,
                edges,
                g,
                child_end(space, edges, last.unwrap() as int),
                s,
            ) && !on_way(space, nodes, edges, g, child_end(space, edges, last.unwrap() as int), t))
        }),
        fuel >= route(space, nodes, edges, g, n, t).len(),
    ensures
        walk(space, m, n, last, t, fuel) == route(space, nodes, edges, g, n, t),
        walk_end(space, m, n, last, t, fuel) == t,
    decreases g.rank[n],
{
    lemma_on_way(space, nodes, edges, g, n, s);
    lemma_up_edge(space, nodes, edges, g, n);
    space.geometry();
    let r = choose|r: int|
        0 <= r < nodes.len() && nodes[r].root && on_way(space, nodes, edges, g, r, s) && on_way(
            space,
            nodes,
            edges,
            g,
            r,
            t,
        );
    if on_way(space, nodes, edges, g, n, t) {
        lemma_descent(space, nodes, edges, g, t, n);
        lemma_walk_down(space, nodes, edges, g, s, t, m, n, last, fuel);
    } else {
        if nodes[n].root {
            lemma_on_way(space, nodes, edges, g, r, s);
            assert(r == n);
        }
        let e = g.up[n];
        let p = parent_of(space, edges, g, n);
        lemma_step(space, e, n);
        assert(on_way(space, nodes, edges, g, n, n));
        assert(m[e].solution && m[e].direction.is_tree());
        assert(last != Some(e as usize)) by {
            if last == Some(e as usize) {
                let c = child_end(space, edges, last.unwrap() as int);
                lemma_up_edge(space, nodes, edges, g, c);
            }
        }
        assert forall|k: int|
            0 <= k < space.incident(n).len() && marked(
                m,
                (#[trigger] space.incident(n)[k]) as int,
                last,
            ) implies space.incident(n)[k] == e as usize by {
            let h = space.incident(n)[k] as int;
            lemma_tree_edge_at(space, nodes, edges, g, n, k);
            let c = child_end(space, edges, h);
            if c != n {
                lemma_up_edge(space, nodes, edges, g, c);
                if on_way(space, nodes, edges, g, c, t) {
                    lemma_on_way(space, nodes, edges, g, c, t);
                    assert(false);
                }
                assert(on_way(space, nodes, edges, g, c, s));
                lemma_on_way(space, nodes, edges, g, c, s);
                if n == s && last.is_none() {
                    assert(false);
                } else {
                    let c2 = child_end(space, edges, last.unwrap() as int);
                    lemma_on_way(space, nodes, edges, g, c2, s);
                    lemma_up_edge(space, nodes, edges, g, c2);
                    assert(g.rank[c2] == g.rank[c]);
                    assert(c2 == c);
                    assert(g.up[c2] == last.unwrap() as int);
                    assert(false);
                }
            }
        }
        assert(space.incident(n).contains(e as usize));
        lemma_only_marked(space, m, n, last, e, 0);
        assert(on_way(space, nodes, edges, g, p, s));
        lemma_walk_up(space, nodes, edges, g, s, t, m, p, Some(e as usize), (fuel - 1) as nat);
    }
}

/// The root of a node's zone lies on the way from the node.
pub proof fn lemma_root_on_way<S: Space>(
    space: &S,
    nodes: Seq<Node>,
    edges: Seq<Edge>,
    g: Growth,
    seeds: Seq<usize>,
    n: int,
)
    requires
        grown(space, nodes, edges, g),
        roots_marked(nodes, seeds),
        seeds.len() <= usize::MAX,
        0 <= n < nodes.len(),
    ensures
        0 <= zone_of(nodes, n) < seeds.len(),
        nodes[seeds[zone_of(nodes, n) as int] as int].root,
        on_way(space, nodes, edges, g, seeds[zone_of(nodes, n) as int] as int, n),
    decreases g.rank[n],
{
    lemma_up_edge(space, nodes, edges, g, n);
    space.geometry();
    assert(nodes[n].group.is_some());
    if nodes[n].root {
        assert(seeds.contains(n as usize));
        let i = choose|i: int| 0 <= i < seeds.len() && seeds[i] == n as usize;
        assert(nodes[seeds[i] as int].group == Some(i as usize));
        assert(on_way(space, nodes, edges, g, n, n));
    } else {
        let p = parent_of(space, edges, g, n);
        assert(edges[g.up[n]].direction.is_tree());
        assert(nodes[p].group == nodes[n].group);
        lemma_root_on_way(space, nodes, edges, g, seeds, p);
    }
}

/// Two nodes of one zone share the root of their ways.
pub proof fn lemma_zone_shares_root<S: Space>(
    space: &S,
    nodes: Seq<Node>,
    edges: Seq<Edge>,
    g: Growth,
    seeds: Seq<usize>,
    s: int,
    t: int,
)
    requires
        grown(space, nodes, edges, g),
        roots_marked(nodes, seeds),
        seeds.len() <= usize::MAX,
        0 <= s < nodes.len(),
        0 <= t < nodes.len(),
        nodes[s].group == nodes[t].group,
    ensures
        shares_root(space, nodes, edges, g, s, t),
{
    lemma_root_on_way(space, nodes, edges, g, seeds, s);
    lemma_root_on_way(space, nodes, edges, g, seeds, t);
    let r = seeds[zone_of(nodes, s) as int] as int;
    assert(0 <= r < nodes.len() && nodes[r].root && on_way(space, nodes, edges, g, r, s) && on_way(
        space,
        nodes,
        edges,
        g,
        r,
        t,
    ));
}

/// A list of distinct edges of a geometry is no longer than the edge count.
pub proof fn lemma_distinct_fit(way: Seq<usize>, total: nat)
    requires
        way.no_duplicates(),
        forall|i: int| 0 <= i < way.len() ==> (#[trigger] way[i]) < total,
    ensures
        way.len() <= total,
{
    let ints = Seq::new(way.len(), |i: int| way[i] as int);
    assert(ints.no_duplicates());
    ints.unique_seq_to_set();
    vstd::set_lib::lemma_int_range(0, total as int);
    assert(ints.to_set().subset_of(vstd::set_lib::set_int_range(0, total as int))) by {
        assert forall|x: int| ints.to_set().contains(x) implies vstd::set_lib::set_int_range(
            0,
            total as int,
        ).contains(x) by {
            let i = choose|i: int| 0 <= i < ints.len() && ints[i] == x;
            assert(way[i] < total);
        }
    }
    vstd::set_lib::lemma_len_subset(ints.to_set(), vstd::set_lib::set_int_range(0, total as int));
}

/// Solving between two nodes of one tree whose zone bears no marks: the edges
/// of the route from `s` to `t`, a chain from `s` to `t` that takes no edge
/// twice, get the solution mark, every other mark stays as it was, and the walk
/// along the marks takes that route and comes to `t`.
pub proof fn lemma_solution<S: Space>(
    space: &S,
    nodes: Seq<Node>,
    edges: Seq<Edge>,
    g: Growth,
    s: int,
    t: int,
)
    requires
        grown(space, nodes, edges, g),
        zone_unmarked(space, nodes, edges, s),
        0 <= s < nodes.len(),
        0 <= t < nodes.len(),
        shares_root(space, nodes, edges, g, s, t),
    ensures
        is_chain(space, route(space, nodes, edges, g, s, t), s, t),
        route(space, nodes, edges, g, s, t).no_duplicates(),
        both_ways(space, edges, g, s, t).len() == edges.len(),
        forall|e: int|
            0 <= e < edges.len() ==> (#[trigger] both_ways(space, edges, g, s, t)[e]).direction
                == edges[e].direction && (both_ways(space, edges, g, s, t)[e].solution == (if route(
                space,
                nodes,
                edges,
                g,
                s,
                t,
            ).contains(e as usize) {
                true
            } else {
                edges[e].solution
            })),
        walk(space, both_ways(space, edges, g, s, t), s, None, t, space.edge_count()) == route(
            space,
            nodes,
            edges,
            g,
            s,
            t,
        ),
        walk_end(space, both_ways(space, edges, g, s, t), s, None, t, space.edge_count()) == t,
{
    let m = both_ways(space, edges, g, s, t);
    let way = route(space, nodes, edges, g, s, t);
    lemma_root_path_holds(space, nodes, edges, g, s);
    lemma_root_path_holds(space, nodes, edges, g, t);
    lemma_root_path_edges(space, edges, g.rank, s);
    lemma_root_path_edges(space, edges, g.rank, t);
    lemma_toggle_all_directions(edges, root_path(space, edges, g.rank, s));
    lemma_toggle_all_directions(
        toggle_all(edges, root_path(space, edges, g.rank, s)),
        root_path(space, edges, g.rank, t),
    );
    space.geometry();
    let r = choose|r: int|
        0 <= r < nodes.len() && nodes[r].root && on_way(space, nodes, edges, g, r, s) && on_way(
            space,
            nodes,
            edges,
            g,
            r,
            t,
        );
    lemma_on_way(space, nodes, edges, g, r, s);
    lemma_on_way(space, nodes, edges, g, r, t);
    assert forall|e: int| 0 <= e < edges.len() implies (#[trigger] m[e]).direction
        == edges[e].direction && (edges[e].direction.is_tree() && nodes[child_end(
        space,
        edges,
        e,
    )].group == nodes[s].group ==> m[e].solution == (on_way(
        space,
        nodes,
        edges,
        g,
        child_end(space, edges, e),
        s,
    ) != on_way(space, nodes, edges, g, child_end(space, edges, e), t))) by {
        lemma_marks_between(space, nodes, edges, g, s, t, e);
    }
    assert(marks_between(space, nodes, edges, g, s, t, m));
    lemma_route(space, nodes, edges, g, s, t);
    lemma_distinct_fit(way, space.edge_count());
    assert(on_way(space, nodes, edges, g, s, s));
    lemma_walk_up(space, nodes, edges, g, s, t, m, s, None, space.edge_count());
    assert forall|e: int| 0 <= e < edges.len() implies (#[trigger] m[e]).direction
        == edges[e].direction && (m[e].solution == (if way.contains(e as usize) {
        true
    } else {
        edges[e].solution
    })) by {
        lemma_marks_between(space, nodes, edges, g, s, t, e);
        let c = child_end(space, edges, e);
        if edges[e].direction.is_tree() && (on_way(space, nodes, edges, g, c, s) != on_way(
            space,
            nodes,
            edges,
            g,
            c,
            t,
        )) {
            if on_way(space, nodes, edges, g, c, s) {
                lemma_on_way(space, nodes, edges, g, c, s);
            } else {
                lemma_on_way(space, nodes, edges, g, c, t);
            }
        }
    }
}

/// `s` and `t` are nodes of one tree of a forest that `edges` holds, and no
/// tree edge of their zone bears the solution mark.
pub open spec fn clear_tree<S: Space>(space: &S, edges: Seq<Edge>, s: int, t: int) -> bool {
    exists|nodes: Seq<Node>, g: Growth|
        grown(space, nodes, edges, g) && 0 <= s < nodes.len() && 0 <= t < nodes.len()
            && shares_root(space, nodes, edges, g, s, t) && zone_unmarked(space, nodes, edges, s)
}

/// Between two nodes of one tree whose zone bears no marks, the walk along the
/// marks that solving leaves comes to its end.
pub proof fn lemma_solve_succeeds<S: Space>(space: &S, edges: Seq<Edge>, s: int, t: int)
    requires
        clear_tree(space, edges, s, t),
    ensures
        forall|rank: Seq<nat>| #[trigger]
            ranked(space, edges, rank) ==> walk_end(
                space,
                toggle_all(
                    toggle_all(edges, root_path(space, edges, rank, s)),
                    root_path(space, edges, rank, t),
                ),
                s,
                None,
                t,
                space.edge_count(),
            ) == t,
{
    let (nodes, g) = choose|nodes: Seq<Node>, g: Growth|
        grown(space, nodes, edges, g) && 0 <= s < nodes.len() && 0 <= t < nodes.len()
            && shares_root(space, nodes, edges, g, s, t) && zone_unmarked(space, nodes, edges, s);
    lemma_solution(space, nodes, edges, g, s, t);
    assert forall|rank: Seq<nat>| #[trigger] ranked(space, edges, rank) implies walk_end(
        space,
        toggle_all(
            toggle_all(edges, root_path(space, edges, rank, s)),
            root_path(space, edges, rank, t),
        ),
        s,
        None,
        t,
        space.edge_count(),
    ) == t by {
        crate::space::lemma_root_path_same(space, edges, rank, edges, g.rank, s);
        crate::space::lemma_root_path_same(space, edges, rank, edges, g.rank, t);
    }
}

/// Between two nodes of one tree whose zone bears no marks, solving sets the
/// mark of each edge of the walk along the marks and of no other edge.
pub proof fn lemma_solved_marks<S: Space>(
    space: &S,
    edges: Seq<Edge>,
    after: Seq<Edge>,
    s: int,
    t: int,
)
    requires
        clear_tree(space, edges, s, t),
        forall|rank: Seq<nat>| #[trigger]
            ranked(space, edges, rank) ==> after == toggle_all(
                toggle_all(edges, root_path(space, edges, rank, s)),
                root_path(space, edges, rank, t),
            ),
    ensures
        after.len() == edges.len(),
        forall|e: int|
            0 <= e < edges.len() ==> (#[trigger] after[e]).solution == (walk(
                space,
                after,
                s,
                None,
                t,
                space.edge_count(),
            ).contains(e as usize) || edges[e].solution),
        crate::space::fresh_way(edges, walk(space, after, s, None, t, space.edge_count())),
{
    let (nodes, g) = choose|nodes: Seq<Node>, g: Growth|
        grown(space, nodes, edges, g) && 0 <= s < nodes.len() && 0 <= t < nodes.len()
            && shares_root(space, nodes, edges, g, s, t) && zone_unmarked(space, nodes, edges, s);
    lemma_solution(space, nodes, edges, g, s, t);
    assert(ranked(space, edges, g.rank));
    assert(after == both_ways(space, edges, g, s, t));
    lemma_route(space, nodes, edges, g, s, t);
    let way = route(space, nodes, edges, g, s, t);
    let r = choose|r: int|
        0 <= r < nodes.len() && nodes[r].root && on_way(space, nodes, edges, g, r, s) && on_way(
            space,
            nodes,
            edges,
            g,
            r,
            t,
        );
    lemma_on_way(space, nodes, edges, g, r, s);
    lemma_on_way(space, nodes, edges, g, r, t);
    assert forall|k: int| 0 <= k < way.len() implies (#[trigger] way[k]) < edges.len()
        && !edges[way[k] as int].solution && edges[way[k] as int].direction.is_tree() by {
        let e = way[k] as int;
        assert(way.contains(e as usize));
        assert(edges[e].direction.is_tree());
        let c = child_end(space, edges, e);
        if on_way(space, nodes, edges, g, c, s) {
            lemma_on_way(space, nodes, edges, g, c, s);
        } else {
            lemma_on_way(space, nodes, edges, g, c, t);
        }
    }
}

/// In a finished forest the tree of any two nodes of one zone is clear: solving
/// between them finds the way.
pub proof fn lemma_forest_clear<S: Space>(
    space: &S,
    nodes: Seq<Node>,
    edges: Seq<Edge>,
    roots: nat,
    s: int,
    t: int,
)
    requires
        space.wf(),
        is_forest(space, nodes, edges, roots),
        roots <= usize::MAX,
        0 <= s < nodes.len(),
        0 <= t < nodes.len(),
        nodes[s].group == nodes[t].group,
    ensures
        clear_tree(space, edges, s, t),
{
    let g = choose|g: Growth| oriented(space, nodes, edges, g);
    let seeds = choose|seeds: Seq<usize>| seeds.len() == roots && roots_marked(nodes, seeds);
    assert(grown(space, nodes, edges, g));
    lemma_zone_shares_root(space, nodes, edges, g, seeds, s, t);
    assert(zone_unmarked(space, nodes, edges, s));
    assert(grown(space, nodes, edges, g) && 0 <= s < nodes.len() && 0 <= t < nodes.len()
        && shares_root(space, nodes, edges, g, s, t) && zone_unmarked(space, nodes, edges, s));
}

/// The node where the way from `s` to the root meets the way from `t`: the
/// nearest node above both.
pub open spec fn meet<S: Space>(
    space: &S,
    nodes: Seq<Node>,
    edges: Seq<Edge>,
    g: Growth,
    s: int,
    t: int,
) -> int
    decreases g.rank[s],
    when grown(space, nodes, edges, g) && 0 <= s < nodes.len() && 0 <= t < nodes.len()
{
    if on_way(space, nodes, edges, g, s, t) || nodes[s].root {
        s
    } else {
        proof {
            lemma_up_edge(space, nodes, edges, g, s);
        }
        meet(space, nodes, edges, g, parent_of(space, edges, g, s), t)
    }
}

/// The route between two nodes of one tree goes up from the first to where the
/// two ways to the root meet and down to the second: it has as many edges as
/// the two lie below that node together, and no node above both lies nearer
/// to the two.
pub proof fn lemma_route_length<S: Space>(
    space: &S,
    nodes: Seq<Node>,
    edges: Seq<Edge>,
    g: Growth,
    s: int,
    t: int,
)
    requires
        grown(space, nodes, edges, g),
        0 <= s < nodes.len(),
        0 <= t < nodes.len(),
        shares_root(space, nodes, edges, g, s, t),
    ensures
        ({
            let top = meet(space, nodes, edges, g, s, t);
            &&& 0 <= top < nodes.len()
            &&& on_way(space, nodes, edges, g, top, s)
            &&& on_way(space, nodes, edges, g, top, t)
            &&& route(space, nodes, edges, g, s, t).len() == (g.rank[s] - g.rank[top]) + (g.rank[t]
                - g.rank[top])
            &&& forall|x: int|
                on_way(space, nodes, edges, g, x, s) && on_way(space, nodes, edges, g, x, t)
                    ==> on_way(space, nodes, edges, g, x, top)
        }),
    decreases g.rank[s],
{
    lemma_up_edge(space, nodes, edges, g, s);
    let r = choose|r: int|
        0 <= r < nodes.len() && nodes[r].root && on_way(space, nodes, edges, g, r, s) && on_way(
            space,
            nodes,
            edges,
            g,
            r,
            t,
        );
    assert(on_way(space, nodes, edges, g, s, s));
    if on_way(space, nodes, edges, g, s, t) {
        lemma_descent(space, nodes, edges, g, t, s);
    } else {
        if nodes[s].root {
            lemma_on_way(space, nodes, edges, g, r, s);
            assert(r == s);
        }
        let p = parent_of(space, edges, g, s);
        lemma_on_way(space, nodes, edges, g, r, s);
        assert(on_way(space, nodes, edges, g, r, p));
        assert(shares_root(space, nodes, edges, g, p, t));
        lemma_route_length(space, nodes, edges, g, p, t);
        let top = meet(space, nodes, edges, g, p, t);
        assert(on_way(space, nodes, edges, g, top, s));
        assert(route(space, nodes, edges, g, s, t) == seq![g.up[s] as usize] + route(
            space,
            nodes,
            edges,
            g,
            p,
            t,
        ));
    }
}

} // verus!
