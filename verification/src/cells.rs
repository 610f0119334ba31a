use vstd::prelude::*;
use crate::count::{count_true, lemma_count_places};
use crate::edge::Edge;
use crate::node::Node;
use crate::space::{
    child_end, is_forest, oriented, ranked, root_path, roots_marked, toggle_all, Growth, Space,
};
use crate::way::{
    both_ways, grown, lemma_marks_between, lemma_on_way, lemma_toward, lemma_tree_edge_at,
    lemma_up_edge, lemma_zone_shares_root, on_way, parent_of, shares_root, toward,
};

verus! {

/// Number of edges of node `n` that bear the solution mark.
pub open spec fn marks_at<S: Space>(space: &S, edges: Seq<Edge>, n: int) -> nat {
    count_true(Seq::new(space.incident(n).len(), |k: int| edges[space.incident(n)[k] as int].solution))
}

/// A child of `n` that lies on the way from `s` is the child of `n` toward `s`.
proof fn lemma_child_on_way<S: Space>(
    space: &S,
    nodes: Seq<Node>,
    edges: Seq<Edge>,
    g: Growth,
    s: int,
    n: int,
    c: int,
)
    requires
        grown(space, nodes, edges, g),
        0 <= s < nodes.len(),
        0 <= n < nodes.len(),
        0 <= c < nodes.len(),
        !nodes[c].root,
        parent_of(space, edges, g, c) == n,
        on_way(space, nodes, edges, g, c, s),
    ensures
        on_way(space, nodes, edges, g, n, s),
        n != s,
        c == toward(space, nodes, edges, g, s, n),
{
    lemma_up_edge(space, nodes, edges, g, c);
    lemma_on_way(space, nodes, edges, g, c, s);
    lemma_on_way(space, nodes, edges, g, n, s);
    lemma_toward(space, nodes, edges, g, s, n);
    let d = toward(space, nodes, edges, g, s, n);
    lemma_up_edge(space, nodes, edges, g, d);
}

/// Where `n` lies on the way from `s` and is not `s`, its child toward `s` is a
/// child of `n` on that way, and `n` lists the edge to it.
proof fn lemma_child_toward<S: Space>(
    space: &S,
    nodes: Seq<Node>,
    edges: Seq<Edge>,
    g: Growth,
    s: int,
    n: int,
)
    requires
        grown(space, nodes, edges, g),
        0 <= s < nodes.len(),
        0 <= n < nodes.len(),
        on_way(space, nodes, edges, g, n, s),
        n != s,
    ensures
        ({
            let d = toward(space, nodes, edges, g, s, n);
            &&& 0 <= d < nodes.len()
            &&& !nodes[d].root
            &&& parent_of(space, edges, g, d) == n
            &&& on_way(space, nodes, edges, g, d, s)
            &&& g.rank[d] == g.rank[n] + 1
            &&& 0 <= g.up[d] < edges.len()
            &&& edges[g.up[d]].direction.is_tree()
            &&& child_end(space, edges, g.up[d]) == d
            &&& space.incident(n).contains(g.up[d] as usize)
        }),
{
    space.geometry();
    lemma_toward(space, nodes, edges, g, s, n);
    let d = toward(space, nodes, edges, g, s, n);
    lemma_up_edge(space, nodes, edges, g, d);
    let e = g.up[d];
    assert(space.ends(e).len() == 2);
    let k = choose|k: int| 0 <= k < space.ends(e).len() && space.ends(e)[k] == n as usize;
    assert(space.incident(space.ends(e)[k] as int).contains(e as usize));
}

/// The edge that leads up from `n` is on the way between `s` and `t`: `n` is
/// no root and lies on the way to the root from one of the two only.
pub open spec fn up_taken<S: Space>(
    space: &S,
    nodes: Seq<Node>,
    edges: Seq<Edge>,
    g: Growth,
    s: int,
    t: int,
    n: int,
) -> bool {
    !nodes[n].root && on_way(space, nodes, edges, g, n, s) != on_way(space, nodes, edges, g, n, t)
}

/// The edge from `n` down toward `s` is on the way between `s` and `t`: `n`
/// lies above `s`, and its child toward `s` does not lie above `t`.
pub open spec fn down_taken<S: Space>(
    space: &S,
    nodes: Seq<Node>,
    edges: Seq<Edge>,
    g: Growth,
    s: int,
    t: int,
    n: int,
) -> bool {
    on_way(space, nodes, edges, g, n, s) && n != s && !on_way(
        space,
        nodes,
        edges,
        g,
        toward(space, nodes, edges, g, s, n),
        t,
    )
}

/// The edge from `n` down toward `s`.
pub open spec fn down_edge<S: Space>(
    space: &S,
    nodes: Seq<Node>,
    edges: Seq<Edge>,
    g: Growth,
    s: int,
    n: int,
) -> int {
    g.up[toward(space, nodes, edges, g, s, n)]
}

/// An edge of `n` bears the mark after solving exactly if it is the edge up
/// from `n` or one of the two edges down from `n`, and that edge is on the way.
pub proof fn lemma_mark_is_taken<S: Space>(
    space: &S,
    nodes: Seq<Node>,
    edges: Seq<Edge>,
    g: Growth,
    s: int,
    t: int,
    n: int,
    k: int,
)
    requires
        grown(space, nodes, edges, g),
        forall|e: int| 0 <= e < edges.len() ==> !(#[trigger] edges[e]).solution,
        0 <= s < nodes.len(),
        0 <= t < nodes.len(),
        0 <= n < nodes.len(),
        0 <= k < space.incident(n).len(),
    ensures
        space.incident(n)[k] < edges.len(),
        both_ways(space, edges, g, s, t)[space.incident(n)[k] as int].solution == ((up_taken(
            space,
            nodes,
            edges,
            g,
            s,
            t,
            n,
        ) && space.incident(n)[k] == g.up[n]) || (down_taken(space, nodes, edges, g, s, t, n)
            && space.incident(n)[k] == down_edge(space, nodes, edges, g, s, n)) || (down_taken(
            space,
            nodes,
            edges,
            g,
            t,
            s,
            n,
        ) && space.incident(n)[k] == down_edge(space, nodes, edges, g, t, n))),
{
    space.geometry();
    let h = space.incident(n)[k] as int;
    lemma_marks_between(space, nodes, edges, g, s, t, h);
    lemma_up_edge(space, nodes, edges, g, n);
    let m = both_ways(space, edges, g, s, t);
    if m[h].solution {
        lemma_tree_edge_at(space, nodes, edges, g, n, k);
        let c = child_end(space, edges, h);
        if c == n {
        } else if on_way(space, nodes, edges, g, c, s) {
            lemma_child_on_way(space, nodes, edges, g, s, n, c);
        } else {
            lemma_child_on_way(space, nodes, edges, g, t, n, c);
        }
    } else {
        if up_taken(space, nodes, edges, g, s, t, n) && h == g.up[n] {
            assert(child_end(space, edges, h) == n);
        }
        if down_taken(space, nodes, edges, g, s, t, n) && h == down_edge(space, nodes, edges, g, s, n) {
            lemma_child_toward(space, nodes, edges, g, s, n);
        }
        if down_taken(space, nodes, edges, g, t, s, n) && h == down_edge(space, nodes, edges, g, t, n) {
            lemma_child_toward(space, nodes, edges, g, t, n);
        }
    }
}

/// Of the three edges of `n` that can be on the way between `s` and `t`,
/// exactly one is at `s` and at `t`, and two or none are at any other node;
/// those that are on the way are edges of `n` and differ from each other.
pub proof fn lemma_taken<S: Space>(
    space: &S,
    nodes: Seq<Node>,
    edges: Seq<Edge>,
    g: Growth,
    s: int,
    t: int,
    n: int,
)
    requires
        grown(space, nodes, edges, g),
        0 <= s < nodes.len(),
        0 <= t < nodes.len(),
        0 <= n < nodes.len(),
        shares_root(space, nodes, edges, g, s, t),
        s != t,
    ensures
        ({
            let up = up_taken(space, nodes, edges, g, s, t, n);
            let ds = down_taken(space, nodes, edges, g, s, t, n);
            let dt = down_taken(space, nodes, edges, g, t, s, n);
            let e_up = g.up[n];
            let e_s = down_edge(space, nodes, edges, g, s, n);
            let e_t = down_edge(space, nodes, edges, g, t, n);
            let taken = (if up { 1int } else { 0int }) + (if ds { 1int } else { 0int }) + (if dt {
                1int
            } else {
                0int
            });
            &&& (up ==> space.incident(n).contains(e_up as usize) && 0 <= e_up < edges.len())
            &&& (ds ==> space.incident(n).contains(e_s as usize) && 0 <= e_s < edges.len())
            &&& (dt ==> space.incident(n).contains(e_t as usize) && 0 <= e_t < edges.len())
            &&& edges.len() <= usize::MAX
            &&& (up && ds ==> e_up != e_s)
            &&& (up && dt ==> e_up != e_t)
            &&& (ds && dt ==> e_s != e_t)
            &&& (n == s || n == t ==> taken == 1)
            &&& (n != s && n != t ==> taken == 0 || taken == 2)
        }),
{
    space.geometry();
    let a = on_way(space, nodes, edges, g, n, s);
    let b = on_way(space, nodes, edges, g, n, t);
    let r = choose|r: int|
        0 <= r < nodes.len() && nodes[r].root && on_way(space, nodes, edges, g, r, s) && on_way(
            space,
            nodes,
            edges,
            g,
            r,
            t,
        );
    lemma_on_way(space, nodes, edges, g, r, s);
    lemma_on_way(space, nodes, edges, g, r, t);
    lemma_up_edge(space, nodes, edges, g, n);
    assert(on_way(space, nodes, edges, g, s, s));
    assert(on_way(space, nodes, edges, g, t, t));
    if a {
        lemma_on_way(space, nodes, edges, g, n, s);
    }
    if b {
        lemma_on_way(space, nodes, edges, g, n, t);
    }
    let cs = toward(space, nodes, edges, g, s, n);
    let ct = toward(space, nodes, edges, g, t, n);
    if a && n != s {
        lemma_child_toward(space, nodes, edges, g, s, n);
        if on_way(space, nodes, edges, g, cs, t) {
            lemma_on_way(space, nodes, edges, g, cs, t);
            lemma_child_on_way(space, nodes, edges, g, t, n, cs);
        }
    }
    if b && n != t {
        lemma_child_toward(space, nodes, edges, g, t, n);
        if on_way(space, nodes, edges, g, ct, s) {
            lemma_on_way(space, nodes, edges, g, ct, s);
            lemma_child_on_way(space, nodes, edges, g, s, n, ct);
        }
    }
    if !nodes[n].root {
        let e = g.up[n];
        let k = choose|k: int| 0 <= k < space.ends(e).len() && space.ends(e)[k] == n as usize;
        assert(space.incident(space.ends(e)[k] as int).contains(e as usize));
    }
    if nodes[n].root && (a || b) {
        assert(n == r);
    }
}

/// Solving in a forest without marks, between two distinct nodes of one tree,
/// leaves exactly one marked edge at each of the two, and at every other node
/// two, where the way passes it, or none.
pub proof fn lemma_cell_marks<S: Space>(
    space: &S,
    nodes: Seq<Node>,
    edges: Seq<Edge>,
    g: Growth,
    s: int,
    t: int,
    n: int,
)
    requires
        grown(space, nodes, edges, g),
        forall|k: int| 0 <= k < edges.len() ==> !(#[trigger] edges[k]).solution,
        0 <= s < nodes.len(),
        0 <= t < nodes.len(),
        0 <= n < nodes.len(),
        shares_root(space, nodes, edges, g, s, t),
        s != t,
    ensures
        n == s || n == t ==> marks_at(space, both_ways(space, edges, g, s, t), n) == 1,
        n != s && n != t ==> marks_at(space, both_ways(space, edges, g, s, t), n) == 2 || marks_at(
            space,
            both_ways(space, edges, g, s, t),
            n,
        ) == 0,
{
    space.geometry();
    lemma_taken(space, nodes, edges, g, s, t, n);
    let m = both_ways(space, edges, g, s, t);
    let inc = space.incident(n);
    let flags = Seq::new(inc.len(), |k: int| m[inc[k] as int].solution);
    let up = up_taken(space, nodes, edges, g, s, t, n);
    let ds = down_taken(space, nodes, edges, g, s, t, n);
    let dt = down_taken(space, nodes, edges, g, t, s, n);
    let e_up = g.up[n];
    let e_s = down_edge(space, nodes, edges, g, s, n);
    let e_t = down_edge(space, nodes, edges, g, t, n);
    let at_up = choose|k: int| 0 <= k < inc.len() && inc[k] == e_up as usize;
    let at_s = choose|k: int| 0 <= k < inc.len() && inc[k] == e_s as usize;
    let at_t = choose|k: int| 0 <= k < inc.len() && inc[k] == e_t as usize;
    let ups = if up { seq![at_up] } else { Seq::<int>::empty() };
    let ss = if ds { seq![at_s] } else { Seq::<int>::empty() };
    let tt = if dt { seq![at_t] } else { Seq::<int>::empty() };
    let places = ups + ss + tt;
    if up {
        assert(inc[at_up] as int == e_up);
    }
    if ds {
        assert(inc[at_s] as int == e_s);
    }
    if dt {
        assert(inc[at_t] as int == e_t);
    }
    assert(places.no_duplicates()) by {
        assert forall|i: int, j: int|
            0 <= i < places.len() && 0 <= j < places.len() && i != j implies places[i]
            != places[j] by {
            assert(inc[places[i]] as int == inc[places[i]]);
        }
    }
    assert forall|k: int| 0 <= k < flags.len() implies flags[k] == places.contains(k) by {
        lemma_mark_is_taken(space, nodes, edges, g, s, t, n, k);
        if flags[k] {
            if up && inc[k] == e_up {
                assert(places[0] == at_up);
                assert(k == at_up);
            } else if ds && inc[k] == e_s {
                assert(places[ups.len() as int] == at_s);
                assert(k == at_s);
            } else {
                assert(places[(ups.len() + ss.len()) as int] == at_t);
                assert(k == at_t);
            }
        }
        if places.contains(k) {
            let i = choose|i: int| 0 <= i < places.len() && places[i] == k;
        }
    }
    lemma_count_places(flags, places);
}

/// After solving between two distinct nodes of one zone of a finished forest,
/// each of the two has exactly one edge that bears the solution mark, and every
/// other node has two, where the way passes it, or none. `after` is what
/// `solve` leaves of `edges`.
pub proof fn lemma_solved_cells<S: Space>(
    space: &S,
    nodes: Seq<Node>,
    edges: Seq<Edge>,
    roots: nat,
    after: Seq<Edge>,
    s: int,
    t: int,
    n: int,
)
    requires
        space.wf(),
        is_forest(space, nodes, edges, roots),
        roots <= usize::MAX,
        0 <= s < nodes.len(),
        0 <= t < nodes.len(),
        0 <= n < nodes.len(),
        nodes[s].group == nodes[t].group,
        s != t,
        forall|rank: Seq<nat>| #[trigger]
            ranked(space, edges, rank) ==> after == toggle_all(
                toggle_all(edges, root_path(space, edges, rank, s)),
                root_path(space, edges, rank, t),
            ),
    ensures
        n == s || n == t ==> marks_at(space, after, n) == 1,
        n != s && n != t ==> marks_at(space, after, n) == 2 || marks_at(space, after, n) == 0,
{
    let g = choose|g: Growth| oriented(space, nodes, edges, g);
    let seeds = choose|seeds: Seq<usize>| seeds.len() == roots && roots_marked(nodes, seeds);
    assert(grown(space, nodes, edges, g));
    lemma_zone_shares_root(space, nodes, edges, g, seeds, s, t);
    assert(ranked(space, edges, g.rank));
    assert(after == both_ways(space, edges, g, s, t));
    lemma_cell_marks(space, nodes, edges, g, s, t, n);
}

} // verus!
