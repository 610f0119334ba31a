use vstd::prelude::*;
use rand_chacha::ChaCha12Rng;
use crate::count::{count_true, lemma_count_update};
use crate::edge::{Edge, EdgeDirection};
use crate::node::Node;
use crate::rng::random_below;
use crate::space::{border_count, border_flags, connected, crosses, splits, Space};

verus! {

/// The two zones that a border separates, the lower one first.
#[derive(Clone, Copy, Debug)]
pub struct BorderKey(pub usize, pub usize);

impl BorderKey {
    /// The key of the zones `a` and `b`, in either order.
    pub fn new(a: usize, b: usize) -> (k: Self)
        ensures
            k == sorted_key(a, b),
    {
        if a < b {
            Self(a, b)
        } else {
            Self(b, a)
        }
    }

    /// The two zones, the lower one first.
    pub fn into_iter(&self) -> (v: Vec<usize>)
        ensures
            v@ == seq![self.0, self.1],
    {
        let mut v: Vec<usize> = Vec::new();
        v.push(self.0);
        v.push(self.1);
        assert(v@ =~= seq![self.0, self.1]);
        v
    }
}

/// The key of two zones: the lower one first.
pub open spec fn sorted_key(a: usize, b: usize) -> BorderKey {
    if a < b {
        BorderKey(a, b)
    } else {
        BorderKey(b, a)
    }
}

/// The edges of the grid that straddle one pair of zones, in the order in which
/// they were found, and the one among them that was opened, if any.
#[derive(Debug)]
pub struct Border {
    pub key: BorderKey,
    pub edges: Vec<usize>,
    pub gateway: Option<usize>,
}

impl Border {
    /// The border has an edge, and its gateway, where one is chosen, is one of
    /// its edges.
    pub open spec fn valid(&self) -> bool {
        &&& self.edges@.len() > 0
        &&& (self.gateway.is_some() ==> self.edges@.contains(self.gateway.unwrap()))
    }

    /// A border of one edge, without a gateway.
    pub fn new(key: BorderKey, edge_id: usize) -> (b: Self)
        ensures
            b.key == key,
            b.edges@ == seq![edge_id],
            b.gateway.is_none(),
            b.valid(),
    {
        let mut edges: Vec<usize> = Vec::new();
        edges.push(edge_id);
        assert(edges@ =~= seq![edge_id]);
        Self { key, edges, gateway: None }
    }

    /// Whether the zone is one of the two that the border separates.
    pub open spec fn touches(&self, node_group: usize) -> bool {
        self.key.0 == node_group || self.key.1 == node_group
    }

    /// Whether the zone is one of the two that the border separates.
    pub fn matches_group(&self, node_group: usize) -> (b: bool)
        ensures
            b == self.touches(node_group),
    {
        self.key.0 == node_group || self.key.1 == node_group
    }

    /// Whether the border separates exactly the zones of `key`.
    pub fn matches_key(&self, key: &BorderKey) -> (b: bool)
        ensures
            b == (self.key == *key),
    {
        self.key.0 == key.0 && self.key.1 == key.1
    }

    /// Adds an edge at the end of the list.
    pub fn push(&mut self, edge_id: usize)
        ensures
            final(self).key == old(self).key,
            final(self).gateway == old(self).gateway,
            final(self).edges@ == old(self).edges@.push(edge_id),
            old(self).valid() ==> final(self).valid(),
    {
        let ghost before = self.edges@;
        self.edges.push(edge_id);
        proof {
            if old(self).valid() && self.gateway.is_some() {
                let k = choose|k: int| 0 <= k < before.len() && before[k] == self.gateway.unwrap();
                assert(self.edges@[k] == self.gateway.unwrap());
            }
        }
    }

    /// The gateway of the border: the one chosen before, if any, else one of the
    /// border's edges, drawn at random and kept from then on. Either way it is
    /// one of the border's edges.
    pub fn choose_gateway(&mut self, rng: &mut ChaCha12Rng) -> (gw: usize)
        requires
            old(self).valid(),
        ensures
            final(self).valid(),
            final(self).key == old(self).key,
            final(self).edges@ == old(self).edges@,
            final(self).gateway == Some(gw),
            old(self).gateway.is_some() ==> old(self).gateway == Some(gw),
            old(self).edges@.contains(gw),
    {
        match self.gateway {
            Some(gw) => gw,
            None => {
                let pick = random_below(rng, self.edges.len());
                let gw = self.edges[pick];
                self.gateway = Some(gw);
                gw
            },
        }
    }
}

/// The borders among the first `upto` that touch zone `group`, by number.
pub open spec fn touching(borders: Seq<Border>, group: usize, upto: nat) -> Seq<usize>
    decreases upto,
{
    if upto == 0 {
        Seq::<usize>::empty()
    } else {
        let rest = touching(borders, group, (upto - 1) as nat);
        if borders[upto - 1].touches(group) {
            rest.push((upto - 1) as usize)
        } else {
            rest
        }
    }
}

/// `touching` lists exactly the borders that touch the zone, in rising order.
pub proof fn lemma_touching(borders: Seq<Border>, group: usize, upto: nat)
    requires
        upto <= borders.len(),
        upto <= usize::MAX,
    ensures
        forall|i: int|
            0 <= i < touching(borders, group, upto).len() ==> {
                &&& (#[trigger] touching(borders, group, upto)[i]) < upto
                &&& borders[touching(borders, group, upto)[i] as int].touches(group)
            },
        forall|i: int, j: int|
            0 <= i < j < touching(borders, group, upto).len() ==> (#[trigger] touching(
                borders,
                group,
                upto,
            )[i]) < (#[trigger] touching(borders, group, upto)[j]),
        forall|b: int|
            0 <= b < upto && (#[trigger] borders[b]).touches(group) ==> touching(
                borders,
                group,
                upto,
            ).contains(b as usize),
    decreases upto,
{
    if upto > 0 {
        let rest = touching(borders, group, (upto - 1) as nat);
        lemma_touching(borders, group, (upto - 1) as nat);
        let all = touching(borders, group, upto);
        assert forall|b: int| 0 <= b < upto && (#[trigger] borders[b]).touches(group) implies all.contains(
            b as usize,
        ) by {
            if b == upto - 1 {
                assert(all[all.len() - 1] == b as usize);
            } else {
                let k = choose|k: int| 0 <= k < rest.len() && rest[k] == b as usize;
                assert(all[k] == b as usize);
            }
        }
    }
}

/// Whether some border touches the zone.
pub open spec fn has_border(borders: Seq<Border>, group: usize) -> bool {
    exists|b: int| 0 <= b < borders.len() && (#[trigger] borders[b]).touches(group)
}

/// For each meta edge, whether it is open: anything but `Closed`.
pub open spec fn open_flags(meta_edges: Seq<Edge>) -> Seq<bool> {
    Seq::new(meta_edges.len(), |i: int| meta_edges[i].direction != EdgeDirection::Closed)
}

/// Whether `e` is the gateway of one of the first `upto` borders whose meta
/// edge is open.
pub open spec fn opened(borders: Seq<Border>, meta_edges: Seq<Edge>, upto: int, e: int) -> bool {
    exists|b: int|
        0 <= b < upto && (#[trigger] meta_edges[b]).direction != EdgeDirection::Closed
            && borders[b].gateway == Some(e as usize)
}

/// Choosing a gateway among a border's edges keeps the borders a geometry.
proof fn lemma_gateway_keeps_valid(zones: Seq<usize>, before: Seq<Border>, after: Seq<Border>, at: int)
    requires
        meta_valid(zones, before),
        0 <= at < before.len(),
        after.len() == before.len(),
        forall|k: int| 0 <= k < before.len() && k != at ==> after[k] == before[k],
        after[at].key == before[at].key,
        after[at].edges@ == before[at].edges@,
        after[at].gateway.is_some(),
        after[at].edges@.contains(after[at].gateway.unwrap()),
    ensures
        meta_valid(zones, after),
{
    assert(forall|k: int|
        0 <= k < before.len() ==> (#[trigger] after[k]).key == before[k].key && after[k].edges@
            == before[k].edges@);
    assert forall|i: int| 0 <= i < zones.len() implies #[trigger] has_border(after, zones[i]) by {
        assert(has_border(before, zones[i]));
        let b = choose|b: int| 0 <= b < before.len() && (#[trigger] before[b]).touches(zones[i]);
        assert(after[b].touches(zones[i]));
    }
    assert forall|b: int| 0 <= b < after.len() implies {
        &&& (#[trigger] after[b]).key.0 < after[b].key.1
        &&& zones.contains(after[b].key.0)
        &&& zones.contains(after[b].key.1)
        &&& after[b].edges@.len() > 0
        &&& (after[b].gateway.is_some() ==> after[b].edges@.contains(after[b].gateway.unwrap()))
    } by {
        assert(before[b].key == after[b].key);
    }
    assert forall|a: int, b: int, i: int, j: int|
        0 <= a < after.len() && 0 <= b < after.len() && a != b && 0 <= i < after[a].edges@.len()
            && 0 <= j < after[b].edges@.len() implies #[trigger] after[a].edges@[i]
        != #[trigger] after[b].edges@[j] by {
        assert(after[a].edges@[i] == before[a].edges@[i]);
        assert(after[b].edges@[j] == before[b].edges@[j]);
    }
}

/// The zones and borders of a grid that a forest has cut into zones, as a
/// geometry of its own: each zone that has a border is a node, each border an edge.
#[derive(Debug)]
pub struct SpaceMeta {
    node_groups: Vec<usize>,
    borders: Vec<Border>,
}

impl SpaceMeta {
    /// The zones that have a border, in the order in which they were found.
    pub closed spec fn zone_groups(&self) -> Seq<usize> {
        self.node_groups@
    }

    /// The borders, in the order in which they were found.
    pub closed spec fn border_list(&self) -> Seq<Border> {
        self.borders@
    }

    /// The place of a zone in `zone_groups`.
    pub open spec fn zone_place(&self, group: usize) -> int {
        choose|i: int| 0 <= i < self.zone_groups().len() && self.zone_groups()[i] == group
    }

    /// The zones are listed once each and each has a border; a border separates
    /// two listed zones, the lower one first, and has an edge; no two borders
    /// separate the same zones or share an edge; a gateway is one of its
    /// border's edges.
    pub open spec fn valid(&self) -> bool {
        &&& meta_valid(self.zone_groups(), self.border_list())
        &&& self.border_list().len() < usize::MAX
    }

    /// Every edge of every border is below `edge_total`.
    pub open spec fn fits(&self, edge_total: nat) -> bool {
        forall|b: int, i: int|
            0 <= b < self.border_list().len() && 0 <= i < self.border_list()[b].edges@.len()
                ==> (#[trigger] self.border_list()[b].edges@[i]) < edge_total
    }

    /// The gateway of a border, if one was chosen; `None` for a number that is
    /// no border's.
    pub fn gateway(&self, border_id: usize) -> (r: Option<usize>)
        ensures
            r == if border_id < self.border_list().len() {
                self.border_list()[border_id as int].gateway
            } else {
                None
            },
    {
        if border_id < self.borders.len() {
            self.borders[border_id].gateway
        } else {
            None
        }
    }

    /// The place of a zone among the zones that have a border: the first place at
    /// which it is listed, or `None` if it is not listed.
    pub fn zone_index(&self, group_id: usize) -> (r: Option<usize>)
        ensures
            match r {
                Some(i) => {
                    &&& i < self.zone_groups().len()
                    &&& self.zone_groups()[i as int] == group_id
                    &&& forall|j: int| 0 <= j < i ==> self.zone_groups()[j] != group_id
                },
                None => !self.zone_groups().contains(group_id),
            },
    {
        let mut i: usize = 0;
        while i < self.node_groups.len()
            invariant
                i <= self.node_groups.len(),
                forall|j: int| 0 <= j < i ==> self.node_groups@[j] != group_id,
            decreases self.node_groups.len() - i,
        {
            if self.node_groups[i] == group_id {
                return Some(i);
            }
            i += 1;
        }
        None
    }
}

/// The first of the first `upto` edges that joins zone `group` to another zone,
/// or `upto` if none of them does.
pub open spec fn seen_at<S: Space>(space: &S, nodes: Seq<Node>, group: usize, upto: nat) -> nat
    decreases upto,
{
    if upto == 0 {
        0
    } else {
        let before = seen_at(space, nodes, group, (upto - 1) as nat);
        if before < upto - 1 {
            before
        } else if straddles(space, nodes, upto - 1) && (edge_key(space, nodes, upto - 1).0 == group
            || edge_key(space, nodes, upto - 1).1 == group) {
            (upto - 1) as nat
        } else {
            upto
        }
    }
}

/// The zones are those that one of the first `upto` edges joins to another
/// zone, in the order in which these edges first do so; the lower of the two
/// zones of an edge comes first.
#[verifier::opaque]
pub open spec fn zones_in_order<S: Space>(
    zones: Seq<usize>,
    space: &S,
    nodes: Seq<Node>,
    upto: nat,
) -> bool {
    &&& forall|g: usize| zones.contains(g) <==> (#[trigger] seen_at(space, nodes, g, upto)) < upto
    &&& forall|i: int, j: int|
        0 <= i < j < zones.len() ==> seen_at(space, nodes, #[trigger] zones[i], upto) < seen_at(
            space,
            nodes,
            #[trigger] zones[j],
            upto,
        ) || (seen_at(space, nodes, zones[i], upto) == seen_at(space, nodes, zones[j], upto)
            && zones[i] < zones[j])
}

/// Looking at one more edge keeps the zones in the order in which they were
/// found.
proof fn lemma_zone_order_step<S: Space>(
    space: &S,
    nodes: Seq<Node>,
    eid: usize,
    zones0: Seq<usize>,
    zones: Seq<usize>,
)
    requires
        zones_in_order(zones0, space, nodes, eid as nat),
        !straddles(space, nodes, eid as int) ==> zones == zones0,
        straddles(space, nodes, eid as int) ==> zones == zones0 + (if zones0.contains(
            edge_key(space, nodes, eid as int).0,
        ) {
            Seq::<usize>::empty()
        } else {
            seq![edge_key(space, nodes, eid as int).0]
        }) + (if zones0.contains(edge_key(space, nodes, eid as int).1) {
            Seq::<usize>::empty()
        } else {
            seq![edge_key(space, nodes, eid as int).1]
        }),
        edge_key(space, nodes, eid as int).0 <= edge_key(space, nodes, eid as int).1,
        straddles(space, nodes, eid as int) ==> edge_key(space, nodes, eid as int).0 < edge_key(
            space,
            nodes,
            eid as int,
        ).1,
    ensures
        zones_in_order(zones, space, nodes, (eid + 1) as nat),
{
    reveal(zones_in_order);
    let key = edge_key(space, nodes, eid as int);
    let hit = straddles(space, nodes, eid as int);
    assert forall|g: usize|
        (#[trigger] seen_at(space, nodes, g, (eid + 1) as nat)) == (if zones0.contains(g) {
            seen_at(space, nodes, g, eid as nat)
        } else if hit && (key.0 == g || key.1 == g) {
            eid as nat
        } else {
            (eid + 1) as nat
        }) && (zones0.contains(g) ==> seen_at(space, nodes, g, eid as nat) < eid) by {
        lemma_seen_bound(space, nodes, g, eid as nat);
        assert(zones0.contains(g) <==> seen_at(space, nodes, g, eid as nat) < eid);
    }
    assert forall|g: usize| zones.contains(g) <==> (#[trigger] seen_at(
        space,
        nodes,
        g,
        (eid + 1) as nat,
    )) < eid + 1 by {
        if zones0.contains(g) {
            let i = choose|i: int| 0 <= i < zones0.len() && zones0[i] == g;
            assert(zones[i] == g);
        }
        if zones.contains(g) && !zones0.contains(g) {
            let i = choose|i: int| 0 <= i < zones.len() && zones[i] == g;
            assert(i >= zones0.len());
        }
        if hit && !zones0.contains(g) && (key.0 == g || key.1 == g) {
            if key.0 == g {
                assert(zones[zones0.len() as int] == g);
            } else {
                assert(zones[zones.len() - 1] == g);
            }
        }
    }
    assert forall|i: int, j: int| 0 <= i < j < zones.len() implies seen_at(
        space,
        nodes,
        #[trigger] zones[i],
        (eid + 1) as nat,
    ) < seen_at(space, nodes, #[trigger] zones[j], (eid + 1) as nat) || (seen_at(
        space,
        nodes,
        zones[i],
        (eid + 1) as nat,
    ) == seen_at(space, nodes, zones[j], (eid + 1) as nat) && zones[i] < zones[j]) by {
        if j < zones0.len() {
            assert(zones[i] == zones0[i] && zones[j] == zones0[j]);
            assert(zones0.contains(zones0[i]) && zones0.contains(zones0[j]));
        } else if i < zones0.len() {
            assert(zones[i] == zones0[i]);
            assert(zones0.contains(zones0[i]));
            assert(!zones0.contains(zones[j]));
        } else {
            assert(zones[i] == key.0 && zones[j] == key.1);
        }
    }
}

/// Two zones taken into the list of zones, each where it was not in it, leave
/// the list with those of the two added that it did not hold.
proof fn lemma_two_pushes(
    zones0: Seq<usize>,
    zones1: Seq<usize>,
    zones: Seq<usize>,
    k0: usize,
    k1: usize,
    first_new: bool,
    second_new: bool,
)
    requires
        k0 != k1,
        first_new == !zones0.contains(k0),
        second_new == !zones1.contains(k1),
        zones1 == if first_new {
            zones0.push(k0)
        } else {
            zones0
        },
        zones == if second_new {
            zones1.push(k1)
        } else {
            zones1
        },
    ensures
        zones == zones0 + (if zones0.contains(k0) {
            Seq::<usize>::empty()
        } else {
            seq![k0]
        }) + (if zones0.contains(k1) {
            Seq::<usize>::empty()
        } else {
            seq![k1]
        }),
{
    if zones1.contains(k1) {
        let k = choose|k: int| 0 <= k < zones1.len() && zones1[k] == k1;
        assert(zones0[k] == k1);
    }
    if zones0.contains(k1) {
        let k = choose|k: int| 0 <= k < zones0.len() && zones0[k] == k1;
        assert(zones1[k] == k1);
    }
    assert(zones =~= zones0 + (if zones0.contains(k0) {
        Seq::<usize>::empty()
    } else {
        seq![k0]
    }) + (if zones0.contains(k1) {
        Seq::<usize>::empty()
    } else {
        seq![k1]
    }));
}

/// Before any edge was looked at there is no zone.
proof fn lemma_zone_order_start<S: Space>(space: &S, nodes: Seq<Node>)
    ensures
        zones_in_order(Seq::<usize>::empty(), space, nodes, 0),
{
    reveal(zones_in_order);
}

/// An edge is first seen among the first `upto` or not at all.
proof fn lemma_seen_bound<S: Space>(space: &S, nodes: Seq<Node>, group: usize, upto: nat)
    ensures
        seen_at(space, nodes, group, upto) <= upto,
    decreases upto,
{
    if upto > 0 {
        lemma_seen_bound(space, nodes, group, (upto - 1) as nat);
    }
}

/// What makes a list of zones and a list of borders a geometry: see
/// `SpaceMeta::valid`.
pub open spec fn meta_valid(zones: Seq<usize>, borders: Seq<Border>) -> bool {
    &&& forall|i: int, j: int| 0 <= i < j < zones.len() ==> zones[i] != zones[j]
    &&& forall|i: int| 0 <= i < zones.len() ==> #[trigger] has_border(borders, zones[i])
    &&& forall|b: int|
        0 <= b < borders.len() ==> {
            &&& (#[trigger] borders[b]).key.0 < borders[b].key.1
            &&& zones.contains(borders[b].key.0)
            &&& zones.contains(borders[b].key.1)
            &&& borders[b].edges@.len() > 0
            &&& (borders[b].gateway.is_some() ==> borders[b].edges@.contains(
                borders[b].gateway.unwrap(),
            ))
        }
    &&& forall|a: int, b: int|
        0 <= a < b < borders.len() ==> (#[trigger] borders[a]).key != (#[trigger] borders[b]).key
    &&& forall|a: int, b: int, i: int, j: int|
        0 <= a < borders.len() && 0 <= b < borders.len() && a != b && 0 <= i
            < borders[a].edges@.len() && 0 <= j < borders[b].edges@.len()
            ==> #[trigger] borders[a].edges@[i] != #[trigger] borders[b].edges@[j]
}

/// The zone of a node that has one.
pub open spec fn zone_of(nodes: Seq<Node>, n: int) -> usize {
    nodes[n].group.unwrap()
}

/// Whether the two ends of an edge lie in different zones.
pub open spec fn straddles<S: Space>(space: &S, nodes: Seq<Node>, e: int) -> bool {
    zone_of(nodes, space.ends(e)[0] as int) != zone_of(nodes, space.ends(e)[1] as int)
}

/// The key of the zones of the two ends of an edge.
pub open spec fn edge_key<S: Space>(space: &S, nodes: Seq<Node>, e: int) -> BorderKey {
    sorted_key(zone_of(nodes, space.ends(e)[0] as int), zone_of(nodes, space.ends(e)[1] as int))
}

/// Whether some border of the key of edge `e` lists `e`.
pub open spec fn has_home<S: Space>(borders: Seq<Border>, space: &S, nodes: Seq<Node>, e: int) -> bool {
    exists|b: int|
        0 <= b < borders.len() && (#[trigger] borders[b]).key == edge_key(space, nodes, e)
            && borders[b].edges@.contains(e as usize)
}

/// The borders hold exactly those of the first `upto` edges of the geometry
/// whose ends lie in different zones, each in the border of its two zones and
/// in rising order; the borders come in the order of their first edges; no
/// gateway is chosen.
pub open spec fn meta_describes<S: Space>(
    borders: Seq<Border>,
    space: &S,
    nodes: Seq<Node>,
    upto: nat,
) -> bool {
    &&& forall|b: int, i: int|
        0 <= b < borders.len() && 0 <= i < borders[b].edges@.len() ==> {
            &&& (#[trigger] borders[b].edges@[i]) < upto
            &&& straddles(space, nodes, borders[b].edges@[i] as int)
            &&& edge_key(space, nodes, borders[b].edges@[i] as int) == borders[b].key
        }
    &&& forall|e: int|
        0 <= e < upto && straddles(space, nodes, e) ==> #[trigger] has_home(
            borders,
            space,
            nodes,
            e,
        )
    &&& forall|b: int, i: int, j: int|
        0 <= b < borders.len() && 0 <= i < j < borders[b].edges@.len() ==> (
        #[trigger] borders[b].edges@[i]) < (#[trigger] borders[b].edges@[j])
    &&& forall|a: int, b: int|
        0 <= a < b < borders.len() ==> (#[trigger] borders[a]).edges@[0] < (
        #[trigger] borders[b]).edges@[0]
    &&& forall|b: int| 0 <= b < borders.len() ==> (#[trigger] borders[b]).gateway.is_none()
}

/// Taking one more edge into the borders keeps them a geometry that describes
/// the edges seen so far.
proof fn lemma_take_edge<S: Space>(
    space: &S,
    nodes: Seq<Node>,
    eid: usize,
    bk: BorderKey,
    zones0: Seq<usize>,
    before: Seq<Border>,
    zones: Seq<usize>,
    after: Seq<Border>,
    at: int,
)
    requires
        meta_valid(zones0, before),
        meta_describes(before, space, nodes, eid as nat),
        straddles(space, nodes, eid as int),
        bk == edge_key(space, nodes, eid as int),
        0 <= at <= before.len(),
        at < before.len() ==> after.len() == before.len() && before[at].key == bk,
        at == before.len() ==> after.len() == before.len() + 1 && forall|k: int|
            0 <= k < before.len() ==> (#[trigger] before[k]).key != bk,
        forall|k: int| 0 <= k < before.len() && k != at ==> after[k] == before[k],
        after[at].key == bk,
        after[at].gateway.is_none(),
        at < before.len() ==> after[at].edges@ == before[at].edges@.push(eid),
        at == before.len() ==> after[at].edges@ == seq![eid],
        zones0.len() <= zones.len(),
        forall|i: int| 0 <= i < zones0.len() ==> zones[i] == zones0[i],
        forall|i: int| zones0.len() <= i < zones.len() ==> zones[i] == bk.0 || zones[i] == bk.1,
        forall|i: int, j: int| 0 <= i < j < zones.len() ==> zones[i] != zones[j],
        zones.contains(bk.0),
        zones.contains(bk.1),
    ensures
        meta_valid(zones, after),
        meta_describes(after, space, nodes, (eid + 1) as nat),
{
    assert(after[at].edges@[after[at].edges@.len() - 1] == eid);
    assert(forall|k: int|
        0 <= k < before.len() ==> (#[trigger] after[k]).key == before[k].key && after[k].gateway
            == before[k].gateway);
    assert(forall|k: int, i: int|
        0 <= k < before.len() && 0 <= i < before[k].edges@.len() ==> (
        #[trigger] after[k].edges@[i]) == before[k].edges@[i]);
    assert forall|g: usize| zones0.contains(g) implies zones.contains(g) by {
        let i = choose|i: int| 0 <= i < zones0.len() && zones0[i] == g;
        assert(zones[i] == g);
    }
    assert forall|i: int| 0 <= i < zones.len() implies #[trigger] has_border(after, zones[i]) by {
        if i < zones0.len() {
            assert(has_border(before, zones0[i]));
            let b = choose|b: int|
                0 <= b < before.len() && (#[trigger] before[b]).touches(zones0[i]);
            assert(after[b].touches(zones[i]));
        } else {
            assert(after[at].touches(zones[i]));
        }
    }
    assert forall|e: int|
        0 <= e < eid + 1 && straddles(space, nodes, e) implies #[trigger] has_home(
        after,
        space,
        nodes,
        e,
    ) by {
        if e == eid {
            assert(after[at].key == edge_key(space, nodes, e));
        } else {
            assert(has_home(before, space, nodes, e));
            let b = choose|b: int|
                0 <= b < before.len() && (#[trigger] before[b]).key == edge_key(space, nodes, e)
                    && before[b].edges@.contains(e as usize);
            let i = choose|i: int|
                0 <= i < before[b].edges@.len() && before[b].edges@[i] == e as usize;
            assert(after[b].edges@[i] == e as usize);
        }
    }
    assert forall|b: int| 0 <= b < after.len() implies {
        &&& (#[trigger] after[b]).key.0 < after[b].key.1
        &&& zones.contains(after[b].key.0)
        &&& zones.contains(after[b].key.1)
        &&& after[b].edges@.len() > 0
        &&& (after[b].gateway.is_some() ==> after[b].edges@.contains(after[b].gateway.unwrap()))
    } by {
        if b < before.len() {
            assert(before[b].key == after[b].key);
            assert(before[b].gateway.is_none());
        }
    }
    assert forall|a: int, b: int, i: int, j: int|
        0 <= a < after.len() && 0 <= b < after.len() && a != b && 0 <= i < after[a].edges@.len()
            && 0 <= j < after[b].edges@.len() implies #[trigger] after[a].edges@[i]
        != #[trigger] after[b].edges@[j] by {
        if a < before.len() && i < before[a].edges@.len() {
            assert(after[a].edges@[i] == before[a].edges@[i]);
        }
        if b < before.len() && j < before[b].edges@.len() {
            assert(after[b].edges@[j] == before[b].edges@[j]);
        }
    }
    assert forall|b: int, i: int|
        0 <= b < after.len() && 0 <= i < after[b].edges@.len() implies {
        &&& (#[trigger] after[b].edges@[i]) < eid + 1
        &&& straddles(space, nodes, after[b].edges@[i] as int)
        &&& edge_key(space, nodes, after[b].edges@[i] as int) == after[b].key
    } by {
        if b < before.len() && i < before[b].edges@.len() {
            assert(after[b].edges@[i] == before[b].edges@[i]);
        }
    }
    assert forall|b: int, i: int, j: int|
        0 <= b < after.len() && 0 <= i < j < after[b].edges@.len() implies (
    #[trigger] after[b].edges@[i]) < (#[trigger] after[b].edges@[j]) by {
        if b < before.len() && i < before[b].edges@.len() {
            assert(after[b].edges@[i] == before[b].edges@[i]);
        }
        if b < before.len() && j < before[b].edges@.len() {
            assert(after[b].edges@[j] == before[b].edges@[j]);
        }
    }
    assert forall|a: int, b: int| 0 <= a < b < after.len() implies (#[trigger] after[a]).edges@[0]
        < (#[trigger] after[b]).edges@[0] by {
        assert(after[a].edges@[0] == before[a].edges@[0]);
        if b < before.len() {
            assert(after[b].edges@[0] == before[b].edges@[0]);
        } else {
            assert(before[a].edges@[0] < eid);
        }
    }
}

impl SpaceMeta {
    /// The borders hold exactly those of the first `upto` edges of the geometry
    /// whose ends lie in different zones: see `meta_describes`.
    pub open spec fn describes<S: Space>(&self, space: &S, nodes: Seq<Node>, upto: nat) -> bool {
        meta_describes(self.border_list(), space, nodes, upto)
    }

    /// A listed zone has exactly one place.
    pub proof fn lemma_zone_place(&self, group: usize)
        requires
            self.valid(),
            self.zone_groups().contains(group),
        ensures
            0 <= self.zone_place(group) < self.zone_groups().len(),
            self.zone_groups()[self.zone_place(group)] == group,
            forall|i: int|
                0 <= i < self.zone_groups().len() && self.zone_groups()[i] == group ==> i
                    == self.zone_place(group),
    {
        let k = choose|k: int| 0 <= k < self.zone_groups().len() && self.zone_groups()[k] == group;
    }

    /// The zones and borders that the zones of `nodes` cut the geometry into:
    /// each edge whose ends lie in two zones goes, in rising order, into the
    /// border of these two, and zones and borders are listed as they are found.
    pub fn new<S: Space>(space: &S, edges: &Vec<Edge>, nodes: &Vec<Node>) -> (this: Self)
        requires
            space.wf(),
            edges.len() == space.edge_count(),
            nodes.len() == space.node_count(),
            forall|n: int| 0 <= n < nodes.len() ==> (#[trigger] nodes@[n]).group.is_some(),
        ensures
            this.valid(),
            this.fits(space.edge_count()),
            this.describes(space, nodes@, space.edge_count()),
            zones_in_order(this.zone_groups(), space, nodes@, space.edge_count()),
    {
        let mut this = Self { node_groups: Vec::new(), borders: Vec::new() };
        proof {
            space.geometry();
            lemma_zone_order_start(space, nodes@);
        }
        let mut eid: usize = 0;
        while eid < edges.len()
            invariant
                eid <= edges.len(),
                space.wf(),
                edges.len() == space.edge_count(),
                nodes.len() == space.node_count(),
                forall|n: int| 0 <= n < nodes.len() ==> (#[trigger] nodes@[n]).group.is_some(),
                this.valid(),
                this.borders.len() <= eid,
                edges.len() < usize::MAX,
                this.describes(space, nodes@, eid as nat),
                zones_in_order(this.node_groups@, space, nodes@, eid as nat),
            decreases edges.len() - eid,
        {
            let ghost zones_before = this.node_groups@;
            let ends = space.edge_nodes(eid);
            proof {
                space.geometry();
            }
            let a = nodes[ends[0]].group.unwrap();
            let b = nodes[ends[1]].group.unwrap();
            if a != b {
                let bk = BorderKey::new(a, b);
                let ghost before = this.borders@;
                let ghost zones0 = this.node_groups@;
                let mut found: Option<usize> = None;
                let mut j: usize = 0;
                while j < this.borders.len() && found.is_none()
                    invariant
                        j <= this.borders.len(),
                        this.borders@ == before,
                        this.node_groups@ == zones0,
                        forall|k: int|
                            0 <= k < j && found.is_none() ==> (#[trigger] this.borders@[k]).key
                                != bk,
                        found.is_some() ==> found.unwrap() < this.borders.len()
                            && this.borders@[found.unwrap() as int].key == bk,
                    decreases this.borders.len() - j, found.is_none() as int,
                {
                    if this.borders[j].matches_key(&bk) {
                        found = Some(j);
                    } else {
                        j += 1;
                    }
                }
                match found {
                    Some(at) => {
                        this.borders[at].push(eid);
                        proof {
                            let after = this.borders@;
                            assert(after.len() == before.len());
                            assert(forall|k: int|
                                0 <= k < before.len() && k != at ==> after[k] == before[k]);
                            assert(after[at as int].edges@ == before[at as int].edges@.push(eid));
                        }
                    },
                    None => {
                        this.borders.push(Border::new(bk, eid));
                    },
                }
                let ghost after = this.borders@;
                let ghost at: int = match found {
                    Some(at) => at as int,
                    None => before.len() as int,
                };
                let first_new = this.zone_index(bk.0).is_none();
                if first_new {
                    this.node_groups.push(bk.0);
                }
                let ghost zones1 = this.node_groups@;
                proof {
                    if zones1.len() > zones0.len() {
                        assert(zones1[zones0.len() as int] == bk.0);
                    }
                    assert(zones1.contains(bk.0));
                }
                let second_new = this.zone_index(bk.1).is_none();
                if second_new {
                    this.node_groups.push(bk.1);
                }
                proof {
                    let zones = this.node_groups@;
                    if zones.len() > zones1.len() {
                        assert(zones[zones1.len() as int] == bk.1);
                    }
                    assert(zones.contains(bk.1));
                    let i = choose|i: int| 0 <= i < zones1.len() && zones1[i] == bk.0;
                    assert(zones[i] == bk.0);
                    lemma_take_edge(space, nodes@, eid, bk, zones0, before, zones, after, at);
                    lemma_two_pushes(zones0, zones1, zones, bk.0, bk.1, first_new, second_new);
                    lemma_zone_order_step(space, nodes@, eid, zones0, zones);
                }
            } else {
                proof {
                    lemma_zone_order_step(space, nodes@, eid, zones_before, this.node_groups@);
                }
            }
            eid += 1;
        }
        this
    }
    /// Opens one gateway in each border whose meta edge is not `Closed`: the one
    /// chosen before, if any, else one of the border's edges drawn at random. The
    /// gateway's edge becomes a `Border` edge; nothing else changes. Where no edge
    /// was a `Border` edge before, there are afterwards as many as open meta edges.
    pub fn open_gateways(
        &mut self,
        meta_edges: &Vec<Edge>,
        edges: &mut Vec<Edge>,
        rng: &mut ChaCha12Rng,
    )
        requires
            old(self).valid(),
            old(self).fits(old(edges)@.len()),
            meta_edges.len() == old(self).border_list().len(),
        ensures
            final(self).valid(),
            final(self).fits(final(edges)@.len()),
            final(self).zone_groups() == old(self).zone_groups(),
            final(self).border_list().len() == old(self).border_list().len(),
            final(edges)@.len() == old(edges)@.len(),
            forall|b: int|
                0 <= b < meta_edges.len() ==> {
                    &&& (#[trigger] final(self).border_list()[b]).key == old(self).border_list()[b].key
                    &&& final(self).border_list()[b].edges@ == old(self).border_list()[b].edges@
                    &&& (old(self).border_list()[b].gateway.is_some()
                        || meta_edges@[b].direction == EdgeDirection::Closed ==> final(self).border_list()[b].gateway == old(self).border_list()[b].gateway)
                    &&& (meta_edges@[b].direction != EdgeDirection::Closed ==> final(self).border_list()[b].gateway.is_some())
                },
            forall|e: int|
                0 <= e < old(edges)@.len() ==> (#[trigger] final(edges)@[e]) == (if opened(
                    final(self).border_list(),
                    meta_edges@,
                    meta_edges@.len() as int,
                    e,
                ) {
                    Edge { direction: EdgeDirection::Border, solution: old(edges)@[e].solution }
                } else {
                    old(edges)@[e]
                }),
            (forall|e: int|
                0 <= e < old(edges)@.len() ==> (#[trigger] old(edges)@[e]).direction
                    != EdgeDirection::Border) ==> border_count(final(edges)@) == count_true(
                open_flags(meta_edges@),
            ),
    {
        let ghost clean = forall|e: int|
            0 <= e < old(edges)@.len() ==> (#[trigger] old(edges)@[e]).direction
                != EdgeDirection::Border;
        proof {
            assert(open_flags(meta_edges@).take(0) =~= Seq::<bool>::empty());
            if clean {
                crate::count::lemma_count_none(border_flags(edges@));
            }
        }
        let total = edges.len();
        let mut meid: usize = 0;
        while meid < meta_edges.len()
            invariant
                meid <= meta_edges.len(),
                total == edges@.len(),
                meta_edges.len() == self.borders.len(),
                self.valid(),
                self.fits(edges@.len()),
                edges@.len() == old(edges)@.len(),
                self.node_groups@ == old(self).node_groups@,
                self.borders.len() == old(self).borders.len(),
                clean == (forall|e: int|
                    0 <= e < old(edges)@.len() ==> (#[trigger] old(edges)@[e]).direction
                        != EdgeDirection::Border),
                forall|b: int|
                    0 <= b < meta_edges.len() ==> {
                        &&& (#[trigger] self.borders@[b]).key == old(self).borders@[b].key
                        &&& self.borders@[b].edges@ == old(self).borders@[b].edges@
                        &&& (old(self).borders@[b].gateway.is_some() || b >= meid
                            || meta_edges@[b].direction == EdgeDirection::Closed
                            ==> self.borders@[b].gateway == old(self).borders@[b].gateway)
                        &&& (b < meid && meta_edges@[b].direction != EdgeDirection::Closed
                            ==> self.borders@[b].gateway.is_some())
                    },
                forall|e: int|
                    0 <= e < edges@.len() ==> (#[trigger] edges@[e]) == (if opened(
                        self.borders@,
                        meta_edges@,
                        meid as int,
                        e,
                    ) {
                        Edge { direction: EdgeDirection::Border, solution: old(edges)@[e].solution }
                    } else {
                        old(edges)@[e]
                    }),
                clean ==> border_count(edges@) == count_true(open_flags(meta_edges@).take(meid as int)),
            decreases meta_edges.len() - meid,
        {
            let ghost flags = open_flags(meta_edges@);
            proof {
                assert(flags.take(meid + 1).drop_last() =~= flags.take(meid as int));
            }
            if meta_edges[meid].direction != EdgeDirection::Closed {
                let ghost before = self.borders@;
                let ghost edges0 = edges@;
                let gw = self.borders[meid].choose_gateway(rng);
                let ghost after = self.borders@;
                proof {
                    assert(after.len() == before.len());
                    assert(forall|k: int|
                        0 <= k < before.len() && k != meid ==> after[k] == before[k]);
                    if before[meid as int].gateway.is_some() {
                        assert(before[meid as int].edges@.contains(gw));
                    }
                    lemma_gateway_keeps_valid(self.node_groups@, before, after, meid as int);
                    let i = choose|i: int|
                        0 <= i < before[meid as int].edges@.len() && before[meid as int].edges@[i]
                            == gw;
                    assert(before[meid as int].edges@[i] < edges@.len());
                }
                let opened_edge = Edge {
                    direction: EdgeDirection::Border,
                    solution: edges[gw].solution,
                };
                edges.set(gw, opened_edge);
                proof {
                    assert(after[meid as int].gateway == Some(gw));
                    assert forall|e: int| 0 <= e < edges@.len() implies opened(
                        after,
                        meta_edges@,
                        meid + 1,
                        e,
                    ) == (opened(before, meta_edges@, meid as int, e) || e == gw) by {
                        assert(e as usize == e);
                        if opened(before, meta_edges@, meid as int, e) {
                            let b = choose|b: int|
                                0 <= b < meid && (#[trigger] meta_edges@[b]).direction
                                    != EdgeDirection::Closed && before[b].gateway == Some(
                                    e as usize,
                                );
                            assert(after[b].gateway == Some(e as usize));
                        }
                        if e == gw {
                            assert(meta_edges@[meid as int].direction != EdgeDirection::Closed);
                        }
                        if opened(after, meta_edges@, meid + 1, e) && e != gw {
                            let b = choose|b: int|
                                0 <= b < meid + 1 && (#[trigger] meta_edges@[b]).direction
                                    != EdgeDirection::Closed && after[b].gateway == Some(
                                    e as usize,
                                );
                            assert(before[b].gateway == Some(e as usize));
                        }
                    }
                    if clean {
                        if opened(before, meta_edges@, meid as int, gw as int) {
                            let b = choose|b: int|
                                0 <= b < meid && (#[trigger] meta_edges@[b]).direction
                                    != EdgeDirection::Closed && before[b].gateway == Some(gw);
                            let j = choose|j: int|
                                0 <= j < before[b].edges@.len() && before[b].edges@[j] == gw;
                            let i = choose|i: int|
                                0 <= i < before[meid as int].edges@.len()
                                    && before[meid as int].edges@[i] == gw;
                            assert(before[b].edges@[j] != before[meid as int].edges@[i]);
                        }
                        assert(edges0[gw as int].direction != EdgeDirection::Border);
                        assert(border_flags(edges@) =~= border_flags(edges0).update(
                            gw as int,
                            true,
                        ));
                        lemma_count_update(border_flags(edges0), gw as int, true);
                    }
                    assert(self.fits(edges@.len()));
                }
            } else {
                proof {
                    assert forall|e: int| 0 <= e < edges@.len() implies opened(
                        self.borders@,
                        meta_edges@,
                        meid + 1,
                        e,
                    ) == opened(self.borders@, meta_edges@, meid as int, e) by {
                        assert(e as usize == e);
                        if opened(self.borders@, meta_edges@, meid + 1, e) {
                            let b = choose|b: int|
                                0 <= b < meid + 1 && (#[trigger] meta_edges@[b]).direction
                                    != EdgeDirection::Closed && self.borders@[b].gateway == Some(
                                    e as usize,
                                );
                            assert(b < meid);
                        }
                    }
                }
            }
            meid += 1;
        }
        proof {
            assert(open_flags(meta_edges@).take(meta_edges@.len() as int) =~= open_flags(
                meta_edges@,
            ));
        }
    }
}

impl Space for SpaceMeta {
    open spec fn wf(&self) -> bool {
        self.valid()
    }

    open spec fn node_count(&self) -> nat {
        self.zone_groups().len()
    }

    open spec fn edge_count(&self) -> nat {
        self.border_list().len()
    }

    open spec fn incident(&self, node_id: int) -> Seq<usize> {
        touching(self.border_list(), self.zone_groups()[node_id], self.border_list().len())
    }

    open spec fn ends(&self, edge_id: int) -> Seq<usize> {
        seq![
            self.zone_place(self.border_list()[edge_id].key.0) as usize,
            self.zone_place(self.border_list()[edge_id].key.1) as usize,
        ]
    }

    proof fn geometry(&self) {
        let zones = self.zone_groups();
        let borders = self.border_list();
        assert(zones.len() == self.node_groups.len() && borders.len() == self.borders.len());
        assert forall|n: int, i: int|
            0 <= n < self.node_count() && 0 <= i < self.incident(n).len() implies {
            &&& (#[trigger] self.incident(n)[i]) < self.edge_count()
            &&& self.ends(self.incident(n)[i] as int).contains(n as usize)
        } by {
            lemma_touching(borders, zones[n], borders.len());
            let b = self.incident(n)[i] as int;
            assert(borders[b].touches(zones[n]));
            self.lemma_zone_place(zones[n]);
            if borders[b].key.0 == zones[n] {
                assert(self.ends(b)[0] == n as usize);
            } else {
                assert(self.ends(b)[1] == n as usize);
            }
        }
        assert forall|n: int, i: int, j: int|
            0 <= n < self.node_count() && 0 <= i < j < self.incident(n).len() implies (
        #[trigger] self.incident(n)[i]) != (#[trigger] self.incident(n)[j]) by {
            lemma_touching(borders, zones[n], borders.len());
        }
        assert forall|e: int| 0 <= e < self.edge_count() implies {
            &&& (#[trigger] self.ends(e)).len() == 2
            &&& self.ends(e)[0] < self.node_count()
            &&& self.ends(e)[1] < self.node_count()
            &&& self.ends(e)[0] != self.ends(e)[1]
            &&& self.incident(self.ends(e)[0] as int).contains(e as usize)
            &&& self.incident(self.ends(e)[1] as int).contains(e as usize)
        } by {
            let k = borders[e].key;
            self.lemma_zone_place(k.0);
            self.lemma_zone_place(k.1);
            lemma_touching(borders, k.0, borders.len());
            lemma_touching(borders, k.1, borders.len());
            assert(borders[e].touches(k.0));
            assert(borders[e].touches(k.1));
        }
    }

    fn num_nodes(&self) -> (n: usize) {
        self.node_groups.len()
    }

    fn num_edges(&self) -> (n: usize) {
        self.borders.len()
    }

    fn node_edges(&self, node_id: usize) -> (v: Vec<usize>) {
        let group_id = self.node_groups[node_id];
        let mut v: Vec<usize> = Vec::new();
        let mut bid: usize = 0;
        while bid < self.borders.len()
            invariant
                bid <= self.borders.len(),
                v@ == touching(self.borders@, group_id, bid as nat),
            decreases self.borders.len() - bid,
        {
            if self.borders[bid].matches_group(group_id) {
                v.push(bid);
            }
            bid += 1;
        }
        v
    }

    fn edge_nodes(&self, edge_id: usize) -> (v: Vec<usize>) {
        let key = self.borders[edge_id].key;
        proof {
            self.lemma_zone_place(key.0);
            self.lemma_zone_place(key.1);
        }
        let first = self.zone_index(key.0).unwrap();
        let second = self.zone_index(key.1).unwrap();
        let mut v: Vec<usize> = Vec::new();
        v.push(first);
        v.push(second);
        assert(v@ =~= self.ends(edge_id as int));
        v
    }
}

/// A zone below `trees`, of which there are at least two.
pub open spec fn small_zone(zone: usize, trees: int) -> bool {
    zone < trees && trees >= 2
}

/// On a geometry in one piece that is cut into at least two zones, every zone
/// has a border, so there are as many zones with a border as zones; where all
/// nodes lie in one zone, there is no border and no zone with one.
pub proof fn lemma_zone_total<S: Space>(
    space: &S,
    nodes: Seq<Node>,
    seeds: Seq<usize>,
    zones: Seq<usize>,
    borders: Seq<Border>,
)
    requires
        space.wf(),
        connected(space),
        nodes.len() == space.node_count(),
        1 <= seeds.len() <= usize::MAX,
        forall|n: int|
            0 <= n < nodes.len() ==> (#[trigger] nodes[n]).group.is_some() && nodes[n].group.unwrap()
                < seeds.len(),
        forall|i: int|
            0 <= i < seeds.len() ==> (#[trigger] seeds[i]) < nodes.len() && nodes[seeds[i] as int].group
                == Some(i as usize),
        meta_valid(zones, borders),
        meta_describes(borders, space, nodes, space.edge_count()),
    ensures
        zones.len() == if seeds.len() >= 2 {
            seeds.len()
        } else {
            0
        },
        borders.len() == 0 <==> seeds.len() < 2,
        seeds.len() >= 2 ==> forall|g: usize| g < seeds.len() ==> zones.contains(g),
        forall|i: int| 0 <= i < zones.len() ==> (#[trigger] zones[i]) < seeds.len(),
{
    space.geometry();
    let trees = seeds.len() as int;
    assert forall|i: int| 0 <= i < zones.len() implies small_zone(#[trigger] zones[i], trees) by {
        assert(has_border(borders, zones[i]));
        let b = choose|b: int| 0 <= b < borders.len() && (#[trigger] borders[b]).touches(zones[i]);
        let e = borders[b].edges@[0] as int;
        assert(straddles(space, nodes, e));
        assert(edge_key(space, nodes, e) == borders[b].key);
        let x = space.ends(e)[0] as int;
        let y = space.ends(e)[1] as int;
        assert(nodes[x].group.unwrap() < trees);
        assert(nodes[y].group.unwrap() < trees);
    }
    if trees >= 2 {
        assert forall|g: usize| g < trees implies zones.contains(g) by {
            let inside = Set::new(|n: int| 0 <= n < nodes.len() && zone_of(nodes, n) == g);
            let other: int = if g == 0 { 1 } else { 0 };
            let a = seeds[g as int] as int;
            let b = seeds[other] as int;
            assert(inside.contains(a));
            assert(!inside.contains(b));
            assert(splits(space, inside));
            let e = choose|e: int| crosses(space, inside, e);
            let x = space.ends(e)[0] as int;
            let y = space.ends(e)[1] as int;
            assert(nodes[x].group.is_some() && nodes[y].group.is_some());
            assert(straddles(space, nodes, e));
            assert(has_home(borders, space, nodes, e));
            let bd = choose|bd: int|
                0 <= bd < borders.len() && (#[trigger] borders[bd]).key == edge_key(space, nodes, e)
                    && borders[bd].edges@.contains(e as usize);
            assert(borders[bd].touches(g));
        }
        let ints = Seq::new(zones.len(), |i: int| zones[i] as int);
        assert(ints.no_duplicates());
        ints.unique_seq_to_set();
        assert(ints.to_set() =~= vstd::set_lib::set_int_range(0, trees)) by {
            assert forall|x: int| vstd::set_lib::set_int_range(0, trees).contains(x) implies ints.to_set().contains(
                x,
            ) by {
                assert(zones.contains(x as usize));
                let i = choose|i: int| 0 <= i < zones.len() && zones[i] == x as usize;
                assert(ints[i] == x);
            }
            assert forall|x: int| ints.to_set().contains(x) implies vstd::set_lib::set_int_range(
                0,
                trees,
            ).contains(x) by {
                let i = choose|i: int| 0 <= i < ints.len() && ints[i] == x;
                assert(small_zone(zones[i], trees));
            }
        }
        vstd::set_lib::lemma_int_range(0, trees);
        assert(ints.len() == zones.len());
        assert(zones.len() == trees);
        assert(zones.contains(0usize));
        let k = choose|k: int| 0 <= k < zones.len() && zones[k] == 0usize;
        assert(has_border(borders, zones[k]));
    } else {
        if zones.len() > 0 {
            assert(small_zone(zones[0], trees));
        }
        if borders.len() > 0 {
            assert(zones.contains(borders[0].key.0));
            let i = choose|i: int| 0 <= i < zones.len() && zones[i] == borders[0].key.0;
            assert(small_zone(zones[i], trees));
        }
    }
}

/// The zones and borders of a geometry in one piece are in one piece.
pub proof fn lemma_meta_connected<S: Space>(space: &S, nodes: Seq<Node>, meta: &SpaceMeta)
    requires
        space.wf(),
        connected(space),
        nodes.len() == space.node_count(),
        forall|n: int| 0 <= n < nodes.len() ==> (#[trigger] nodes[n]).group.is_some(),
        meta.valid(),
        meta.describes(space, nodes, space.edge_count()),
    ensures
        connected(meta),
{
    space.geometry();
    meta.geometry();
    let zones = meta.zone_groups();
    let borders = meta.border_list();
    assert forall|part: Set<int>| #[trigger] splits(meta, part) implies exists|e: int|
        crosses(meta, part, e) by {
        let a = choose|a: int| 0 <= a < meta.node_count() && part.contains(a);
        let b = choose|b: int| 0 <= b < meta.node_count() && !part.contains(b);
        let inside = Set::new(
            |n: int|
                0 <= n < nodes.len() && exists|i: int|
                    0 <= i < zones.len() && part.contains(i) && #[trigger] zones[i] == zone_of(
                        nodes,
                        n,
                    ),
        );
        assert(has_border(borders, zones[a]));
        let ba = choose|ba: int| 0 <= ba < borders.len() && (#[trigger] borders[ba]).touches(zones[a]);
        let ea = borders[ba].edges@[0] as int;
        assert(edge_key(space, nodes, ea) == borders[ba].key);
        let xa = if zone_of(nodes, space.ends(ea)[0] as int) == zones[a] {
            space.ends(ea)[0] as int
        } else {
            space.ends(ea)[1] as int
        };
        assert(zone_of(nodes, xa) == zones[a]);
        assert(inside.contains(xa));
        assert(has_border(borders, zones[b]));
        let bb = choose|bb: int| 0 <= bb < borders.len() && (#[trigger] borders[bb]).touches(zones[b]);
        let eb = borders[bb].edges@[0] as int;
        assert(edge_key(space, nodes, eb) == borders[bb].key);
        let xb = if zone_of(nodes, space.ends(eb)[0] as int) == zones[b] {
            space.ends(eb)[0] as int
        } else {
            space.ends(eb)[1] as int
        };
        assert(zone_of(nodes, xb) == zones[b]);
        assert(!inside.contains(xb));
        assert(splits(space, inside));
        let e = choose|e: int| crosses(space, inside, e);
        let x = space.ends(e)[0] as int;
        let y = space.ends(e)[1] as int;
        assert(zone_of(nodes, x) != zone_of(nodes, y));
        assert(straddles(space, nodes, e));
        assert(has_home(borders, space, nodes, e));
        let bd = choose|bd: int|
            0 <= bd < borders.len() && (#[trigger] borders[bd]).key == edge_key(space, nodes, e)
                && borders[bd].edges@.contains(e as usize);
        let k = borders[bd].key;
        meta.lemma_zone_place(k.0);
        meta.lemma_zone_place(k.1);
        let low_at = meta.zone_place(k.0);
        let high_at = meta.zone_place(k.1);
        assert(meta.ends(bd)[0] == low_at as usize && meta.ends(bd)[1] == high_at as usize);
        let near = if inside.contains(x) { x } else { y };
        let far = if inside.contains(x) { y } else { x };
        let i = choose|i: int|
            0 <= i < zones.len() && part.contains(i) && #[trigger] zones[i] == zone_of(nodes, near);
        if zone_of(nodes, near) == k.0 {
            assert(i == low_at);
            assert(zones[high_at] == zone_of(nodes, far));
            assert(!part.contains(high_at));
        } else {
            assert(i == high_at);
            assert(zones[low_at] == zone_of(nodes, far));
            assert(!part.contains(low_at));
        }
        assert(crosses(meta, part, bd));
    }
}

/// No two borders have the same gateway.
pub proof fn lemma_gateways_differ(meta: &SpaceMeta, a: int, b: int)
    requires
        meta.valid(),
        0 <= a < meta.border_list().len(),
        0 <= b < meta.border_list().len(),
        a != b,
        meta.border_list()[a].gateway.is_some(),
    ensures
        meta.border_list()[a].gateway != meta.border_list()[b].gateway,
{
    let borders = meta.border_list();
    if borders[b].gateway.is_some() {
        let i = choose|i: int|
            0 <= i < borders[a].edges@.len() && borders[a].edges@[i] == borders[a].gateway.unwrap();
        let j = choose|j: int|
            0 <= j < borders[b].edges@.len() && borders[b].edges@[j] == borders[b].gateway.unwrap();
        assert(borders[a].edges@[i] != borders[b].edges@[j]);
    }
}

} // verus!
