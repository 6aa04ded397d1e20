//! What an instance-level cone draws.

use crate::model::{edge_at, incident, Dir, Document, Edge};
use crate::model_laws::law_nodes_list_their_edges;
use crate::order::{ascending, lemma_ascending};
use crate::schematic::ancestor_laws::{is_nearest, law_nearest_instances_are_first};
use crate::schematic::cone::{
    cone_boxes, cone_edge, cone_edges, cone_hop, cone_hops, cone_view, edge_wire, ConeV,
};
use crate::schematic::hierarchy::instance_from;
use crate::schematic::types::{EdgeV, GraphV};
use vstd::prelude::*;

verus! {

/// Whether a graph has a box for a node.
pub open spec fn draws(g: GraphV, id: u32) -> bool {
    exists|k: int| 0 <= k < g.nodes.len() && (#[trigger] g.nodes[k]).id == id
}

/// Whether an edge leads from one node to another, and is asked for: it is written with the
/// direction, or both are.
pub open spec fn leads_to(e: Edge, dir: Dir, from: u32, to: u32) -> bool {
    &&& (e.port == from && e.endpoint == to) || (e.endpoint == from && e.port == to)
    &&& dir == Dir::Inout || e.dir == dir
}

/// Whether no two edges have the same id.
pub open spec fn edges_differ(d: Document) -> bool {
    forall|i: int, j: int|
        0 <= i < j < d.edges@.len() ==> (#[trigger] d.edges@[i]).id != (#[trigger] d.edges@[j]).id
}

/// Whether a wire is that of an edge of the design that is asked for: it joins the two ends
/// of the edge and is named by its signal.
pub open spec fn wire_of(w: EdgeV, d: Document, dir: Dir) -> bool {
    exists|i: int|
        0 <= i < d.edges@.len() && w.id == (#[trigger] d.edges@[i]).id && w.source
            == d.edges@[i].port && w.target == d.edges@[i].endpoint && (dir == Dir::Inout
            || d.edges@[i].dir == dir) && (d.edges@[i].endpoint < d.nodes@.len() ==> w.net_path
            == Some(d.nodes@[d.edges@[i].endpoint as int].path@))
}

// --- What every cone keeps ----------------------------------------------------

spec fn only_wires(d: Document, dir: Dir, c: ConeV) -> bool {
    forall|k: int| 0 <= k < c.edges.len() ==> wire_of(#[trigger] c.edges[k], d, dir)
}

/// Whether an instance is the nearest of an end of one of the wires.
spec fn touched(d: Document, edges: Seq<EdgeV>, x: u32) -> bool {
    exists|k: int|
        0 <= k < edges.len() && (is_nearest(d, (#[trigger] edges[k]).source, x) || is_nearest(
            d,
            edges[k].target,
            x,
        ))
}

spec fn all_touched(d: Document, c: ConeV) -> bool {
    forall|x: u32| #[trigger] c.boxes.contains(x) ==> touched(d, c.edges, x)
}

spec fn grows(a: ConeV, b: ConeV) -> bool {
    &&& a.boxes.subset_of(b.boxes)
    &&& a.seen.subset_of(b.seen)
}

proof fn lemma_edge(d: Document, dir: Dir, node: u32, i: u32, c: ConeV)
    requires
        incident(d, node).contains(i),
    ensures
        grows(c, cone_edge(d, dir, node, edge_at(d, i), c)),
        only_wires(d, dir, c) ==> only_wires(d, dir, cone_edge(d, dir, node, edge_at(d, i), c)),
        all_touched(d, c) ==> all_touched(d, cone_edge(d, dir, node, edge_at(d, i), c)),
{
    law_nodes_list_their_edges(d, node, i);
    let e = d.edges@[i as int];
    let r = cone_edge(d, dir, node, e, c);
    if r.edges != c.edges {
        let w = edge_wire(d, e);
        assert(r.edges == c.edges.push(w));
        assert(r.edges[c.edges.len() as int] == w);
        assert(only_wires(d, dir, c) ==> only_wires(d, dir, r)) by {
            assert(wire_of(w, d, dir)) by {
                assert(w.id == d.edges@[i as int].id);
            }
            assert forall|k: int| only_wires(d, dir, c) && 0 <= k < r.edges.len() implies wire_of(
                #[trigger] r.edges[k],
                d,
                dir,
            ) by {
                if k < c.edges.len() {
                    assert(r.edges[k] == c.edges[k]);
                }
            }
        }
        if all_touched(d, c) {
            assert forall|x: u32| #[trigger] r.boxes.contains(x) implies touched(
                d,
                r.edges,
                x,
            ) by {
                if c.boxes.contains(x) {
                    let k = choose|k: int|
                        0 <= k < c.edges.len() && (is_nearest(d, (#[trigger] c.edges[k]).source, x)
                            || is_nearest(d, c.edges[k].target, x));
                    assert(r.edges[k] == c.edges[k]);
                } else {
                    law_nearest_instances_are_first(d, e.port, x);
                    law_nearest_instances_are_first(d, e.endpoint, x);
                }
            }
        }
    } else {
        assert(r.boxes == c.boxes) by {
            if r.seen != c.seen {
                assert(r.edges.len() == c.edges.len() + 1);
            }
        }
    }
}

proof fn lemma_edges(d: Document, dir: Dir, node: u32, n: nat, c: ConeV)
    requires
        n <= incident(d, node).len(),
    ensures
        grows(c, cone_edges(d, dir, node, n, c)),
        only_wires(d, dir, c) ==> only_wires(d, dir, cone_edges(d, dir, node, n, c)),
        all_touched(d, c) ==> all_touched(d, cone_edges(d, dir, node, n, c)),
    decreases n,
{
    if n > 0 {
        lemma_edges(d, dir, node, (n - 1) as nat, c);
        assert(incident(d, node).contains(incident(d, node)[n - 1]));
        lemma_edge(
            d,
            dir,
            node,
            incident(d, node)[n - 1],
            cone_edges(d, dir, node, (n - 1) as nat, c),
        );
    }
}

proof fn lemma_hop(d: Document, dir: Dir, frontier: Seq<u32>, n: nat, c: ConeV)
    requires
        n <= frontier.len(),
    ensures
        grows(c, cone_hop(d, dir, frontier, n, c)),
        only_wires(d, dir, c) ==> only_wires(d, dir, cone_hop(d, dir, frontier, n, c)),
        all_touched(d, c) ==> all_touched(d, cone_hop(d, dir, frontier, n, c)),
    decreases n,
{
    if n > 0 {
        lemma_hop(d, dir, frontier, (n - 1) as nat, c);
        let node = frontier[n - 1];
        lemma_edges(
            d,
            dir,
            node,
            incident(d, node).len(),
            cone_hop(d, dir, frontier, (n - 1) as nat, c),
        );
    } else {
        let r = ConeV { next: Seq::empty(), ..c };
        assert(all_touched(d, c) ==> all_touched(d, r));
    }
}

proof fn lemma_hops(d: Document, dir: Dir, frontier: Seq<u32>, k: nat, c: ConeV)
    ensures
        grows(c, cone_hops(d, dir, frontier, k, c)),
        only_wires(d, dir, c) ==> only_wires(d, dir, cone_hops(d, dir, frontier, k, c)),
        all_touched(d, c) ==> all_touched(d, cone_hops(d, dir, frontier, k, c)),
    decreases k,
{
    if k > 0 {
        lemma_hop(d, dir, frontier, frontier.len(), c);
        let t = cone_hop(d, dir, frontier, frontier.len(), c);
        lemma_hops(d, dir, t.next, (k - 1) as nat, t);
    }
}

proof fn lemma_deeper(d: Document, dir: Dir, frontier: Seq<u32>, k: nat, c: ConeV)
    ensures
        grows(cone_hops(d, dir, frontier, k, c), cone_hops(d, dir, frontier, (k + 1) as nat, c)),
    decreases k,
{
    let t = cone_hop(d, dir, frontier, frontier.len(), c);
    if k == 0 {
        lemma_hops(d, dir, frontier, 1, c);
    } else {
        lemma_deeper(d, dir, t.next, (k - 1) as nat, t);
    }
}

proof fn lemma_deepest(d: Document, dir: Dir, frontier: Seq<u32>, k: nat, m: nat, c: ConeV)
    requires
        k <= m,
    ensures
        grows(cone_hops(d, dir, frontier, k, c), cone_hops(d, dir, frontier, m, c)),
    decreases m,
{
    if k < m {
        lemma_deepest(d, dir, frontier, k, (m - 1) as nat, c);
        lemma_deeper(d, dir, frontier, (m - 1) as nat, c);
    }
}

// --- The first hop ------------------------------------------------------------

/// What the first `n` edges of the start have come to: each that is asked for has drawn what
/// it leads to, and nothing else is drawn.
spec fn first_edges(d: Document, dir: Dir, node: u32, n: nat, c: ConeV) -> bool {
    let at = incident(d, node);
    &&& forall|j: int, to: u32, x: u32|
        0 <= j < n && #[trigger] leads_to(d.edges@[at[j] as int], dir, node, to)
            && #[trigger] is_nearest(d, to, x) ==> c.boxes.contains(x)
    &&& forall|x: u32| #[trigger]
        c.boxes.contains(x) ==> exists|j: int, to: u32|
            0 <= j < n && #[trigger] leads_to(d.edges@[at[j] as int], dir, node, to)
                && is_nearest(d, to, x)
    &&& forall|s: u32| #[trigger]
        c.seen.contains(s) ==> exists|j: int|
            0 <= j < n && #[trigger] d.edges@[at[j] as int].id == s
}

proof fn lemma_first_edges(d: Document, dir: Dir, node: u32, n: nat, c: ConeV)
    requires
        n <= incident(d, node).len(),
        edges_differ(d),
        c.boxes == Set::<u32>::empty(),
        c.seen == Set::<u32>::empty(),
    ensures
        first_edges(d, dir, node, n, cone_edges(d, dir, node, n, c)),
    decreases n,
{
    if n > 0 {
        lemma_first_edges(d, dir, node, (n - 1) as nat, c);
        let at = incident(d, node);
        let v = cone_edges(d, dir, node, (n - 1) as nat, c);
        let r = cone_edges(d, dir, node, n, c);
        let i = at[n - 1];
        let e = d.edges@[i as int];
        assert(at.contains(i));
        law_nodes_list_their_edges(d, node, i);
        lemma_ascending(crate::model::meeting(d.edges@, set![node]));
        assert(!v.seen.contains(e.id)) by {
            if v.seen.contains(e.id) {
                let j = choose|j: int|
                    0 <= j < n - 1 && #[trigger] d.edges@[at[j] as int].id == e.id;
                assert(at[j] < at[n - 1]);
                assert(d.edges@[at[j] as int].id != d.edges@[i as int].id);
            }
        }
        let to = if e.port == node {
            e.endpoint
        } else {
            e.port
        };
        let hit = instance_from(d, to, d.nodes@.len());
        assert forall|j: int, t: u32, x: u32|
            0 <= j < n && #[trigger] leads_to(d.edges@[at[j] as int], dir, node, t)
                && #[trigger] is_nearest(d, t, x) implies r.boxes.contains(x) by {
            if j == n - 1 {
                assert(t == to);
                law_nearest_instances_are_first(d, t, x);
                assert(hit == Some(x));
            } else {
                assert(v.boxes.contains(x));
            }
        }
        assert forall|x: u32| #[trigger] r.boxes.contains(x) implies exists|j: int, t: u32|
            0 <= j < n && #[trigger] leads_to(d.edges@[at[j] as int], dir, node, t) && is_nearest(
                d,
                t,
                x,
            ) by {
            if v.boxes.contains(x) {
                let (j, t) = choose|j: int, t: u32|
                    0 <= j < n - 1 && #[trigger] leads_to(d.edges@[at[j] as int], dir, node, t)
                        && is_nearest(d, t, x);
                assert(leads_to(d.edges@[at[j] as int], dir, node, t));
            } else {
                assert(hit == Some(x));
                law_nearest_instances_are_first(d, to, x);
                assert(leads_to(d.edges@[at[n - 1] as int], dir, node, to));
            }
        }
        assert forall|s: u32| #[trigger] r.seen.contains(s) implies exists|j: int|
            0 <= j < n && #[trigger] d.edges@[at[j] as int].id == s by {
            if v.seen.contains(s) {
                let j = choose|j: int| 0 <= j < n - 1 && #[trigger] d.edges@[at[j] as int].id == s;
                assert(d.edges@[at[j] as int].id == s);
            } else {
                assert(d.edges@[at[n - 1] as int].id == s);
            }
        }
    }
}

// --- Boxes --------------------------------------------------------------------

proof fn lemma_cone_boxes(d: Document, ids: Seq<u32>, n: nat, x: u32)
    requires
        n <= ids.len(),
        forall|k: int| 0 <= k < ids.len() ==> #[trigger] ids[k] < d.nodes@.len(),
    ensures
        (exists|k: int| 0 <= k < n && #[trigger] ids[k] == x) <==> exists|k: int|
            0 <= k < cone_boxes(d, ids, n).len() && (#[trigger] cone_boxes(d, ids, n)[k]).id == x,
    decreases n,
{
    if n > 0 {
        lemma_cone_boxes(d, ids, (n - 1) as nat, x);
        let r = cone_boxes(d, ids, (n - 1) as nat);
        let s = cone_boxes(d, ids, n);
        assert(ids[n - 1] < d.nodes@.len());
        assert(s.len() == r.len() + 1 && s.last().id == ids[n - 1]);
        if exists|k: int| 0 <= k < n && #[trigger] ids[k] == x {
            let k = choose|k: int| 0 <= k < n && #[trigger] ids[k] == x;
            if k == n - 1 {
                assert(s[r.len() as int].id == x);
            } else {
                assert(ids[k] == x);
                let m = choose|m: int| 0 <= m < r.len() && (#[trigger] r[m]).id == x;
                assert(s[m].id == x);
            }
        }
        if exists|k: int| 0 <= k < s.len() && (#[trigger] s[k]).id == x {
            let k = choose|k: int| 0 <= k < s.len() && (#[trigger] s[k]).id == x;
            if k < r.len() {
                assert(r[k].id == x);
                let m = choose|m: int| 0 <= m < n - 1 && #[trigger] ids[m] == x;
                assert(ids[m] == x);
            } else {
                assert(ids[n - 1] == x);
            }
        }
    }
}

spec fn start_cone() -> ConeV {
    ConeV { boxes: Set::empty(), edges: Seq::empty(), seen: Set::empty(), next: Seq::empty() }
}

spec fn at_least_one(depth: nat) -> nat {
    if depth > 0 {
        depth
    } else {
        1
    }
}

spec fn reached(d: Document, start: u32, dir: Dir, depth: nat) -> ConeV {
    cone_hops(d, dir, seq![start], at_least_one(depth), start_cone())
}

proof fn lemma_drawn(d: Document, start: u32, dir: Dir, depth: nat, x: u32)
    ensures
        draws(cone_view(d, start, dir, depth), x) <==> reached(d, start, dir, depth).boxes.contains(
            x,
        ),
        cone_view(d, start, dir, depth).edges == reached(d, start, dir, depth).edges,
        all_touched(d, reached(d, start, dir, depth)),
        only_wires(d, dir, reached(d, start, dir, depth)),
{
    let c = reached(d, start, dir, depth);
    lemma_hops(d, dir, seq![start], at_least_one(depth), start_cone());
    let ids = ascending(c.boxes);
    lemma_ascending(c.boxes);
    assert forall|k: int| 0 <= k < ids.len() implies #[trigger] ids[k] < d.nodes@.len() by {
        assert(ids.contains(ids[k]));
        assert(c.boxes.contains(ids[k]));
        let m = choose|m: int|
            0 <= m < c.edges.len() && (is_nearest(d, (#[trigger] c.edges[m]).source, ids[k])
                || is_nearest(d, c.edges[m].target, ids[k]));
    }
    lemma_cone_boxes(d, ids, ids.len(), x);
    let g = cone_view(d, start, dir, depth);
    assert(g.nodes == cone_boxes(d, ids, ids.len()));
    if c.boxes.contains(x) {
        assert(ids.contains(x));
    }
    if draws(g, x) {
        let k = choose|k: int| 0 <= k < ids.len() && #[trigger] ids[k] == x;
        assert(ids.contains(x));
    }
}

proof fn lemma_first_hop(d: Document, start: u32, dir: Dir)
    requires
        edges_differ(d),
    ensures
        first_edges(d, dir, start, incident(d, start).len(), reached(d, start, dir, 1)),
{
    let at = incident(d, start);
    let c0 = ConeV { next: Seq::empty(), ..start_cone() };
    lemma_first_edges(d, dir, start, at.len(), c0);
    reveal_with_fuel(cone_hop, 2);
    reveal_with_fuel(cone_hops, 2);
    let t = cone_hop(d, dir, seq![start], 1, start_cone());
    assert(t == cone_edges(d, dir, start, at.len(), c0));
}

// --- Laws ---------------------------------------------------------------------

/// Every edge of the start that is asked for has the nearest instance at or above its other
/// end among the boxes of the cone, at any depth.
pub proof fn law_cones_reach_their_neighbours(
    d: Document,
    start: u32,
    dir: Dir,
    depth: nat,
    i: int,
    to: u32,
    x: u32,
)
    requires
        edges_differ(d),
        0 <= i < d.edges@.len() <= 0x1_0000_0000,
        leads_to(d.edges@[i], dir, start, to),
        is_nearest(d, to, x),
    ensures
        draws(cone_view(d, start, dir, depth), x),
{
    lemma_first_hop(d, start, dir);
    let at = incident(d, start);
    law_nodes_list_their_edges(d, start, i as u32);
    let j = choose|j: int| 0 <= j < at.len() && at[j] == i as u32;
    assert(leads_to(d.edges@[at[j] as int], dir, start, to));
    assert(reached(d, start, dir, 1).boxes.contains(x));
    lemma_deepest(d, dir, seq![start], 1, at_least_one(depth), start_cone());
    lemma_drawn(d, start, dir, depth, x);
}

/// A cone of one hop has no boxes but the nearest instances at or above the other ends of the
/// start's edges that are asked for.
pub proof fn law_shallow_cones_draw_neighbours_only(
    d: Document,
    start: u32,
    dir: Dir,
    depth: nat,
    x: u32,
)
    requires
        edges_differ(d),
        depth <= 1,
        draws(cone_view(d, start, dir, depth), x),
    ensures
        exists|i: int, to: u32|
            0 <= i < d.edges@.len() && #[trigger] leads_to(d.edges@[i], dir, start, to)
                && is_nearest(d, to, x),
{
    lemma_first_hop(d, start, dir);
    lemma_drawn(d, start, dir, depth, x);
    let at = incident(d, start);
    let (j, to) = choose|j: int, to: u32|
        0 <= j < at.len() && #[trigger] leads_to(d.edges@[at[j] as int], dir, start, to)
            && is_nearest(d, to, x);
    assert(at.contains(at[j]));
    law_nodes_list_their_edges(d, start, at[j]);
    assert(leads_to(d.edges@[at[j] as int], dir, start, to));
}

/// The wires of a cone are edges of the design that are asked for, each between its own ends
/// and named by its signal.
pub proof fn law_cone_wires_are_edges(d: Document, start: u32, dir: Dir, depth: nat, k: int)
    requires
        0 <= k < cone_view(d, start, dir, depth).edges.len(),
    ensures
        wire_of(cone_view(d, start, dir, depth).edges[k], d, dir),
{
    lemma_drawn(d, start, dir, depth, 0);
    assert(wire_of(reached(d, start, dir, depth).edges[k], d, dir));
}

/// Every box of a cone is the nearest instance at or above an end of one of its wires.
pub proof fn law_cone_boxes_are_connected(d: Document, start: u32, dir: Dir, depth: nat, x: u32)
    requires
        draws(cone_view(d, start, dir, depth), x),
    ensures
        exists|k: int|
            0 <= k < cone_view(d, start, dir, depth).edges.len() && (is_nearest(
                d,
                (#[trigger] cone_view(d, start, dir, depth).edges[k]).source,
                x,
            ) || is_nearest(d, cone_view(d, start, dir, depth).edges[k].target, x)),
{
    lemma_drawn(d, start, dir, depth, x);
    let c = reached(d, start, dir, depth);
    assert(touched(d, c.edges, x));
    let k = choose|k: int|
        0 <= k < c.edges.len() && (is_nearest(d, (#[trigger] c.edges[k]).source, x) || is_nearest(
            d,
            c.edges[k].target,
            x,
        ));
    assert(cone_view(d, start, dir, depth).edges[k] == c.edges[k]);
}

/// A deeper cone has all boxes of a shallower one.
pub proof fn law_deeper_cones_keep_boxes(
    d: Document,
    start: u32,
    dir: Dir,
    depth: nat,
    more: nat,
    x: u32,
)
    requires
        depth <= more,
        draws(cone_view(d, start, dir, depth), x),
    ensures
        draws(cone_view(d, start, dir, more), x),
{
    lemma_drawn(d, start, dir, depth, x);
    lemma_drawn(d, start, dir, more, x);
    lemma_deepest(
        d,
        dir,
        seq![start],
        at_least_one(depth),
        at_least_one(more),
        start_cone(),
    );
}

} // verus!
