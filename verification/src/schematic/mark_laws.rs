//! What the schematic of a scope marks: constants, open outputs and the sides of bundles.

use crate::model::{children_at, node_at, Dir, Document, ModportMember, Node, NodeKind};
use crate::schematic::anchors::anchors_of;
use crate::schematic::box_laws::{is_logic, is_primitive, law_boxes_are_drawn_as_they_are};
use crate::schematic::boxes::{
    bundle_edges, bundle_pin, const_box, drawn, enters, outs_in, ports_going, raw_side, raw_taps,
    tie_at, view_pin, view_through,
};
use crate::schematic::flow_laws::law_scopes_own_their_ports;
use crate::schematic::follow_laws::{lemma_own_boxes, nests, own_box};
use crate::schematic::join_laws::own_port;
use crate::schematic::kinds::{boxes_in, boxes_of, has_kind};
use crate::schematic::pins::{offset_id, CONST_ID_BASE};
use crate::schematic::scope::{
    box_fold, box_ties, child_ties, frame_pins, scope_ends,
    wired, wired_scope,
};
use crate::schematic::trace::has_box;
use crate::schematic::types::{EdgeV, NodeV, Projection, Side};
use crate::schematic::wires::WiresV;
use vstd::prelude::*;

verus! {

// --- Open outputs -------------------------------------------------------------

/// An output of logic or of a primitive that no wire of the scope reaches is marked as open.
pub proof fn law_open_outputs_dangle(
    d: Document,
    scope: u32,
    path: Seq<char>,
    projection: Projection,
    k: int,
    j: int,
)
    requires
        0 <= k < wired_scope(d, scope, path, projection).nodes.len(),
        is_logic(d, wired_scope(d, scope, path, projection).nodes[k].id) || is_primitive(
            d,
            wired_scope(d, scope, path, projection).nodes[k].id,
        ),
        0 <= j < wired_scope(d, scope, path, projection).nodes[k].ports.len(),
    ensures
        ({
            let g = wired_scope(d, scope, path, projection);
            let p = g.nodes[k].ports[j];
            p.side == Side::East && (forall|i: int|
                0 <= i < g.edges.len() ==> (#[trigger] g.edges[i]).source != p.id
                    && g.edges[i].target != p.id) ==> p.dangling
        }),
{
    let g = wired_scope(d, scope, path, projection);
    let p = g.nodes[k].ports[j];
    if forall|i: int|
        0 <= i < g.edges.len() ==> (#[trigger] g.edges[i]).source != p.id && g.edges[i].target
            != p.id {
        assert(!wired(g.edges, p.id));
    }
}

// --- Constants ----------------------------------------------------------------

/// Whether a constant is drawn and wired to a port.
pub open spec fn ties_to(nodes: Seq<NodeV>, edges: Seq<EdgeV>, lit: Seq<char>, port: u32) -> bool {
    let id = offset_id(CONST_ID_BASE, port as nat);
    &&& exists|k: int|
        0 <= k < nodes.len() && (#[trigger] nodes[k]).id == id && nodes[k].constant == Some(lit)
    &&& exists|k: int|
        0 <= k < edges.len() && (#[trigger] edges[k]).source == id && edges[k].target == port
}

proof fn lemma_ties_kept(
    a: Seq<NodeV>,
    e: Seq<EdgeV>,
    b: Seq<NodeV>,
    f: Seq<EdgeV>,
    lit: Seq<char>,
    port: u32,
)
    requires
        ties_to(a, e, lit, port),
        a.len() <= b.len(),
        forall|k: int| 0 <= k < a.len() ==> #[trigger] b[k] == a[k],
        e.len() <= f.len(),
        forall|k: int| 0 <= k < e.len() ==> #[trigger] f[k] == e[k],
    ensures
        ties_to(b, f, lit, port),
{
    let id = offset_id(CONST_ID_BASE, port as nat);
    let k = choose|k: int|
        0 <= k < a.len() && (#[trigger] a[k]).id == id && a[k].constant == Some(lit);
    assert(b[k] == a[k]);
    let j = choose|j: int|
        0 <= j < e.len() && (#[trigger] e[j]).source == id && e[j].target == port;
    assert(f[j] == e[j]);
}

proof fn lemma_child_prefix(d: Document, cs: Seq<u32>, n: nat, nodes: Seq<NodeV>, w: WiresV)
    ensures
        ({
            let (ns, v) = child_ties(d, cs, n, nodes, w);
            &&& nodes.len() <= ns.len()
            &&& forall|k: int| 0 <= k < nodes.len() ==> #[trigger] ns[k] == nodes[k]
            &&& w.edges.len() <= v.edges.len()
            &&& forall|k: int| 0 <= k < w.edges.len() ==> #[trigger] v.edges[k] == w.edges[k]
        }),
    decreases n,
{
    if n > 0 {
        lemma_child_prefix(d, cs, (n - 1) as nat, nodes, w);
    }
}

proof fn lemma_child_tied(
    d: Document,
    cs: Seq<u32>,
    n: nat,
    nodes: Seq<NodeV>,
    w: WiresV,
    j: int,
)
    requires
        0 <= j < n <= cs.len(),
        has_kind(d, cs[j], NodeKind::Port),
        tie_at(d, cs[j]) is Some,
    ensures
        ties_to(
            child_ties(d, cs, n, nodes, w).0,
            child_ties(d, cs, n, nodes, w).1.edges,
            tie_at(d, cs[j])->0,
            cs[j],
        ),
    decreases n,
{
    let (ns, v) = child_ties(d, cs, (n - 1) as nat, nodes, w);
    let (ms, u) = child_ties(d, cs, n, nodes, w);
    if j == n - 1 {
        assert(ms[ns.len() as int] == const_box(tie_at(d, cs[j])->0, cs[j]));
        assert(u.edges[v.edges.len() as int].target == cs[j]);
    } else {
        lemma_child_tied(d, cs, (n - 1) as nat, nodes, w, j);
        lemma_ties_kept(ns, v.edges, ms, u.edges, tie_at(d, cs[j])->0, cs[j]);
    }
}

proof fn lemma_box_tied(
    d: Document,
    boxes: Seq<u32>,
    n: nat,
    nodes: Seq<NodeV>,
    w: WiresV,
    b: int,
    j: int,
)
    requires
        0 <= b < n <= boxes.len(),
        0 <= j < children_at(d, boxes[b]).len(),
        has_kind(d, children_at(d, boxes[b])[j], NodeKind::Port),
        tie_at(d, children_at(d, boxes[b])[j]) is Some,
    ensures
        ties_to(
            box_ties(d, boxes, n, nodes, w).0,
            box_ties(d, boxes, n, nodes, w).1.edges,
            tie_at(d, children_at(d, boxes[b])[j])->0,
            children_at(d, boxes[b])[j],
        ),
    decreases n,
{
    let (ns, v) = box_ties(d, boxes, (n - 1) as nat, nodes, w);
    let (ms, u) = box_ties(d, boxes, n, nodes, w);
    let cs = children_at(d, boxes[n - 1]);
    if b == n - 1 {
        lemma_child_tied(d, cs, cs.len(), ns, v, j);
    } else {
        let port = children_at(d, boxes[b])[j];
        lemma_box_tied(d, boxes, (n - 1) as nat, nodes, w, b, j);
        lemma_child_prefix(d, cs, cs.len(), ns, v);
        lemma_ties_kept(ns, v.edges, ms, u.edges, tie_at(d, port)->0, port);
    }
}

/// A port of a box that a value is tied to has a constant of that value wired to it.
pub proof fn law_tied_ports_show_their_constant(
    d: Document,
    scope: u32,
    path: Seq<char>,
    projection: Projection,
    bx: u32,
    port: u32,
)
    requires
        boxes_of(d, scope, projection).contains(bx),
        bx < d.nodes@.len(),
        d.nodes@[bx as int].children@.contains(port),
        port < d.nodes@.len(),
        d.nodes@[port as int].kind == NodeKind::Port,
        d.nodes@[port as int].const_value is Some,
    ensures
        ({
            let g = wired_scope(d, scope, path, projection);
            ties_to(g.nodes, g.edges, d.nodes@[port as int].const_value->0@, port)
        }),
{
    let a = anchors_of(d, scope, projection);
    let at = crate::schematic::scope::scope_edges(d, a);
    let (boxes, pins) = box_fold(d, a.boxes, path, a.boxes.len());
    let frame = frame_pins(d, a.own_ports, a.own_ports.len(), boxes);
    let (nodes, ends) = scope_ends(d, a, pins, frame);
    let w = crate::schematic::wires::joined_signals(
        d,
        path,
        ends.drivers,
        ends.loads,
        crate::schematic::scope::structural(
            d,
            a,
            path,
            at,
            at.len(),
            WiresV { edges: Seq::empty(), seen: Set::empty(), next: d.edges@.len() as u32 },
        ),
    );
    let b = choose|b: int| 0 <= b < a.boxes.len() && a.boxes[b] == bx;
    let cs = children_at(d, bx);
    let j = choose|j: int| 0 <= j < cs.len() && cs[j] == port;
    lemma_box_tied(d, a.boxes, a.boxes.len(), nodes, w, b, j);
    let (all, v) = box_ties(d, a.boxes, a.boxes.len(), nodes, w);
    let g = wired_scope(d, scope, path, projection);
    let id = offset_id(CONST_ID_BASE, port as nat);
    let lit = d.nodes@[port as int].const_value->0@;
    let k = choose|k: int|
        0 <= k < all.len() && (#[trigger] all[k]).id == id && all[k].constant == Some(lit);
    assert(g.nodes[k].id == id && g.nodes[k].constant == Some(lit));
}

// --- Bundles ------------------------------------------------------------------

proof fn lemma_outs(ms: Seq<ModportMember>, n: nat)
    requires
        n <= ms.len(),
    ensures
        (forall|k: int| 0 <= k < n ==> (#[trigger] ms[k]).dir == Dir::Out) ==> outs_in(ms, n) == n,
        (forall|k: int| 0 <= k < n ==> (#[trigger] ms[k]).dir != Dir::Out) ==> outs_in(ms, n) == 0,
        outs_in(ms, n) <= n,
    decreases n,
{
    if n > 0 {
        lemma_outs(ms, (n - 1) as nat);
        assert(ms[n - 1].dir == Dir::Out || ms[n - 1].dir != Dir::Out);
    }
}

/// A view whose members all give values out is to the west of its bundle, and one whose
/// members all take values is to the east.
pub proof fn law_views_are_on_the_side_of_their_members(d: Document, n: Node, ms: Vec<ModportMember>)
    requires
        n.members == Some(ms),
        ms@.len() > 0,
    ensures
        (forall|k: int| 0 <= k < ms@.len() ==> (#[trigger] ms@[k]).dir == Dir::Out) ==> view_pin(
            d,
            n,
        ).side == Side::West,
        (forall|k: int| 0 <= k < ms@.len() ==> (#[trigger] ms@[k]).dir != Dir::Out) ==> view_pin(
            d,
            n,
        ).side == Side::East,
        view_pin(d, n).name == n.name@,
        view_pin(d, n).bundle,
{
    lemma_outs(ms@, ms@.len());
}

proof fn lemma_going(d: Document, cs: Seq<u32>, out: bool, n: nat)
    requires
        n <= cs.len(),
    ensures
        ports_going(d, cs, out, n) > 0 <==> exists|k: int|
            0 <= k < n && (#[trigger] cs[k]) < d.nodes@.len() && d.nodes@[cs[k] as int].kind
                == NodeKind::Port && d.nodes@[cs[k] as int].dir is Some && (
            d.nodes@[cs[k] as int].dir == Some(Dir::Out)) == out,
    decreases n,
{
    if n > 0 {
        lemma_going(d, cs, out, (n - 1) as nat);
        assert(node_at(d, cs[n - 1]) is Some <==> cs[n - 1] < d.nodes@.len());
    }
}

/// Whether an interface port has a member that goes out, or one that does not.
pub open spec fn has_member(d: Document, c: u32, out: bool) -> bool {
    let cs = d.nodes@[c as int].children@;
    exists|k: int|
        0 <= k < cs.len() && (#[trigger] cs[k]) < d.nodes@.len() && d.nodes@[cs[k] as int].kind
            == NodeKind::Port && d.nodes@[cs[k] as int].dir is Some && (
        d.nodes@[cs[k] as int].dir == Some(Dir::Out)) == out
}

/// The pin of an interface port is to the east where its members all go out, and to the west
/// where none does.
pub proof fn law_interface_ports_are_on_the_side_of_their_members(d: Document, c: u32)
    requires
        c < d.nodes@.len(),
    ensures
        has_member(d, c, true) && !has_member(d, c, false) ==> bundle_pin(d, c).side == Side::East,
        !has_member(d, c, true) ==> bundle_pin(d, c).side == Side::West,
        bundle_pin(d, c).id == c,
        bundle_pin(d, c).path == d.nodes@[c as int].path@,
{
    let cs = d.nodes@[c as int].children@;
    lemma_going(d, cs, true, cs.len());
    lemma_going(d, cs, false, cs.len());
}

/// Whether an edge taps a bundle outside any view, in a direction.
pub open spec fn taps(d: Document, iface: u32, i: u32, out: bool) -> bool {
    let e = d.edges@[i as int];
    enters(d, iface, e) && view_through(d, e.port) is None && (e.dir == Dir::Out) == out
}

proof fn lemma_taps(d: Document, iface: u32, out: bool, n: nat)
    requires
        n <= bundle_edges(d, iface).len(),
    ensures
        raw_taps(d, iface, out, n) > 0 <==> exists|k: int|
            0 <= k < n && taps(d, iface, #[trigger] bundle_edges(d, iface)[k], out),
    decreases n,
{
    if n > 0 {
        lemma_taps(d, iface, out, (n - 1) as nat);
    }
}

/// A bundle has a raw access port where something taps its members outside any view: to the
/// west where all taps drive it, to the east where all read it.
pub proof fn law_tapped_bundles_have_a_raw_port(d: Document, iface: u32)
    requires
        iface < d.nodes@.len(),
    ensures
        ({
            let at = bundle_edges(d, iface);
            let ins = exists|k: int| 0 <= k < at.len() && taps(d, iface, #[trigger] at[k], false);
            let outs = exists|k: int| 0 <= k < at.len() && taps(d, iface, #[trigger] at[k], true);
            &&& !ins && !outs ==> raw_side(d, iface) is None
            &&& ins || outs ==> raw_side(d, iface) is Some
            &&& outs && !ins ==> raw_side(d, iface) == Some(Side::West)
            &&& ins && !outs ==> raw_side(d, iface) == Some(Side::East)
        }),
{
    let at = bundle_edges(d, iface);
    lemma_taps(d, iface, true, at.len());
    lemma_taps(d, iface, false, at.len());
}

// --- What a scope draws -------------------------------------------------------

/// Whether two canvases have the same boxes at the same places.
spec fn same_ids(a: Seq<NodeV>, b: Seq<NodeV>) -> bool {
    a.len() == b.len() && forall|k: int| 0 <= k < a.len() ==> (#[trigger] a[k]).id == b[k].id
}

proof fn lemma_memory_ids(
    d: Document,
    boxes: Seq<u32>,
    n: nat,
    nodes: Seq<NodeV>,
    s: crate::schematic::scope::EndsV,
)
    ensures
        same_ids(nodes, crate::schematic::scope::memory_ends(d, boxes, n, nodes, s).0),
    decreases n,
{
    if n > 0 {
        lemma_memory_ids(d, boxes, (n - 1) as nat, nodes, s);
        let (ns, t) = crate::schematic::scope::memory_ends(d, boxes, (n - 1) as nat, nodes, s);
        lemma_index(ns, boxes[n - 1], 0);
    }
}

proof fn lemma_index(nodes: Seq<NodeV>, id: u32, from: int)
    requires
        0 <= from,
    ensures
        crate::schematic::scope::box_index(nodes, id, from) matches Some(i) ==> from <= i
            < nodes.len() && nodes[i].id == id,
    decreases nodes.len() - from,
{
    if from < nodes.len() && nodes[from].id != id {
        lemma_index(nodes, id, from + 1);
    }
}

proof fn lemma_boxes_drawn(d: Document, boxes: Seq<u32>, path: Seq<char>, n: nat, x: u32)
    requires
        n <= boxes.len(),
    ensures
        has_box(box_fold(d, boxes, path, n).0, x) <==> boxes.take(n as int).contains(x) && x
            < d.nodes@.len(),
    decreases n,
{
    if n > 0 {
        lemma_boxes_drawn(d, boxes, path, (n - 1) as nat, x);
        crate::order::lemma_take_contains(boxes, n - 1);
        let (ns, p) = box_fold(d, boxes, path, (n - 1) as nat);
        let b = boxes[n - 1];
        law_boxes_are_drawn_as_they_are(d, b, path, p);
        match drawn(d, b, path, p).0 {
            Some(v) => {
                lemma_box_pushed(ns, v, x);
            },
            None => {},
        }
    }
}

proof fn lemma_box_pushed(nodes: Seq<NodeV>, b: NodeV, x: u32)
    ensures
        has_box(nodes.push(b), x) <==> has_box(nodes, x) || b.id == x,
{
    let all = nodes.push(b);
    if has_box(nodes, x) {
        let k = choose|k: int| 0 <= k < nodes.len() && (#[trigger] nodes[k]).id == x;
        assert(all[k].id == x);
    }
    assert(all[nodes.len() as int] == b);
    if has_box(all, x) {
        let k = choose|k: int| 0 <= k < all.len() && (#[trigger] all[k]).id == x;
        if k < nodes.len() {
            assert(nodes[k].id == x);
        }
    }
}

proof fn lemma_frame_drawn(d: Document, ports: Seq<u32>, n: nat, nodes: Seq<NodeV>, x: u32)
    requires
        n <= ports.len(),
    ensures
        has_box(frame_pins(d, ports, n, nodes), x) <==> has_box(nodes, x) || (ports.take(
            n as int,
        ).contains(x) && x < d.nodes@.len()),
    decreases n,
{
    if n > 0 {
        lemma_frame_drawn(d, ports, (n - 1) as nat, nodes, x);
        crate::order::lemma_take_contains(ports, n - 1);
        match crate::schematic::boxes::frame_pin(d, ports[n - 1]) {
            Some(b) => {
                lemma_box_pushed(frame_pins(d, ports, (n - 1) as nat, nodes), b, x);
            },
            None => {},
        }
    }
}

/// The schematic of a scope draws each of its boxes and each of its own ports.
pub proof fn law_scopes_draw_their_boxes_and_ports(
    d: Document,
    scope: u32,
    path: Seq<char>,
    projection: Projection,
    x: u32,
)
    requires
        (boxes_of(d, scope, projection).contains(x) && x < d.nodes@.len()) || own_port(d, scope, x),
    ensures
        has_box(wired_scope(d, scope, path, projection).nodes, x),
{
    let a = anchors_of(d, scope, projection);
    let (boxes, pins) = box_fold(d, a.boxes, path, a.boxes.len());
    let frame = frame_pins(d, a.own_ports, a.own_ports.len(), boxes);
    lemma_boxes_drawn(d, a.boxes, path, a.boxes.len(), x);
    lemma_frame_drawn(d, a.own_ports, a.own_ports.len(), boxes, x);
    assert(a.boxes.take(a.boxes.len() as int) =~= a.boxes);
    assert(a.own_ports.take(a.own_ports.len() as int) =~= a.own_ports);
    law_scopes_own_their_ports(d, scope, x);
    let k = choose|k: int| 0 <= k < frame.len() && (#[trigger] frame[k]).id == x;
    let (nodes, ends) = scope_ends(d, a, pins, frame);
    lemma_ends_ids(d, a, pins, frame);
    let at = crate::schematic::scope::scope_edges(d, a);
    let w = crate::schematic::wires::joined_signals(
        d,
        path,
        ends.drivers,
        ends.loads,
        crate::schematic::scope::structural(
            d,
            a,
            path,
            at,
            at.len(),
            WiresV { edges: Seq::empty(), seen: Set::empty(), next: d.edges@.len() as u32 },
        ),
    );
    lemma_box_prefix(d, a.boxes, a.boxes.len(), nodes, w);
    assert(frame[k].id == nodes[k].id);
    let g = wired_scope(d, scope, path, projection);
    assert(g.nodes[k].id == x);
}

proof fn lemma_ends_ids(
    d: Document,
    a: crate::schematic::anchors::AnchorsV,
    pins: crate::schematic::pins::Pins,
    nodes: Seq<NodeV>,
)
    ensures
        same_ids(nodes, scope_ends(d, a, pins, nodes).0),
{
    let at = crate::schematic::scope::scope_edges(d, a);
    let members = crate::order::ascending(crate::groups::keys_in(a.iface_pin));
    let owned = crate::order::ascending(a.owner.dom());
    let s = crate::schematic::scope::EndsV { pins, drivers: Seq::empty(), loads: Seq::empty() };
    let s = crate::schematic::scope::edge_fold(d, a, at, at.len(), s);
    let s = crate::schematic::scope::own_ends(d, a.own_ports, a.own_ports.len(), s);
    let s = crate::schematic::scope::member_ends(d, a, members, members.len(), s);
    let s = crate::schematic::scope::raw_ends(d, a, owned, owned.len(), s);
    let s = crate::schematic::scope::gate_ends(d, a.boxes, a.boxes.len(), s);
    lemma_memory_ids(d, a.boxes, a.boxes.len(), nodes, s);
}

proof fn lemma_box_prefix(d: Document, boxes: Seq<u32>, n: nat, nodes: Seq<NodeV>, w: WiresV)
    ensures
        ({
            let ns = box_ties(d, boxes, n, nodes, w).0;
            &&& nodes.len() <= ns.len()
            &&& forall|k: int| 0 <= k < nodes.len() ==> #[trigger] ns[k] == nodes[k]
        }),
    decreases n,
{
    if n > 0 {
        lemma_box_prefix(d, boxes, (n - 1) as nat, nodes, w);
        let (ns, v) = box_ties(d, boxes, (n - 1) as nat, nodes, w);
        let cs = children_at(d, boxes[n - 1]);
        lemma_child_prefix(d, cs, cs.len(), ns, v);
        let ms = box_ties(d, boxes, n, nodes, w).0;
        assert forall|k: int| 0 <= k < nodes.len() implies #[trigger] ms[k] == nodes[k] by {
            assert(ms[k] == ns[k]);
        }
    }
}

proof fn lemma_dissolved(
    d: Document,
    cs: Seq<u32>,
    n: nat,
    projection: Projection,
    fuel: nat,
    j: int,
    x: u32,
)
    requires
        0 <= j < n <= cs.len(),
        fuel > 0,
        has_kind(d, cs[j], NodeKind::GenBlock),
        boxes_in(
            d,
            children_at(d, cs[j]),
            children_at(d, cs[j]).len(),
            projection,
            (fuel - 1) as nat,
        ).contains(x),
    ensures
        boxes_in(d, cs, n, projection, fuel).contains(x),
    decreases n,
{
    let r = boxes_in(d, cs, (n - 1) as nat, projection, fuel);
    let all = boxes_in(d, cs, n, projection, fuel);
    if j == n - 1 {
        let inner = boxes_in(
            d,
            children_at(d, cs[j]),
            children_at(d, cs[j]).len(),
            projection,
            (fuel - 1) as nat,
        );
        let k = choose|k: int| 0 <= k < inner.len() && inner[k] == x;
        assert(all == r + inner);
        assert(all[r.len() + k] == x);
    } else {
        lemma_dissolved(d, cs, (n - 1) as nat, projection, fuel, j, x);
        let k = choose|k: int| 0 <= k < r.len() && r[k] == x;
        assert(all[k] == x);
    }
}

/// A generate block is no box: what it holds is drawn in the scope around it.
pub proof fn law_generate_blocks_dissolve(
    d: Document,
    scope: u32,
    block: u32,
    projection: Projection,
    x: u32,
)
    requires
        nests(d, scope, block),
        d.nodes@[block as int].kind == NodeKind::GenBlock,
        nests(d, block, x),
        own_box(d, projection, x),
    ensures
        boxes_of(d, scope, projection).contains(x),
{
    let cs = children_at(d, scope);
    let inner = children_at(d, block);
    let j = choose|j: int| 0 <= j < cs.len() && cs[j] == block;
    let m = choose|m: int| 0 <= m < inner.len() && inner[m] == x;
    let fuel = d.nodes@.len();
    lemma_own_boxes(d, inner, inner.len(), projection, (fuel - 1) as nat, m);
    lemma_dissolved(d, cs, cs.len(), projection, fuel, j, x);
}

} // verus!
