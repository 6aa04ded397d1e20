//! The wires of a scope: its connections and the ties of constants, no two of them between
//! the same two pins.

use crate::groups::{keys_in, under};
use crate::model::{
    children_at, edge_at, incident, node_at, parent_at, Document, Edge, Node, NodeKind,
};
use crate::order::ascending;
use crate::schematic::anchors::{
    anchors_of, boundary_fold, bundle_members, member_entries, modport_from, owned_fold, owner_fold,
    pin_edges, resolved, sibling_fold, view_anchor, AnchorsV,
};
use crate::schematic::boxes::tie_at;
use crate::schematic::hierarchy::box_above;
use crate::schematic::interface::{kids, kids_of};
use crate::schematic::kinds::{boxes_in, boxes_of, gates_in, gates_of, has_kind};
use crate::schematic::pins::{
    lemma_slot, offset_id, pair_of, pin_id, with_pin, Pins, CONST_ID_BASE, MODPORT_FRAME_BASE,
};
use crate::schematic::scope::{
    box_fold, box_ties, child_ties, edge_ends, edge_fold, frame_pins, gate_ends, member_ends,
    memory_ends, own_ends, pin_ends, raw_ends, scope_edges, scope_ends, structural, view_ends,
    wired_scope, EndsV,
};
use crate::schematic::scope_laws::{connections, lemma_connections};
use crate::schematic::types::{EdgeV, NodeV, Projection};
use crate::schematic::wires::{joined_all, joined_keys, joined_to, Anchor, WiresV};
use vstd::prelude::*;

verus! {

/// Whether a document has a node with an id.
pub open spec fn there(d: Document, id: u32) -> bool {
    node_at(d, id) is Some
}

/// Whether all of several ids are of nodes.
pub open spec fn all_there(d: Document, ids: Seq<u32>) -> bool {
    forall|k: int| 0 <= k < ids.len() ==> there(d, #[trigger] ids[k])
}

// --- Ties ---------------------------------------------------------------------

/// The tied ports among the first `n` of `cs`.
pub open spec fn tied(d: Document, cs: Seq<u32>, n: nat) -> Seq<u32>
    decreases n,
{
    if n == 0 {
        Seq::empty()
    } else {
        let r = tied(d, cs, (n - 1) as nat);
        if has_kind(d, cs[n - 1], NodeKind::Port) && tie_at(d, cs[n - 1]) is Some {
            r.push(cs[n - 1])
        } else {
            r
        }
    }
}

/// The tied ports that the first `n` boxes list.
pub open spec fn tied_ports(d: Document, boxes: Seq<u32>, n: nat) -> Seq<u32>
    decreases n,
{
    if n == 0 {
        Seq::empty()
    } else {
        let cs = children_at(d, boxes[n - 1]);
        tied_ports(d, boxes, (n - 1) as nat) + tied(d, cs, cs.len())
    }
}

/// Whether wires are those of `edges` and then one for each of `ports`, from its constant.
pub open spec fn ties_follow(edges: Seq<EdgeV>, ports: Seq<u32>, all: Seq<EdgeV>) -> bool {
    &&& all.len() == edges.len() + ports.len()
    &&& forall|k: int| 0 <= k < edges.len() ==> #[trigger] all[k] == edges[k]
    &&& forall|k: int|
        edges.len() <= k < all.len() ==> (#[trigger] all[k]).target == ports[k - edges.len()]
            && all[k].source == offset_id(CONST_ID_BASE, ports[k - edges.len()] as nat)
}

proof fn lemma_child_ties(d: Document, cs: Seq<u32>, n: nat, nodes: Seq<NodeV>, w: WiresV)
    ensures
        ties_follow(w.edges, tied(d, cs, n), child_ties(d, cs, n, nodes, w).1.edges),
    decreases n,
{
    if n > 0 {
        lemma_child_ties(d, cs, (n - 1) as nat, nodes, w);
    }
}

pub(crate) proof fn lemma_box_ties(d: Document, boxes: Seq<u32>, n: nat, nodes: Seq<NodeV>, w: WiresV)
    ensures
        ties_follow(w.edges, tied_ports(d, boxes, n), box_ties(d, boxes, n, nodes, w).1.edges),
    decreases n,
{
    if n > 0 {
        lemma_box_ties(d, boxes, (n - 1) as nat, nodes, w);
        let (ns, v) = box_ties(d, boxes, (n - 1) as nat, nodes, w);
        let cs = children_at(d, boxes[n - 1]);
        lemma_child_ties(d, cs, cs.len(), ns, v);
        let all = box_ties(d, boxes, n, nodes, w).1.edges;
        let ports = tied_ports(d, boxes, n);
        assert forall|k: int| w.edges.len() <= k < all.len() implies (#[trigger] all[k]).target
            == ports[k - w.edges.len()] && all[k].source == offset_id(
            CONST_ID_BASE,
            ports[k - w.edges.len()] as nat,
        ) by {
            if k < v.edges.len() {
                assert(all[k] == v.edges[k]);
            }
        }
        assert forall|k: int| 0 <= k < w.edges.len() implies #[trigger] all[k] == w.edges[k] by {
            assert(all[k] == v.edges[k]);
        }
    }
}

proof fn lemma_tied(d: Document, cs: Seq<u32>, n: nat)
    ensures
        all_there(d, tied(d, cs, n)),
    decreases n,
{
    if n > 0 {
        lemma_tied(d, cs, (n - 1) as nat);
    }
}

pub(crate) proof fn lemma_tied_ports(d: Document, boxes: Seq<u32>, n: nat)
    ensures
        all_there(d, tied_ports(d, boxes, n)),
    decreases n,
{
    if n > 0 {
        lemma_tied_ports(d, boxes, (n - 1) as nat);
        let r = tied_ports(d, boxes, (n - 1) as nat);
        let cs = children_at(d, boxes[n - 1]);
        lemma_tied(d, cs, cs.len());
        let all = tied_ports(d, boxes, n);
        assert forall|k: int| 0 <= k < all.len() implies there(d, #[trigger] all[k]) by {
            if k < r.len() {
                assert(all[k] == r[k]);
            } else {
                assert(all[k] == tied(d, cs, cs.len())[k - r.len()]);
            }
        }
    }
}

// --- Where connections end ----------------------------------------------------

/// Whether an id is not one of a constant source.
pub open spec fn no_source(x: u32) -> bool {
    x < CONST_ID_BASE || x >= MODPORT_FRAME_BASE
}

/// Whether an id is one of a node, or of a bundle's raw access port.
pub open spec fn modelled(x: u32) -> bool {
    x < CONST_ID_BASE || crate::schematic::pins::RAW_PORT_BASE <= x
        < crate::schematic::pins::LOGIC_PIN_BASE
}

/// Whether no wire ends at a constant source.
spec fn no_sources(edges: Seq<EdgeV>) -> bool {
    forall|k: int|
        0 <= k < edges.len() ==> no_source((#[trigger] edges[k]).source) && no_source(
            edges[k].target,
        )
}

pub(crate) proof fn lemma_kids(d: Document, cs: Seq<u32>, kind: NodeKind, n: nat)
    ensures
        all_there(d, kids(d, cs, kind, n)),
    decreases n,
{
    if n > 0 {
        lemma_kids(d, cs, kind, (n - 1) as nat);
    }
}

proof fn lemma_gates(d: Document, cs: Seq<u32>, n: nat)
    ensures
        all_there(d, gates_in(d, cs, n)),
    decreases n,
{
    if n > 0 {
        lemma_gates(d, cs, (n - 1) as nat);
    }
}

/// The boxes of a scope are nodes.
pub(crate) proof fn lemma_boxes(
    d: Document,
    cs: Seq<u32>,
    n: nat,
    projection: Projection,
    fuel: nat,
)
    ensures
        all_there(d, boxes_in(d, cs, n, projection, fuel)),
    decreases fuel, n,
{
    if n > 0 {
        lemma_boxes(d, cs, (n - 1) as nat, projection, fuel);
        let r = boxes_in(d, cs, (n - 1) as nat, projection, fuel);
        let c = cs[n - 1];
        let inside = children_at(d, c);
        lemma_gates(d, inside, inside.len());
        if fuel > 0 {
            lemma_boxes(d, inside, inside.len(), projection, (fuel - 1) as nat);
        }
        let b = boxes_in(d, cs, n, projection, fuel);
        assert forall|k: int| 0 <= k < b.len() implies there(d, #[trigger] b[k]) by {
            if k < r.len() {
                assert(b[k] == r[k]);
            } else if has_kind(d, c, NodeKind::GenBlock) {
                let inner = boxes_in(d, inside, inside.len(), projection, (fuel - 1) as nat);
                assert(b[k] == inner[k - r.len()]);
            } else if b.len() > r.len() + 1 || b[k] != c {
                assert(b[k] == gates_of(d, c)[k - r.len()]);
            }
        }
    }
}

/// Whether all values of a map are nodes.
pub open spec fn values_there(d: Document, m: Map<u32, u32>) -> bool {
    forall|x: u32| #[trigger] m.contains_key(x) ==> there(d, m[x])
}

proof fn lemma_siblings(d: Document, cs: Seq<u32>, p: u32, n: nat, m: Map<u32, u32>)
    requires
        there(d, p),
        values_there(d, m),
    ensures
        values_there(d, sibling_fold(d, cs, p, n, m)),
    decreases n,
{
    if n > 0 {
        lemma_siblings(d, cs, p, (n - 1) as nat, m);
    }
}

proof fn lemma_boundary(d: Document, cs: Seq<u32>, ports: Seq<u32>, n: nat)
    requires
        n <= ports.len(),
        all_there(d, ports),
    ensures
        values_there(d, boundary_fold(d, cs, ports, n)),
    decreases n,
{
    if n > 0 {
        lemma_boundary(d, cs, ports, (n - 1) as nat);
        let p = ports[n - 1];
        assert(there(d, ports[n - 1]));
        lemma_siblings(
            d,
            cs,
            p,
            cs.len(),
            boundary_fold(d, cs, ports, (n - 1) as nat).insert(p, p),
        );
    }
}

/// Whether the pins of all member entries are nodes.
pub open spec fn entries_there(d: Document, log: Seq<(u32, (u32, u32))>) -> bool {
    forall|k: int| 0 <= k < log.len() ==> there(d, (#[trigger] log[k]).1.1)
}

proof fn lemma_pin_edges(d: Document, b: u32, pid: u32, n: nat, log: Seq<(u32, (u32, u32))>)
    requires
        there(d, pid),
        entries_there(d, log),
    ensures
        entries_there(d, pin_edges(d, b, pid, n, log)),
    decreases n,
{
    if n > 0 {
        lemma_pin_edges(d, b, pid, (n - 1) as nat, log);
    }
}

proof fn lemma_bundle_members(
    d: Document,
    b: u32,
    pids: Seq<u32>,
    n: nat,
    log: Seq<(u32, (u32, u32))>,
)
    requires
        n <= pids.len(),
        all_there(d, pids),
        entries_there(d, log),
    ensures
        entries_there(d, bundle_members(d, b, pids, n, log)),
    decreases n,
{
    if n > 0 {
        lemma_bundle_members(d, b, pids, (n - 1) as nat, log);
        let pid = pids[n - 1];
        assert(there(d, pids[n - 1]));
        lemma_pin_edges(
            d,
            b,
            pid,
            incident(d, pid).len(),
            bundle_members(d, b, pids, (n - 1) as nat, log),
        );
    }
}

proof fn lemma_member_entries(d: Document, boxes: Seq<u32>, n: nat)
    ensures
        entries_there(d, member_entries(d, boxes, n)),
    decreases n,
{
    if n > 0 {
        lemma_member_entries(d, boxes, (n - 1) as nat);
        let b = boxes[n - 1];
        let pids = kids_of(d, b, NodeKind::Port);
        lemma_kids(d, children_at(d, b), NodeKind::Port, children_at(d, b).len());
        lemma_bundle_members(
            d,
            b,
            pids,
            pids.len(),
            member_entries(d, boxes, (n - 1) as nat),
        );
    }
}

proof fn lemma_owned(d: Document, b: u32, n: nat, m: Map<u32, u32>)
    requires
        there(d, b),
        values_there(d, m),
    ensures
        values_there(d, owned_fold(d, b, n, m)),
    decreases n,
{
    if n > 0 {
        lemma_owned(d, b, (n - 1) as nat, m);
    }
}

proof fn lemma_owner(d: Document, boxes: Seq<u32>, n: nat)
    requires
        n <= boxes.len(),
        all_there(d, boxes),
    ensures
        values_there(d, owner_fold(d, boxes, n)),
    decreases n,
{
    if n > 0 {
        lemma_owner(d, boxes, (n - 1) as nat);
        let b = boxes[n - 1];
        assert(there(d, boxes[n - 1]));
        lemma_owned(
            d,
            b,
            children_at(d, b).len(),
            owner_fold(d, boxes, (n - 1) as nat).insert(b, b),
        );
    }
}

/// Whether an anchoring names nodes only.
pub open spec fn anchors_there(d: Document, a: AnchorsV) -> bool {
    &&& all_there(d, a.boxes)
    &&& all_there(d, a.own_ports)
    &&& values_there(d, a.boundary)
    &&& entries_there(d, a.iface_pin)
    &&& values_there(d, a.owner)
}

pub(crate) proof fn lemma_anchors(d: Document, scope: u32, projection: Projection)
    ensures
        anchors_there(d, anchors_of(d, scope, projection)),
{
    let cs = children_at(d, scope);
    lemma_boxes(d, cs, cs.len(), projection, d.nodes@.len());
    let boxes = boxes_of(d, scope, projection);
    lemma_kids(d, cs, NodeKind::Port, cs.len());
    let ports = kids_of(d, scope, NodeKind::Port);
    lemma_boundary(d, cs, ports, ports.len());
    lemma_member_entries(d, boxes, boxes.len());
    lemma_owner(d, boxes, boxes.len());
}

pub(crate) proof fn lemma_under<T>(log: Seq<(u32, T)>, key: u32, k: int)
    requires
        0 <= k < under(log, key).len(),
    ensures
        exists|j: int| 0 <= j < log.len() && (#[trigger] log[j]).1 == under(log, key)[k],
    decreases log.len(),
{
    let first = log.drop_last();
    let r = under(first, key);
    if k < r.len() {
        lemma_under(first, key, k);
        let j = choose|j: int| 0 <= j < first.len() && (#[trigger] first[j]).1 == r[k];
        assert(log[j] == first[j]);
    } else {
        assert(log[log.len() - 1].1 == under(log, key)[k]);
    }
}

pub(crate) proof fn lemma_there(d: Document, id: u32)
    requires
        there(d, id),
        d.nodes@.len() <= CONST_ID_BASE,
    ensures
        no_source(id),
        no_source(offset_id(crate::schematic::pins::RAW_PORT_BASE, id as nat)),
        modelled(id),
        modelled(offset_id(crate::schematic::pins::RAW_PORT_BASE, id as nat)),
{
}

proof fn lemma_box_above(d: Document, id: u32, boxes: Set<u32>, n: nat)
    ensures
        box_above(d, id, boxes, n) is Some ==> boxes.contains(box_above(d, id, boxes, n)->0),
    decreases n,
{
    if !boxes.contains(id) {
        match parent_at(d, id) {
            Some(p) => {
                if n > 0 {
                    lemma_box_above(d, p, boxes, (n - 1) as nat);
                }
            },
            None => {},
        }
    }
}

pub(crate) proof fn lemma_resolved(d: Document, a: AnchorsV, node: u32)
    requires
        anchors_there(d, a),
        d.nodes@.len() <= CONST_ID_BASE,
    ensures
        resolved(d, a, node) is Some ==> no_source((resolved(d, a, node)->0).1) && modelled(
            (resolved(d, a, node)->0).1,
        ),
{
    if a.boundary.contains_key(node) {
        lemma_there(d, a.boundary[node]);
    } else if under(a.iface_pin, node).len() == 1 {
        lemma_under(a.iface_pin, node, 0);
        let j = choose|j: int|
            0 <= j < a.iface_pin.len() && (#[trigger] a.iface_pin[j]).1 == under(
                a.iface_pin,
                node,
            )[0];
        lemma_there(d, a.iface_pin[j].1.1);
    } else {
        lemma_box_above(d, node, a.boxes.to_set(), d.nodes@.len());
        match box_above(d, node, a.boxes.to_set(), d.nodes@.len()) {
            Some(b) => {
                let i = choose|i: int| 0 <= i < a.boxes.len() && a.boxes[i] == b;
                assert(there(d, a.boxes[i]));
                lemma_there(d, b);
                if a.owner.contains_key(node) {
                    lemma_there(d, a.owner[node]);
                }
            },
            None => {},
        }
    }
}

proof fn lemma_modport(d: Document, b: u32, view: Seq<char>, from: int)
    ensures
        modport_from(d, b, view, from) is Some ==> there(d, modport_from(d, b, view, from)->0),
    decreases children_at(d, b).len() - from,
{
    if 0 <= from < children_at(d, b).len() {
        lemma_modport(d, b, view, from + 1);
    }
}

pub(crate) proof fn lemma_view_anchor(d: Document, a: AnchorsV, b: u32, far: u32)
    requires
        d.nodes@.len() <= CONST_ID_BASE,
    ensures
        view_anchor(d, a, b, far) is Some ==> no_source(view_anchor(d, a, b, far)->0) && modelled(
            view_anchor(d, a, b, far)->0,
        ),
{
    match node_at(d, far) {
        Some(n) => {
            lemma_modport(d, b, crate::text::opt_chars(n.modport)->0, 0);
        },
        None => {},
    }
}

proof fn lemma_structural(
    d: Document,
    a: AnchorsV,
    scope: Seq<char>,
    at: Seq<u32>,
    n: nat,
    w: WiresV,
)
    requires
        anchors_there(d, a),
        d.nodes@.len() <= CONST_ID_BASE,
        no_sources(w.edges),
    ensures
        no_sources(structural(d, a, scope, at, n, w).edges),
    decreases n,
{
    if n > 0 {
        lemma_structural(d, a, scope, at, (n - 1) as nat, w);
        let e = edge_at(d, at[n - 1]);
        lemma_resolved(d, a, e.port);
        lemma_resolved(d, a, e.endpoint);
        match (resolved(d, a, e.port), resolved(d, a, e.endpoint)) {
            (Some(s), Some(t)) => {
                lemma_view_anchor(d, a, s.0, t.1);
                lemma_view_anchor(d, a, t.0, s.1);
            },
            _ => {},
        }
    }
}

/// Whether no end is a constant source.
spec fn ends_clear(ends: Seq<Anchor>) -> bool {
    forall|k: int| 0 <= k < ends.len() ==> no_source((#[trigger] ends[k]).0)
}

/// Whether no end under any key is a constant source.
spec fn log_clear(log: Seq<(u32, Anchor)>) -> bool {
    forall|k: int| 0 <= k < log.len() ==> no_source((#[trigger] log[k]).1.0)
}

/// How many pins can be handed out before their ids run into those of nodes.
pub open spec fn pins_fit(p: Pins) -> bool {
    p.len() <= 0xC000_0000
}

/// Whether gathering goes on from `s` to `t`: pins are only added, and as long as their ids
/// last no end is a constant source.
spec fn gathers(s: EndsV, t: EndsV) -> bool {
    &&& s.pins.len() <= t.pins.len()
    &&& pins_fit(t.pins) && log_clear(s.drivers) && log_clear(s.loads) ==> log_clear(t.drivers)
        && log_clear(t.loads)
}

proof fn lemma_pin(p: Pins, bx: u32, sig: u32)
    ensures
        pins_fit(with_pin(p, bx, sig)) ==> no_source(pin_id(p, bx, sig)),
        p.len() <= with_pin(p, bx, sig).len(),
{
    let q = with_pin(p, bx, sig);
    assert(q.contains((bx, sig))) by {
        if !p.contains((bx, sig)) {
            assert(q[p.len() as int] == (bx, sig));
        }
    }
    lemma_slot(q, (bx, sig));
}

proof fn lemma_edge_ends(d: Document, a: AnchorsV, e: Edge, s: EndsV)
    requires
        d.nodes@.len() <= CONST_ID_BASE,
    ensures
        gathers(s, edge_ends(d, a, e, s)),
{
    lemma_pin(s.pins, e.port, e.endpoint);
    lemma_pin(s.pins, e.port, e.port);
    lemma_pin(s.pins, e.port, crate::schematic::kinds::folded(d, e.endpoint).0);
}

proof fn lemma_edge_fold(d: Document, a: AnchorsV, at: Seq<u32>, n: nat, s: EndsV)
    requires
        d.nodes@.len() <= CONST_ID_BASE,
    ensures
        gathers(s, edge_fold(d, a, at, n, s)),
    decreases n,
{
    if n > 0 {
        lemma_edge_fold(d, a, at, (n - 1) as nat, s);
        lemma_edge_ends(d, a, edge_at(d, at[n - 1]), edge_fold(d, a, at, (n - 1) as nat, s));
    }
}

proof fn lemma_pin_ends(d: Document, key: u32, pin: u32, s: EndsV)
    requires
        no_source(pin),
    ensures
        gathers(s, pin_ends(d, key, pin, s)),
{
}

proof fn lemma_own_ends(d: Document, ports: Seq<u32>, n: nat, s: EndsV)
    requires
        n <= ports.len(),
        all_there(d, ports),
        d.nodes@.len() <= CONST_ID_BASE,
    ensures
        gathers(s, own_ends(d, ports, n, s)),
    decreases n,
{
    if n > 0 {
        lemma_own_ends(d, ports, (n - 1) as nat, s);
        assert(there(d, ports[n - 1]));
        lemma_pin_ends(d, ports[n - 1], ports[n - 1], own_ends(d, ports, (n - 1) as nat, s));
    }
}

proof fn lemma_view_ends(d: Document, sig: u32, views: Seq<(u32, u32)>, n: nat, s: EndsV)
    requires
        n <= views.len(),
        forall|k: int| 0 <= k < views.len() ==> no_source((#[trigger] views[k]).1),
    ensures
        gathers(s, view_ends(d, sig, views, n, s)),
    decreases n,
{
    if n > 0 {
        lemma_view_ends(d, sig, views, (n - 1) as nat, s);
        lemma_pin_ends(d, sig, views[n - 1].1, view_ends(d, sig, views, (n - 1) as nat, s));
    }
}

proof fn lemma_member_ends(d: Document, a: AnchorsV, keys: Seq<u32>, n: nat, s: EndsV)
    requires
        anchors_there(d, a),
        d.nodes@.len() <= CONST_ID_BASE,
    ensures
        gathers(s, member_ends(d, a, keys, n, s)),
    decreases n,
{
    if n > 0 {
        lemma_member_ends(d, a, keys, (n - 1) as nat, s);
        let views = under(a.iface_pin, keys[n - 1]);
        assert forall|k: int| 0 <= k < views.len() implies no_source((#[trigger] views[k]).1) by {
            lemma_under(a.iface_pin, keys[n - 1], k);
            let j = choose|j: int|
                0 <= j < a.iface_pin.len() && (#[trigger] a.iface_pin[j]).1 == views[k];
            lemma_there(d, a.iface_pin[j].1.1);
        }
        lemma_view_ends(
            d,
            keys[n - 1],
            views,
            views.len(),
            member_ends(d, a, keys, (n - 1) as nat, s),
        );
    }
}

proof fn lemma_raw_ends(d: Document, a: AnchorsV, keys: Seq<u32>, n: nat, s: EndsV)
    requires
        anchors_there(d, a),
        n <= keys.len(),
        forall|k: int| 0 <= k < keys.len() ==> a.owner.contains_key(#[trigger] keys[k]),
        d.nodes@.len() <= CONST_ID_BASE,
    ensures
        gathers(s, raw_ends(d, a, keys, n, s)),
    decreases n,
{
    if n > 0 {
        lemma_raw_ends(d, a, keys, (n - 1) as nat, s);
        let m = keys[n - 1];
        assert(a.owner.contains_key(keys[n - 1]));
        lemma_there(d, a.owner[m]);
        lemma_pin_ends(
            d,
            m,
            offset_id(crate::schematic::pins::RAW_PORT_BASE, a.owner[m] as nat),
            raw_ends(d, a, keys, (n - 1) as nat, s),
        );
    }
}

proof fn lemma_gate_ends(d: Document, boxes: Seq<u32>, n: nat, s: EndsV)
    ensures
        gathers(s, gate_ends(d, boxes, n, s)),
    decreases n,
{
    if n > 0 {
        lemma_gate_ends(d, boxes, (n - 1) as nat, s);
        let t = gate_ends(d, boxes, (n - 1) as nat, s);
        lemma_pin(t.pins, boxes[n - 1], boxes[n - 1]);
    }
}

proof fn lemma_memory_ends(d: Document, boxes: Seq<u32>, n: nat, nodes: Seq<NodeV>, s: EndsV)
    ensures
        gathers(s, memory_ends(d, boxes, n, nodes, s).1),
    decreases n,
{
    if n > 0 {
        lemma_memory_ends(d, boxes, (n - 1) as nat, nodes, s);
        let t = memory_ends(d, boxes, (n - 1) as nat, nodes, s).1;
        lemma_pin(t.pins, boxes[n - 1], boxes[n - 1]);
    }
}

proof fn lemma_scope_ends(d: Document, a: AnchorsV, pins: Pins, nodes: Seq<NodeV>)
    requires
        anchors_there(d, a),
        d.nodes@.len() <= CONST_ID_BASE,
        pins_fit(scope_ends(d, a, pins, nodes).1.pins),
    ensures
        log_clear(scope_ends(d, a, pins, nodes).1.drivers),
        log_clear(scope_ends(d, a, pins, nodes).1.loads),
{
    let at = scope_edges(d, a);
    let members = ascending(keys_in(a.iface_pin));
    let owned = ascending(a.owner.dom());
    let s0 = EndsV { pins, drivers: Seq::empty(), loads: Seq::empty() };
    let s1 = edge_fold(d, a, at, at.len(), s0);
    lemma_edge_fold(d, a, at, at.len(), s0);
    let s2 = own_ends(d, a.own_ports, a.own_ports.len(), s1);
    lemma_own_ends(d, a.own_ports, a.own_ports.len(), s1);
    let s3 = member_ends(d, a, members, members.len(), s2);
    lemma_member_ends(d, a, members, members.len(), s2);
    let s4 = raw_ends(d, a, owned, owned.len(), s3);
    crate::order::lemma_ascending(a.owner.dom());
    assert forall|k: int| 0 <= k < owned.len() implies a.owner.contains_key(
        #[trigger] owned[k],
    ) by {
        assert(owned.contains(owned[k]));
        assert(a.owner.dom().contains(owned[k]));
    }
    lemma_raw_ends(d, a, owned, owned.len(), s3);
    let s5 = gate_ends(d, a.boxes, a.boxes.len(), s4);
    lemma_gate_ends(d, a.boxes, a.boxes.len(), s4);
    lemma_memory_ends(d, a.boxes, a.boxes.len(), nodes, s5);
}

proof fn lemma_joined_to(
    sig: Option<Node>,
    scope: Seq<char>,
    dr: Anchor,
    loads: Seq<Anchor>,
    n: nat,
    w: WiresV,
)
    requires
        n <= loads.len(),
        no_source(dr.0),
        ends_clear(loads),
        no_sources(w.edges),
    ensures
        no_sources(joined_to(sig, scope, dr, loads, n, w).edges),
    decreases n,
{
    if n > 0 {
        lemma_joined_to(sig, scope, dr, loads, (n - 1) as nat, w);
        assert(no_source(loads[n - 1].0));
    }
}

proof fn lemma_joined_all(
    sig: Option<Node>,
    scope: Seq<char>,
    drivers: Seq<Anchor>,
    loads: Seq<Anchor>,
    n: nat,
    w: WiresV,
)
    requires
        n <= drivers.len(),
        ends_clear(drivers),
        ends_clear(loads),
        no_sources(w.edges),
    ensures
        no_sources(joined_all(sig, scope, drivers, loads, n, w).edges),
    decreases n,
{
    if n > 0 {
        lemma_joined_all(sig, scope, drivers, loads, (n - 1) as nat, w);
        assert(no_source(drivers[n - 1].0));
        lemma_joined_to(
            sig,
            scope,
            drivers[n - 1],
            loads,
            loads.len(),
            joined_all(sig, scope, drivers, loads, (n - 1) as nat, w),
        );
    }
}

proof fn lemma_under_clear(log: Seq<(u32, Anchor)>, key: u32)
    requires
        log_clear(log),
    ensures
        ends_clear(under(log, key)),
{
    let ends = under(log, key);
    assert forall|k: int| 0 <= k < ends.len() implies no_source((#[trigger] ends[k]).0) by {
        lemma_under(log, key, k);
        let j = choose|j: int| 0 <= j < log.len() && (#[trigger] log[j]).1 == ends[k];
    }
}

proof fn lemma_joined_keys(
    d: Document,
    scope: Seq<char>,
    drivers: Seq<(u32, Anchor)>,
    loads: Seq<(u32, Anchor)>,
    keys: Seq<u32>,
    n: nat,
    w: WiresV,
)
    requires
        log_clear(drivers),
        log_clear(loads),
        no_sources(w.edges),
    ensures
        no_sources(joined_keys(d, scope, drivers, loads, keys, n, w).edges),
    decreases n,
{
    if n > 0 {
        lemma_joined_keys(d, scope, drivers, loads, keys, (n - 1) as nat, w);
        let k = keys[n - 1];
        lemma_under_clear(drivers, k);
        lemma_under_clear(loads, k);
        lemma_joined_all(
            node_at(d, k),
            scope,
            under(drivers, k),
            under(loads, k),
            under(drivers, k).len(),
            joined_keys(d, scope, drivers, loads, keys, (n - 1) as nat, w),
        );
    }
}

// --- Laws ---------------------------------------------------------------------

/// The pins that the graph of a scope hands out.
pub open spec fn scope_pins(d: Document, scope: u32, path: Seq<char>, projection: Projection)
    -> Pins {
    let a = anchors_of(d, scope, projection);
    let (boxes, pins) = box_fold(d, a.boxes, path, a.boxes.len());
    scope_ends(d, a, pins, frame_pins(d, a.own_ports, a.own_ports.len(), boxes)).1.pins
}

proof fn lemma_connections_clear(
    d: Document,
    scope: u32,
    path: Seq<char>,
    projection: Projection,
)
    requires
        d.nodes@.len() <= CONST_ID_BASE,
        pins_fit(scope_pins(d, scope, path, projection)),
    ensures
        no_sources(connections(d, scope, path, projection).edges),
{
    let a = anchors_of(d, scope, projection);
    lemma_anchors(d, scope, projection);
    let at = scope_edges(d, a);
    let (boxes, pins) = box_fold(d, a.boxes, path, a.boxes.len());
    let nodes = frame_pins(d, a.own_ports, a.own_ports.len(), boxes);
    let w0 = WiresV { edges: Seq::empty(), seen: Set::empty(), next: d.edges@.len() as u32 };
    let w = structural(d, a, path, at, at.len(), w0);
    lemma_structural(d, a, path, at, at.len(), w0);
    lemma_scope_ends(d, a, pins, nodes);
    let ends = scope_ends(d, a, pins, nodes).1;
    let keys = ascending(keys_in(ends.drivers));
    lemma_joined_keys(d, path, ends.drivers, ends.loads, keys, keys.len(), w);
}

/// However many edges of the design connect two pins of a scope, one wire is drawn between
/// them, and a tied port has one wire from its constant: no two wires of the scope join the
/// same two pins, as long as ids last and no tied port is listed twice.
pub proof fn law_scope_connections_are_drawn_once(
    d: Document,
    scope: u32,
    path: Seq<char>,
    projection: Projection,
    i: int,
    j: int,
)
    requires
        d.nodes@.len() <= CONST_ID_BASE,
        pins_fit(scope_pins(d, scope, path, projection)),
        ({
            let boxes = boxes_of(d, scope, projection);
            tied_ports(d, boxes, boxes.len()).no_duplicates()
        }),
        0 <= i < j < wired_scope(d, scope, path, projection).edges.len(),
    ensures
        ({
            let g = wired_scope(d, scope, path, projection);
            pair_of(g.edges[i].source, g.edges[i].target) != pair_of(
                g.edges[j].source,
                g.edges[j].target,
            )
        }),
{
    let a = anchors_of(d, scope, projection);
    let c = connections(d, scope, path, projection);
    lemma_connections(d, scope, path, projection);
    lemma_connections_clear(d, scope, path, projection);
    let (boxes, pins) = box_fold(d, a.boxes, path, a.boxes.len());
    let nodes = frame_pins(d, a.own_ports, a.own_ports.len(), boxes);
    let more = scope_ends(d, a, pins, nodes).0;
    lemma_box_ties(d, a.boxes, a.boxes.len(), more, c);
    let ports = tied_ports(d, a.boxes, a.boxes.len());
    lemma_tied_ports(d, a.boxes, a.boxes.len());
    let g = wired_scope(d, scope, path, projection);
    assert(ties_follow(c.edges, ports, g.edges));
    let n = c.edges.len();
    if j < n {
        assert(g.edges[i] == c.edges[i] && g.edges[j] == c.edges[j]);
    } else {
        let q = ports[j - n];
        assert(there(d, ports[j - n]));
        assert(g.edges[j].target == q);
        if i < n {
            assert(g.edges[i] == c.edges[i]);
            assert(no_source(c.edges[i].source) && no_source(c.edges[i].target));
        } else {
            let p = ports[i - n];
            assert(there(d, ports[i - n]));
            assert(g.edges[i].target == p);
            assert(p != q);
        }
    }
}

/// Apart from tied constants, one wire is drawn between two pins of a scope, whatever the
/// document.
pub proof fn law_scope_joins_are_drawn_once(
    d: Document,
    scope: u32,
    path: Seq<char>,
    projection: Projection,
    i: int,
    j: int,
)
    requires
        0 <= i < j < connections(d, scope, path, projection).edges.len(),
    ensures
        ({
            let g = wired_scope(d, scope, path, projection);
            &&& j < g.edges.len()
            &&& pair_of(g.edges[i].source, g.edges[i].target) != pair_of(
                g.edges[j].source,
                g.edges[j].target,
            )
        }),
{
    let a = anchors_of(d, scope, projection);
    let c = connections(d, scope, path, projection);
    lemma_connections(d, scope, path, projection);
    let (boxes, pins) = box_fold(d, a.boxes, path, a.boxes.len());
    let nodes = frame_pins(d, a.own_ports, a.own_ports.len(), boxes);
    lemma_box_ties(d, a.boxes, a.boxes.len(), scope_ends(d, a, pins, nodes).0, c);
    let g = wired_scope(d, scope, path, projection);
    assert(g.edges[i] == c.edges[i] && g.edges[j] == c.edges[j]);
}

} // verus!
