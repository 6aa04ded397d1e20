//! Which way wires run in the schematic of a scope: from what drives a signal to what reads it.

use crate::groups::{keys_in, under};
use crate::model::{edge_at, path_at, Dir, Document, Node, NodeKind};
use crate::model_laws::law_groups_list_their_edges;
use crate::order::ascending;
use crate::schematic::anchors::{
    anchors_of, boundary_fold, member_entries, owner_fold, resolved, sibling_fold,
};
use crate::schematic::box_laws::{extends, is_logic, is_primitive, lemma_pin_stays, lemma_with_pin};
use crate::schematic::interface::{kids, kids_of};
use crate::schematic::join_laws::{
    lemma_box_fold, lemma_edge_ends, lemma_edge_fold, lemma_gate_ends, lemma_memory_ends,
    lemma_own_ends, own_port, signal_of,
};
use crate::schematic::kinds::{boxes_of, folded, gate_at, has_kind, logic_at};
use crate::schematic::pins::{offset_id, pin_id, Pins, CONST_ID_BASE};
use crate::schematic::scope::{
    box_fold, edge_ends, edge_fold, frame_pins, gate_ends, member_ends, memory_ends, own_ends,
    raw_ends, scope_edges, scope_ends, scope_ids, structural, wired_scope, EndsV,
};
use crate::schematic::tie_laws::{
    lemma_anchors, lemma_box_ties, lemma_resolved, lemma_view_anchor, modelled, scope_pins,
};
use crate::schematic::types::{EdgeV, NodeV, Projection};
use crate::schematic::wires::{joined_all, joined_keys, joined_to, Anchor, WiresV};
use vstd::prelude::*;

verus! {

// --- The frame ----------------------------------------------------------------

proof fn lemma_kids(d: Document, cs: Seq<u32>, n: nat, x: u32)
    requires
        n <= cs.len(),
    ensures
        kids(d, cs, NodeKind::Port, n).contains(x) <==> cs.take(n as int).contains(x) && has_kind(
            d,
            x,
            NodeKind::Port,
        ),
    decreases n,
{
    if n > 0 {
        lemma_kids(d, cs, (n - 1) as nat, x);
        crate::order::lemma_take_contains(cs, n - 1);
        let r = kids(d, cs, NodeKind::Port, (n - 1) as nat);
        let all = kids(d, cs, NodeKind::Port, n);
        if has_kind(d, cs[n - 1], NodeKind::Port) {
            assert(all == r.push(cs[n - 1]));
            assert(all.contains(x) <==> r.contains(x) || x == cs[n - 1]) by {
                if r.contains(x) {
                    let k = choose|k: int| 0 <= k < r.len() && r[k] == x;
                    assert(all[k] == x);
                }
                assert(all[r.len() as int] == cs[n - 1]);
                if all.contains(x) {
                    let k = choose|k: int| 0 <= k < all.len() && all[k] == x;
                    if k < r.len() {
                        assert(r[k] == x);
                    }
                }
            }
        }
    }
}

/// A scope's own ports are those of its children that are ports.
pub proof fn law_scopes_own_their_ports(d: Document, scope: u32, x: u32)
    ensures
        kids_of(d, scope, NodeKind::Port).contains(x) <==> own_port(d, scope, x),
{
    let cs = crate::model::children_at(d, scope);
    lemma_kids(d, cs, cs.len(), x);
    assert(cs.take(cs.len() as int) =~= cs);
}

proof fn lemma_siblings(
    d: Document,
    cs: Seq<u32>,
    p: u32,
    n: nat,
    m: Map<u32, u32>,
    x: u32,
)
    requires
        n <= cs.len(),
    ensures
        ({
            let r = sibling_fold(d, cs, p, n, m);
            let new = cs.take(n as int).contains(x) && x != p && path_at(d, x) == path_at(d, p);
            &&& r.contains_key(x) <==> m.contains_key(x) || new
            &&& new ==> r[x] == p
            &&& !new && m.contains_key(x) ==> r[x] == m[x]
        }),
    decreases n,
{
    if n > 0 {
        lemma_siblings(d, cs, p, (n - 1) as nat, m, x);
        crate::order::lemma_take_contains(cs, n - 1);
    }
}

proof fn lemma_boundary(d: Document, cs: Seq<u32>, ports: Seq<u32>, n: nat, x: u32)
    requires
        n <= ports.len(),
    ensures
        ({
            let m = boundary_fold(d, cs, ports, n);
            &&& m.contains_key(x) <==> exists|k: int|
                0 <= k < n && (#[trigger] ports[k] == x || (cs.contains(x) && path_at(d, x)
                    == path_at(d, ports[k])))
            &&& m.contains_key(x) ==> exists|k: int|
                0 <= k < n && m[x] == #[trigger] ports[k] && path_at(d, x) == path_at(d, ports[k])
        }),
    decreases n,
{
    if n > 0 {
        let p = ports[n - 1];
        let r = boundary_fold(d, cs, ports, (n - 1) as nat);
        lemma_boundary(d, cs, ports, (n - 1) as nat, x);
        lemma_siblings(d, cs, p, cs.len(), r.insert(p, p), x);
        assert(cs.take(cs.len() as int) =~= cs);
        let m = boundary_fold(d, cs, ports, n);
        if exists|k: int|
            0 <= k < n && (#[trigger] ports[k] == x || (cs.contains(x) && path_at(d, x) == path_at(
                d,
                ports[k],
            ))) {
            let k = choose|k: int|
                0 <= k < n && (#[trigger] ports[k] == x || (cs.contains(x) && path_at(d, x)
                    == path_at(d, ports[k])));
            if k < n - 1 {
                assert(ports[k] == x || (cs.contains(x) && path_at(d, x) == path_at(d, ports[k])));
            }
        }
        if m.contains_key(x) {
            if m[x] == p && path_at(d, x) == path_at(d, p) {
                assert(m[x] == ports[n - 1]);
            } else {
                let k = choose|k: int|
                    0 <= k < n - 1 && r[x] == #[trigger] ports[k] && path_at(d, x) == path_at(
                        d,
                        ports[k],
                    );
                assert(m[x] == ports[k]);
            }
            if x == p || (cs.contains(x) && path_at(d, x) == path_at(d, p)) {
                assert(ports[n - 1] == p);
            } else {
                assert(r.contains_key(x));
            }
        }
    }
}

/// Whether a node of a scope is at the path of one of the scope's own ports, or is one.
pub open spec fn at_frame(d: Document, scope: u32, x: u32) -> bool {
    own_port(d, scope, x) || exists|p: u32| #[trigger]
        own_port(d, scope, p) && d.nodes@[scope as int].children@.contains(x) && x < d.nodes@.len()
            && d.nodes@[x as int].path@ == d.nodes@[p as int].path@
}

/// Inside a scope, an own port and what shares its path are one signal, the port's; anything
/// else is a signal of its own.
pub proof fn law_ports_stand_for_their_path(d: Document, scope: u32, projection: Projection, x: u32)
    ensures
        at_frame(d, scope, x) ==> own_port(d, scope, signal_of(d, scope, projection, x))
            && d.nodes@[signal_of(d, scope, projection, x) as int].path@
            == d.nodes@[x as int].path@,
        !at_frame(d, scope, x) ==> signal_of(d, scope, projection, x) == x,
{
    let cs = crate::model::children_at(d, scope);
    let ports = kids_of(d, scope, NodeKind::Port);
    let m = boundary_fold(d, cs, ports, ports.len());
    lemma_boundary(d, cs, ports, ports.len(), x);
    law_scopes_own_their_ports(d, scope, x);
    assert(anchors_of(d, scope, projection).boundary == m);
    if at_frame(d, scope, x) {
        if own_port(d, scope, x) {
            let k = choose|k: int| 0 <= k < ports.len() && ports[k] == x;
            assert(ports[k] == x);
        } else {
            let p = choose|p: u32| #[trigger]
                own_port(d, scope, p) && d.nodes@[scope as int].children@.contains(x) && x
                    < d.nodes@.len() && d.nodes@[x as int].path@ == d.nodes@[p as int].path@;
            law_scopes_own_their_ports(d, scope, p);
            let k = choose|k: int| 0 <= k < ports.len() && ports[k] == p;
            assert(cs.contains(x) && path_at(d, x) == path_at(d, ports[k]));
        }
        assert(m.contains_key(x));
    }
    if m.contains_key(x) {
        let k = choose|k: int|
            0 <= k < ports.len() && m[x] == #[trigger] ports[k] && path_at(d, x) == path_at(
                d,
                ports[k],
            );
        assert(ports.contains(ports[k]));
        law_scopes_own_their_ports(d, scope, ports[k]);
        let j = choose|j: int|
            0 <= j < ports.len() && (#[trigger] ports[j] == x || (cs.contains(x) && path_at(d, x)
                == path_at(d, ports[j])));
        assert(ports.contains(ports[j]));
        law_scopes_own_their_ports(d, scope, ports[j]);
        assert(x < d.nodes@.len());
    }
}

// --- Ends ---------------------------------------------------------------------

/// Whether a node is a port whose parent is an instance among `boxes`.
pub open spec fn on_instance(d: Document, boxes: Seq<u32>, id: u32) -> bool {
    &&& id < d.nodes@.len() && d.nodes@[id as int].kind == NodeKind::Port
    &&& d.nodes@[id as int].parent is Some && boxes.contains(d.nodes@[id as int].parent->0)
    &&& d.nodes@[id as int].parent->0 < d.nodes@.len()
    &&& d.nodes@[d.nodes@[id as int].parent->0 as int].kind == NodeKind::Instance
}

/// Whether edge `i` has a pin drive a node: an output of logic, the result of a primitive, or
/// a port of an instance that is no input.
pub open spec fn drives_by(d: Document, boxes: Seq<u32>, pins: Pins, i: int, pin: u32) -> bool {
    let e = d.edges@[i];
    &&& 0 <= i < d.edges@.len()
    &&& {
        ||| is_logic(d, e.port) && boxes.contains(e.port) && e.dir == Dir::Out && pin == pin_id(
            pins,
            e.port,
            e.endpoint,
        )
        ||| is_primitive(d, e.port) && boxes.contains(e.port) && e.dir == Dir::Out && pin
            == pin_id(pins, e.port, e.port)
        ||| on_instance(d, boxes, e.port) && e.dir != Dir::In && pin == e.port
    }
}

/// Whether edge `i` has a pin read a node: an input of logic or of a primitive, or a port of
/// an instance that is no output.
pub open spec fn reads_by(d: Document, boxes: Seq<u32>, pins: Pins, i: int, pin: u32) -> bool {
    let e = d.edges@[i];
    &&& 0 <= i < d.edges@.len()
    &&& {
        ||| is_logic(d, e.port) && boxes.contains(e.port) && e.dir != Dir::Out && pin == pin_id(
            pins,
            e.port,
            e.endpoint,
        )
        ||| is_primitive(d, e.port) && boxes.contains(e.port) && e.dir != Dir::Out && pin
            == pin_id(pins, e.port, folded(d, e.endpoint).0)
        ||| on_instance(d, boxes, e.port) && e.dir != Dir::Out && pin == e.port
    }
}

/// The node that an edge's pin reads: what stands behind a folded inverter on a primitive,
/// and the edge's endpoint otherwise.
pub open spec fn read_by(d: Document, i: int) -> u32 {
    if is_primitive(d, d.edges@[i].port) {
        folded(d, d.edges@[i].endpoint).0
    } else {
        d.edges@[i].endpoint
    }
}

/// Whether a pin drives signal `key`: by an edge, as an own port of the scope that is no
/// output, or as the result of a primitive or the read-out of a memory that is the signal.
pub open spec fn gives(
    d: Document,
    scope: u32,
    projection: Projection,
    pins: Pins,
    key: u32,
    pin: u32,
) -> bool {
    let boxes = boxes_of(d, scope, projection);
    ||| exists|i: int| #[trigger]
        drives_by(d, boxes, pins, i, pin) && signal_of(
            d,
            scope,
            projection,
            d.edges@[i].endpoint,
        ) == key
    ||| own_port(d, scope, pin) && key == pin && d.nodes@[pin as int].dir != Some(Dir::Out)
    ||| boxes.contains(key) && key < d.nodes@.len() && (is_primitive(d, key)
        || d.nodes@[key as int].kind == NodeKind::Memory) && pin == pin_id(pins, key, key)
}

/// Whether a pin reads signal `key`: by an edge, or as an own port of the scope that is no
/// input.
pub open spec fn takes(
    d: Document,
    scope: u32,
    projection: Projection,
    pins: Pins,
    key: u32,
    pin: u32,
) -> bool {
    let boxes = boxes_of(d, scope, projection);
    ||| exists|i: int| #[trigger]
        reads_by(d, boxes, pins, i, pin) && signal_of(d, scope, projection, read_by(d, i)) == key
    ||| own_port(d, scope, pin) && key == pin && d.nodes@[pin as int].dir != Some(Dir::In)
}

/// Whether all that was gathered drives and reads as it should.
spec fn right(d: Document, scope: u32, projection: Projection, last: Pins, s: EndsV) -> bool {
    &&& forall|k: int|
        0 <= k < s.drivers.len() ==> gives(
            d,
            scope,
            projection,
            last,
            (#[trigger] s.drivers[k]).0,
            s.drivers[k].1.0,
        )
    &&& forall|k: int|
        0 <= k < s.loads.len() ==> takes(
            d,
            scope,
            projection,
            last,
            (#[trigger] s.loads[k]).0,
            s.loads[k].1.0,
        )
}

proof fn lemma_edge(
    d: Document,
    scope: u32,
    projection: Projection,
    last: Pins,
    i: int,
    s: EndsV,
)
    requires
        0 <= i < d.edges@.len(),
        right(d, scope, projection, last, s),
        s.pins.no_duplicates(),
        extends(edge_ends(d, anchors_of(d, scope, projection), d.edges@[i], s).pins, last),
    ensures
        right(
            d,
            scope,
            projection,
            last,
            edge_ends(d, anchors_of(d, scope, projection), d.edges@[i], s),
        ),
{
    let a = anchors_of(d, scope, projection);
    let e = d.edges@[i];
    let t = edge_ends(d, a, e, s);
    let sig = folded(d, e.endpoint).0;
    let boxes = boxes_of(d, scope, projection);
    if logic_at(d, e.port) && a.boxes.contains(e.port) {
        lemma_pin_stays(s.pins, last, e.port, e.endpoint);
        let pin = pin_id(s.pins, e.port, e.endpoint);
        assert(!is_primitive(d, e.port));
        if e.dir == Dir::Out {
            assert(drives_by(d, boxes, last, i, pin));
        } else {
            assert(reads_by(d, boxes, last, i, pin));
        }
    } else if gate_at(d, e.port) && a.boxes.contains(e.port) {
        assert(is_primitive(d, e.port));
        if e.dir == Dir::Out {
            lemma_pin_stays(s.pins, last, e.port, e.port);
            assert(drives_by(d, boxes, last, i, pin_id(s.pins, e.port, e.port)));
        } else {
            lemma_pin_stays(s.pins, last, e.port, sig);
            assert(reads_by(d, boxes, last, i, pin_id(s.pins, e.port, sig)));
        }
    } else if crate::schematic::scope::instance_port(d, a, e.port) {
        assert(on_instance(d, boxes, e.port));
        if e.dir != Dir::In {
            assert(drives_by(d, boxes, last, i, e.port));
        }
        if e.dir != Dir::Out {
            assert(reads_by(d, boxes, last, i, e.port));
        }
    }
}

proof fn lemma_edges(
    d: Document,
    scope: u32,
    projection: Projection,
    last: Pins,
    n: nat,
    s: EndsV,
)
    requires
        n <= scope_edges(d, anchors_of(d, scope, projection)).len(),
        right(d, scope, projection, last, s),
        s.pins.no_duplicates(),
        extends(
            edge_fold(
                d,
                anchors_of(d, scope, projection),
                scope_edges(d, anchors_of(d, scope, projection)),
                n,
                s,
            ).pins,
            last,
        ),
    ensures
        right(
            d,
            scope,
            projection,
            last,
            edge_fold(
                d,
                anchors_of(d, scope, projection),
                scope_edges(d, anchors_of(d, scope, projection)),
                n,
                s,
            ),
        ),
    decreases n,
{
    if n > 0 {
        let a = anchors_of(d, scope, projection);
        let at = scope_edges(d, a);
        let v = edge_fold(d, a, at, (n - 1) as nat, s);
        let i = at[n - 1];
        assert(at.contains(i));
        law_groups_list_their_edges(d.edges@, scope_ids(d, a), i);
        lemma_edge_fold(d, a, at, (n - 1) as nat, s);
        lemma_edge_ends(d, a, edge_at(d, i), v);
        lemma_edges(d, scope, projection, last, (n - 1) as nat, s);
        lemma_edge(d, scope, projection, last, i as int, v);
    }
}

proof fn lemma_own(
    d: Document,
    scope: u32,
    projection: Projection,
    last: Pins,
    n: nat,
    s: EndsV,
)
    requires
        n <= kids_of(d, scope, NodeKind::Port).len(),
        right(d, scope, projection, last, s),
    ensures
        right(
            d,
            scope,
            projection,
            last,
            own_ends(d, kids_of(d, scope, NodeKind::Port), n, s),
        ),
    decreases n,
{
    if n > 0 {
        let ports = kids_of(d, scope, NodeKind::Port);
        lemma_own(d, scope, projection, last, (n - 1) as nat, s);
        assert(ports.contains(ports[n - 1]));
        law_scopes_own_their_ports(d, scope, ports[n - 1]);
    }
}

proof fn lemma_gates(
    d: Document,
    scope: u32,
    projection: Projection,
    last: Pins,
    n: nat,
    s: EndsV,
)
    requires
        n <= boxes_of(d, scope, projection).len(),
        right(d, scope, projection, last, s),
        s.pins.no_duplicates(),
        extends(gate_ends(d, boxes_of(d, scope, projection), n, s).pins, last),
    ensures
        right(
            d,
            scope,
            projection,
            last,
            gate_ends(d, boxes_of(d, scope, projection), n, s),
        ),
    decreases n,
{
    if n > 0 {
        let boxes = boxes_of(d, scope, projection);
        let b = boxes[n - 1];
        let t = gate_ends(d, boxes, (n - 1) as nat, s);
        lemma_gate_ends(d, boxes, (n - 1) as nat, s);
        lemma_with_pin(t.pins, b, b);
        lemma_gates(d, scope, projection, last, (n - 1) as nat, s);
        if gate_at(d, b) {
            lemma_pin_stays(t.pins, last, b, b);
            assert(boxes.contains(b));
            assert(is_primitive(d, b));
        }
    }
}

proof fn lemma_memories(
    d: Document,
    scope: u32,
    projection: Projection,
    last: Pins,
    n: nat,
    nodes: Seq<NodeV>,
    s: EndsV,
)
    requires
        n <= boxes_of(d, scope, projection).len(),
        right(d, scope, projection, last, s),
        s.pins.no_duplicates(),
        extends(memory_ends(d, boxes_of(d, scope, projection), n, nodes, s).1.pins, last),
    ensures
        right(
            d,
            scope,
            projection,
            last,
            memory_ends(d, boxes_of(d, scope, projection), n, nodes, s).1,
        ),
    decreases n,
{
    if n > 0 {
        let boxes = boxes_of(d, scope, projection);
        let b = boxes[n - 1];
        let t = memory_ends(d, boxes, (n - 1) as nat, nodes, s).1;
        lemma_memory_ends(d, boxes, (n - 1) as nat, nodes, s);
        lemma_with_pin(t.pins, b, b);
        lemma_memories(d, scope, projection, last, (n - 1) as nat, nodes, s);
        if has_kind(d, b, NodeKind::Memory) && keys_in(t.loads).contains(b) {
            lemma_pin_stays(t.pins, last, b, b);
            assert(boxes.contains(b));
        }
    }
}

// --- Scopes without interfaces ------------------------------------------------

/// Whether none of several boxes is an interface.
pub open spec fn no_interfaces(d: Document, boxes: Seq<u32>) -> bool {
    forall|k: int|
        0 <= k < boxes.len() && (#[trigger] boxes[k]) < d.nodes@.len()
            ==> d.nodes@[boxes[k] as int].kind != NodeKind::Interface
}

proof fn lemma_no_members(d: Document, boxes: Seq<u32>, n: nat)
    requires
        n <= boxes.len(),
        no_interfaces(d, boxes),
    ensures
        member_entries(d, boxes, n).len() == 0,
        owner_fold(d, boxes, n) == Map::<u32, u32>::empty(),
    decreases n,
{
    if n > 0 {
        lemma_no_members(d, boxes, (n - 1) as nat);
        assert(boxes[n - 1] < d.nodes@.len() ==> d.nodes@[boxes[n - 1] as int].kind
            != NodeKind::Interface);
    }
}

proof fn lemma_ends(
    d: Document,
    scope: u32,
    projection: Projection,
    pins: Pins,
    nodes: Seq<NodeV>,
)
    requires
        pins.no_duplicates(),
        no_interfaces(d, boxes_of(d, scope, projection)),
    ensures
        ({
            let s = scope_ends(d, anchors_of(d, scope, projection), pins, nodes).1;
            right(d, scope, projection, s.pins, s)
        }),
{
    let a = anchors_of(d, scope, projection);
    let at = scope_edges(d, a);
    lemma_no_members(d, a.boxes, a.boxes.len());
    let members = ascending(keys_in(a.iface_pin));
    let owned = ascending(a.owner.dom());
    assert(keys_in(a.iface_pin) =~= Set::empty());
    assert(a.owner.dom() =~= Set::empty());
    crate::order::lemma_ascending(keys_in(a.iface_pin));
    crate::order::lemma_ascending(a.owner.dom());
    assert(members.len() == 0) by {
        if members.len() > 0 {
            let x = members[0];
            assert(members.contains(x));
            assert(keys_in(a.iface_pin).contains(x));
            assert(Set::<u32>::empty().contains(x));
        }
    }
    assert(owned.len() == 0) by {
        if owned.len() > 0 {
            assert(owned.contains(owned[0]));
        }
    }
    let s0 = EndsV { pins, drivers: Seq::empty(), loads: Seq::empty() };
    let s1 = edge_fold(d, a, at, at.len(), s0);
    let s2 = own_ends(d, a.own_ports, a.own_ports.len(), s1);
    assert(member_ends(d, a, members, members.len(), s2) == s2);
    assert(raw_ends(d, a, owned, owned.len(), s2) == s2);
    let s5 = gate_ends(d, a.boxes, a.boxes.len(), s2);
    let end = memory_ends(d, a.boxes, a.boxes.len(), nodes, s5).1;
    lemma_edge_fold(d, a, at, at.len(), s0);
    lemma_own_ends(d, a.own_ports, a.own_ports.len(), a.own_ports.len(), s1);
    lemma_gate_ends(d, a.boxes, a.boxes.len(), s2);
    lemma_memory_ends(d, a.boxes, a.boxes.len(), nodes, s5);
    let last = end.pins;
    assert(extends(s5.pins, last));
    lemma_longer(s2.pins, s5.pins, last);
    lemma_longer(s1.pins, s2.pins, last);
    assert(extends(last, last));
    lemma_edges(d, scope, projection, last, at.len(), s0);
    lemma_own(d, scope, projection, last, a.own_ports.len(), s1);
    lemma_gates(d, scope, projection, last, a.boxes.len(), s2);
    lemma_memories(d, scope, projection, last, a.boxes.len(), nodes, s5);
}

proof fn lemma_longer(p: Pins, q: Pins, r: Pins)
    requires
        extends(p, q),
        extends(q, r),
    ensures
        extends(p, r),
{
    assert forall|k: int| 0 <= k < p.len() implies #[trigger] r[k] == p[k] by {
        assert(q[k] == p[k]);
    }
}

// --- Wires --------------------------------------------------------------------

/// Whether a wire runs from what drives a signal to what reads the same signal.
pub open spec fn runs_right(
    d: Document,
    scope: u32,
    projection: Projection,
    pins: Pins,
    e: EdgeV,
) -> bool {
    exists|key: u32| #[trigger]
        gives(d, scope, projection, pins, key, e.source) && takes(
            d,
            scope,
            projection,
            pins,
            key,
            e.target,
        )
}

/// Whether a wire runs right, or joins two nodes of the design.
spec fn wire_ok(d: Document, scope: u32, projection: Projection, pins: Pins, e: EdgeV) -> bool {
    runs_right(d, scope, projection, pins, e) || (modelled(e.source) && modelled(e.target))
}

spec fn wires_ok(
    d: Document,
    scope: u32,
    projection: Projection,
    pins: Pins,
    edges: Seq<EdgeV>,
) -> bool {
    forall|k: int|
        0 <= k < edges.len() ==> wire_ok(d, scope, projection, pins, #[trigger] edges[k])
}

proof fn lemma_under(log: Seq<(u32, Anchor)>, key: u32, k: int)
    requires
        0 <= k < under(log, key).len(),
    ensures
        exists|j: int| 0 <= j < log.len() && #[trigger] log[j] == (key, under(log, key)[k]),
    decreases log.len(),
{
    let first = log.drop_last();
    let r = under(first, key);
    if k < r.len() {
        lemma_under(first, key, k);
        let j = choose|j: int| 0 <= j < first.len() && #[trigger] first[j] == (key, r[k]);
        assert(log[j] == first[j]);
    } else {
        assert(log[log.len() - 1] == (key, under(log, key)[k]));
    }
}

proof fn lemma_joined_to(
    d: Document,
    scope: u32,
    projection: Projection,
    pins: Pins,
    sig: Option<Node>,
    path: Seq<char>,
    key: u32,
    dr: Anchor,
    ls: Seq<Anchor>,
    n: nat,
    w: WiresV,
)
    requires
        n <= ls.len(),
        wires_ok(d, scope, projection, pins, w.edges),
        gives(d, scope, projection, pins, key, dr.0),
        forall|k: int|
            0 <= k < ls.len() ==> takes(d, scope, projection, pins, key, (#[trigger] ls[k]).0),
    ensures
        wires_ok(d, scope, projection, pins, joined_to(sig, path, dr, ls, n, w).edges),
    decreases n,
{
    if n > 0 {
        lemma_joined_to(d, scope, projection, pins, sig, path, key, dr, ls, (n - 1) as nat, w);
        assert(takes(d, scope, projection, pins, key, ls[n - 1].0));
    }
}

proof fn lemma_joined_all(
    d: Document,
    scope: u32,
    projection: Projection,
    pins: Pins,
    sig: Option<Node>,
    path: Seq<char>,
    key: u32,
    ds: Seq<Anchor>,
    ls: Seq<Anchor>,
    n: nat,
    w: WiresV,
)
    requires
        n <= ds.len(),
        wires_ok(d, scope, projection, pins, w.edges),
        forall|k: int|
            0 <= k < ds.len() ==> gives(d, scope, projection, pins, key, (#[trigger] ds[k]).0),
        forall|k: int|
            0 <= k < ls.len() ==> takes(d, scope, projection, pins, key, (#[trigger] ls[k]).0),
    ensures
        wires_ok(d, scope, projection, pins, joined_all(sig, path, ds, ls, n, w).edges),
    decreases n,
{
    if n > 0 {
        lemma_joined_all(d, scope, projection, pins, sig, path, key, ds, ls, (n - 1) as nat, w);
        assert(gives(d, scope, projection, pins, key, ds[n - 1].0));
        lemma_joined_to(
            d,
            scope,
            projection,
            pins,
            sig,
            path,
            key,
            ds[n - 1],
            ls,
            ls.len(),
            joined_all(sig, path, ds, ls, (n - 1) as nat, w),
        );
    }
}

proof fn lemma_joined_keys(
    d: Document,
    scope: u32,
    projection: Projection,
    pins: Pins,
    path: Seq<char>,
    s: EndsV,
    keys: Seq<u32>,
    n: nat,
    w: WiresV,
)
    requires
        n <= keys.len(),
        right(d, scope, projection, pins, s),
        wires_ok(d, scope, projection, pins, w.edges),
    ensures
        wires_ok(
            d,
            scope,
            projection,
            pins,
            joined_keys(d, path, s.drivers, s.loads, keys, n, w).edges,
        ),
    decreases n,
{
    if n > 0 {
        lemma_joined_keys(d, scope, projection, pins, path, s, keys, (n - 1) as nat, w);
        let key = keys[n - 1];
        let ds = under(s.drivers, key);
        let ls = under(s.loads, key);
        assert forall|k: int| 0 <= k < ds.len() implies gives(
            d,
            scope,
            projection,
            pins,
            key,
            (#[trigger] ds[k]).0,
        ) by {
            lemma_under(s.drivers, key, k);
        }
        assert forall|k: int| 0 <= k < ls.len() implies takes(
            d,
            scope,
            projection,
            pins,
            key,
            (#[trigger] ls[k]).0,
        ) by {
            lemma_under(s.loads, key, k);
        }
        lemma_joined_all(
            d,
            scope,
            projection,
            pins,
            crate::model::node_at(d, key),
            path,
            key,
            ds,
            ls,
            ds.len(),
            joined_keys(d, path, s.drivers, s.loads, keys, (n - 1) as nat, w),
        );
    }
}

proof fn lemma_structural(
    d: Document,
    scope: u32,
    projection: Projection,
    pins: Pins,
    path: Seq<char>,
    at: Seq<u32>,
    n: nat,
    w: WiresV,
)
    requires
        d.nodes@.len() <= CONST_ID_BASE,
        wires_ok(d, scope, projection, pins, w.edges),
    ensures
        wires_ok(
            d,
            scope,
            projection,
            pins,
            structural(d, anchors_of(d, scope, projection), path, at, n, w).edges,
        ),
    decreases n,
{
    if n > 0 {
        let a = anchors_of(d, scope, projection);
        lemma_structural(d, scope, projection, pins, path, at, (n - 1) as nat, w);
        lemma_anchors(d, scope, projection);
        let e = edge_at(d, at[n - 1]);
        lemma_resolved(d, a, e.port);
        lemma_resolved(d, a, e.endpoint);
        match (resolved(d, a, e.port), resolved(d, a, e.endpoint)) {
            (Some(s), Some(t)) => {
                lemma_view_anchor(d, a, s.0, t.1);
                lemma_view_anchor(d, a, t.0, s.1);
            },
            _ => {},
        }
    }
}

// --- Laws ---------------------------------------------------------------------

/// In the schematic of a scope without interfaces a wire runs from a pin that drives a signal
/// to a pin that reads it, but for the wires of constants, and for those that join two ports
/// of the design to each other.
pub proof fn law_wires_run_from_drivers_to_readers(
    d: Document,
    scope: u32,
    path: Seq<char>,
    projection: Projection,
    k: int,
)
    requires
        d.nodes@.len() <= CONST_ID_BASE,
        no_interfaces(d, boxes_of(d, scope, projection)),
        0 <= k < wired_scope(d, scope, path, projection).edges.len(),
    ensures
        ({
            let e = wired_scope(d, scope, path, projection).edges[k];
            ||| runs_right(d, scope, projection, scope_pins(d, scope, path, projection), e)
            ||| modelled(e.source) && modelled(e.target)
            ||| e.source == offset_id(CONST_ID_BASE, e.target as nat)
        }),
{
    let a = anchors_of(d, scope, projection);
    let at = scope_edges(d, a);
    let pins = scope_pins(d, scope, path, projection);
    let (boxes, first) = box_fold(d, a.boxes, path, a.boxes.len());
    let nodes = frame_pins(d, a.own_ports, a.own_ports.len(), boxes);
    lemma_box_fold(d, a.boxes, path, a.boxes.len());
    lemma_ends(d, scope, projection, first, nodes);
    let w0 = WiresV { edges: Seq::empty(), seen: Set::empty(), next: d.edges@.len() as u32 };
    let w = structural(d, a, path, at, at.len(), w0);
    lemma_structural(d, scope, projection, pins, path, at, at.len(), w0);
    let (more, ends) = scope_ends(d, a, first, nodes);
    let keys = ascending(keys_in(ends.drivers));
    lemma_joined_keys(d, scope, projection, pins, path, ends, keys, keys.len(), w);
    let c = joined_keys(d, path, ends.drivers, ends.loads, keys, keys.len(), w);
    lemma_box_ties(d, a.boxes, a.boxes.len(), more, c);
    let g = wired_scope(d, scope, path, projection);
    if k < c.edges.len() {
        assert(g.edges[k] == c.edges[k]);
    }
}

} // verus!
