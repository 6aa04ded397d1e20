//! Which pins the wires of a scope join: every driver of a signal with every load of it.

use crate::groups::{keys_in, under};
use crate::model::{children_at, edge_at, node_at, Dir, Document, Edge, Node, NodeKind};
use crate::model_laws::law_groups_list_their_edges;
use crate::order::{ascending, lemma_ascending};
use crate::schematic::anchors::{anchors_of, AnchorsV};
use crate::schematic::box_laws::{
    extends, is_logic, is_primitive, lemma_drawn_extends, lemma_pin_stays, lemma_with_pin,
};
use crate::schematic::interface::kids;
use crate::schematic::kinds::{boxes_of, foldable, folded, gate_at, has_kind, logic_at};
use crate::schematic::pins::{pair_of, pin_id, with_pin, Pins};
use crate::schematic::scope::{
    all_children, box_fold, edge_ends, edge_fold, frame_pins, gate_ends, member_ends, memory_ends,
    own_ends, raw_ends, scope_edges, scope_ends, scope_ids, structural, view_ends, wired_scope,
    EndsV,
};
use crate::schematic::scope_laws::connections;
use crate::schematic::tie_laws::{lemma_box_ties, scope_pins};
use crate::schematic::types::{EdgeV, NodeV, Projection};
use crate::schematic::wires::{joined_all, joined_keys, joined_to, Anchor, WiresV};
use vstd::prelude::*;

verus! {

// --- Ends ---------------------------------------------------------------------

/// Whether a wire joins two pins.
pub open spec fn joins(edges: Seq<EdgeV>, p: u32, q: u32) -> bool {
    exists|k: int|
        0 <= k < edges.len() && (((#[trigger] edges[k]).source == p && edges[k].target == q) || (
        edges[k].source == q && edges[k].target == p))
}

/// Whether two bit-selects can meet: they do not name different bits.
pub open spec fn compatible(a: Option<String>, b: Option<String>) -> bool {
    match (a, b) {
        (Some(x), Some(y)) => x@ == y@,
        _ => true,
    }
}

/// Whether a node is a port that an instance lists as its own.
pub open spec fn port_of(d: Document, id: u32, b: u32) -> bool {
    &&& id < d.nodes@.len()
    &&& d.nodes@[id as int].kind == NodeKind::Port
    &&& d.nodes@[id as int].parent == Some(b)
    &&& b < d.nodes@.len()
    &&& d.nodes@[b as int].kind == NodeKind::Instance
    &&& d.nodes@[b as int].children@.contains(id)
}

/// Whether an edge of the design makes a pin of a box a driver of its signal: an output of
/// logic, the result of a primitive, or a port of an instance that is no input.
pub open spec fn edge_drives(
    d: Document,
    boxes: Seq<u32>,
    pins: Pins,
    e: Edge,
    pin: u32,
    select: Option<String>,
) -> bool {
    ||| is_logic(d, e.port) && boxes.contains(e.port) && e.dir == Dir::Out && pin == pin_id(
        pins,
        e.port,
        e.endpoint,
    ) && select == e.select
    ||| is_primitive(d, e.port) && boxes.contains(e.port) && e.dir == Dir::Out && pin == pin_id(
        pins,
        e.port,
        e.port,
    ) && select is None
    ||| exists|b: u32| #[trigger]
        boxes.contains(b) && port_of(d, e.port, b) && e.dir != Dir::In && pin == e.port && select
            == e.select
}

/// Whether an edge of the design makes a pin of a box a load of its signal: an input of logic
/// or of a primitive, or a port of an instance that is no output.
pub open spec fn edge_loads(
    d: Document,
    boxes: Seq<u32>,
    pins: Pins,
    e: Edge,
    pin: u32,
    select: Option<String>,
) -> bool {
    ||| is_logic(d, e.port) && boxes.contains(e.port) && e.dir != Dir::Out && pin == pin_id(
        pins,
        e.port,
        e.endpoint,
    ) && select == e.select
    ||| is_primitive(d, e.port) && boxes.contains(e.port) && e.dir != Dir::Out && !is_primitive(
        d,
        e.endpoint,
    ) && pin == pin_id(pins, e.port, e.endpoint) && select == e.select
    ||| exists|b: u32| #[trigger]
        boxes.contains(b) && port_of(d, e.port, b) && e.dir != Dir::Out && pin == e.port && select
            == e.select
}

/// Whether a pin is that of one of the scope's own ports.
pub open spec fn own_port(d: Document, scope: u32, pin: u32) -> bool {
    scope < d.nodes@.len() && d.nodes@[scope as int].children@.contains(pin) && pin
        < d.nodes@.len() && d.nodes@[pin as int].kind == NodeKind::Port
}

/// The signal of a node as a scope sees it: the frame pin of a port that it shares a path
/// with, or itself.
pub open spec fn signal_of(d: Document, scope: u32, projection: Projection, id: u32) -> u32 {
    let m = anchors_of(d, scope, projection).boundary;
    if m.contains_key(id) {
        m[id]
    } else {
        id
    }
}

/// Whether a pin drives a signal in a scope: by an edge, or as an own port that is no output.
pub open spec fn drives(
    d: Document,
    scope: u32,
    path: Seq<char>,
    projection: Projection,
    key: u32,
    pin: u32,
    select: Option<String>,
) -> bool {
    ||| exists|i: int|
        0 <= i < d.edges@.len() && signal_of(
            d,
            scope,
            projection,
            (#[trigger] d.edges@[i]).endpoint,
        ) == key && edge_drives(
            d,
            boxes_of(d, scope, projection),
            scope_pins(d, scope, path, projection),
            d.edges@[i],
            pin,
            select,
        )
    ||| own_port(d, scope, pin) && key == pin && d.nodes@[pin as int].dir != Some(Dir::Out)
        && select is None
}

/// Whether a pin loads a signal in a scope: by an edge, or as an own port that is no input.
pub open spec fn loads(
    d: Document,
    scope: u32,
    path: Seq<char>,
    projection: Projection,
    key: u32,
    pin: u32,
    select: Option<String>,
) -> bool {
    ||| exists|i: int|
        0 <= i < d.edges@.len() && signal_of(
            d,
            scope,
            projection,
            (#[trigger] d.edges@[i]).endpoint,
        ) == key && edge_loads(
            d,
            boxes_of(d, scope, projection),
            scope_pins(d, scope, path, projection),
            d.edges@[i],
            pin,
            select,
        )
    ||| own_port(d, scope, pin) && key == pin && d.nodes@[pin as int].dir != Some(Dir::In)
        && select is None
}

// --- Boxes --------------------------------------------------------------------

pub(crate) proof fn lemma_box_fold(d: Document, boxes: Seq<u32>, scope: Seq<char>, n: nat)
    ensures
        box_fold(d, boxes, scope, n).1.no_duplicates(),
    decreases n,
{
    if n > 0 {
        lemma_box_fold(d, boxes, scope, (n - 1) as nat);
        lemma_drawn_extends(d, boxes[n - 1], scope, box_fold(d, boxes, scope, (n - 1) as nat).1);
    }
}

// --- Gathering ----------------------------------------------------------------

pub open spec fn log_extends(a: Seq<(u32, Anchor)>, b: Seq<(u32, Anchor)>) -> bool {
    a.len() <= b.len() && forall|k: int| 0 <= k < a.len() ==> #[trigger] b[k] == a[k]
}

pub open spec fn ends_extend(s: EndsV, t: EndsV) -> bool {
    &&& extends(s.pins, t.pins)
    &&& log_extends(s.drivers, t.drivers)
    &&& log_extends(s.loads, t.loads)
}

proof fn lemma_chain(a: EndsV, b: EndsV, c: EndsV)
    requires
        ends_extend(a, b),
        ends_extend(b, c),
    ensures
        ends_extend(a, c),
{
}

pub(crate) proof fn lemma_edge_ends(d: Document, a: AnchorsV, e: Edge, s: EndsV)
    ensures
        ends_extend(s, edge_ends(d, a, e, s)),
{
    lemma_with_pin(s.pins, e.port, e.endpoint);
    lemma_with_pin(s.pins, e.port, e.port);
    lemma_with_pin(s.pins, e.port, folded(d, e.endpoint).0);
}

pub(crate) proof fn lemma_edge_fold(d: Document, a: AnchorsV, at: Seq<u32>, n: nat, s: EndsV)
    ensures
        ends_extend(s, edge_fold(d, a, at, n, s)),
    decreases n,
{
    if n > 0 {
        lemma_edge_fold(d, a, at, (n - 1) as nat, s);
        lemma_edge_ends(d, a, edge_at(d, at[n - 1]), edge_fold(d, a, at, (n - 1) as nat, s));
    }
}

pub(crate) proof fn lemma_edge_fold_more(d: Document, a: AnchorsV, at: Seq<u32>, m: nat, n: nat, s: EndsV)
    requires
        m <= n,
    ensures
        ends_extend(edge_fold(d, a, at, m, s), edge_fold(d, a, at, n, s)),
    decreases n,
{
    if m < n {
        lemma_edge_fold_more(d, a, at, m, (n - 1) as nat, s);
        lemma_edge_ends(d, a, edge_at(d, at[n - 1]), edge_fold(d, a, at, (n - 1) as nat, s));
    }
}

pub(crate) proof fn lemma_own_ends(d: Document, ports: Seq<u32>, m: nat, n: nat, s: EndsV)
    requires
        m <= n,
    ensures
        ends_extend(own_ends(d, ports, m, s), own_ends(d, ports, n, s)),
        ends_extend(s, own_ends(d, ports, n, s)),
    decreases n,
{
    if m < n {
        lemma_own_ends(d, ports, m, (n - 1) as nat, s);
    } else if n > 0 {
        lemma_own_ends(d, ports, (n - 1) as nat, (n - 1) as nat, s);
    }
}

proof fn lemma_view_ends(d: Document, sig: u32, views: Seq<(u32, u32)>, n: nat, s: EndsV)
    ensures
        ends_extend(s, view_ends(d, sig, views, n, s)),
    decreases n,
{
    if n > 0 {
        lemma_view_ends(d, sig, views, (n - 1) as nat, s);
    }
}

proof fn lemma_member_ends(d: Document, a: AnchorsV, keys: Seq<u32>, n: nat, s: EndsV)
    ensures
        ends_extend(s, member_ends(d, a, keys, n, s)),
    decreases n,
{
    if n > 0 {
        lemma_member_ends(d, a, keys, (n - 1) as nat, s);
        let views = under(a.iface_pin, keys[n - 1]);
        lemma_view_ends(
            d,
            keys[n - 1],
            views,
            views.len(),
            member_ends(d, a, keys, (n - 1) as nat, s),
        );
    }
}

proof fn lemma_raw_ends(d: Document, a: AnchorsV, keys: Seq<u32>, n: nat, s: EndsV)
    ensures
        ends_extend(s, raw_ends(d, a, keys, n, s)),
    decreases n,
{
    if n > 0 {
        lemma_raw_ends(d, a, keys, (n - 1) as nat, s);
    }
}

pub(crate) proof fn lemma_gate_ends(d: Document, boxes: Seq<u32>, n: nat, s: EndsV)
    ensures
        ends_extend(s, gate_ends(d, boxes, n, s)),
    decreases n,
{
    if n > 0 {
        lemma_gate_ends(d, boxes, (n - 1) as nat, s);
        let t = gate_ends(d, boxes, (n - 1) as nat, s);
        lemma_with_pin(t.pins, boxes[n - 1], boxes[n - 1]);
    }
}

pub(crate) proof fn lemma_memory_ends(d: Document, boxes: Seq<u32>, n: nat, nodes: Seq<NodeV>, s: EndsV)
    ensures
        ends_extend(s, memory_ends(d, boxes, n, nodes, s).1),
    decreases n,
{
    if n > 0 {
        lemma_memory_ends(d, boxes, (n - 1) as nat, nodes, s);
        let t = memory_ends(d, boxes, (n - 1) as nat, nodes, s).1;
        lemma_with_pin(t.pins, boxes[n - 1], boxes[n - 1]);
    }
}

/// The stages of gathering, each behind the one before.
spec fn stages(d: Document, a: AnchorsV, pins: Pins, nodes: Seq<NodeV>) -> (
    EndsV,
    EndsV,
    EndsV,
    EndsV,
    EndsV,
    EndsV,
) {
    let at = scope_edges(d, a);
    let members = ascending(keys_in(a.iface_pin));
    let owned = ascending(a.owner.dom());
    let s0 = EndsV { pins, drivers: Seq::empty(), loads: Seq::empty() };
    let s1 = edge_fold(d, a, at, at.len(), s0);
    let s2 = own_ends(d, a.own_ports, a.own_ports.len(), s1);
    let s3 = member_ends(d, a, members, members.len(), s2);
    let s4 = raw_ends(d, a, owned, owned.len(), s3);
    let s5 = gate_ends(d, a.boxes, a.boxes.len(), s4);
    (s0, s1, s2, s3, s4, s5)
}

proof fn lemma_stages(d: Document, a: AnchorsV, pins: Pins, nodes: Seq<NodeV>)
    ensures
        ({
            let (s0, s1, s2, s3, s4, s5) = stages(d, a, pins, nodes);
            let end = scope_ends(d, a, pins, nodes).1;
            &&& ends_extend(s0, s1)
            &&& ends_extend(s1, s2)
            &&& ends_extend(s1, end)
            &&& ends_extend(s2, end)
            &&& ends_extend(s4, s5)
            &&& ends_extend(s5, end)
            &&& ends_extend(s0, end)
        }),
{
    let at = scope_edges(d, a);
    let members = ascending(keys_in(a.iface_pin));
    let owned = ascending(a.owner.dom());
    let (s0, s1, s2, s3, s4, s5) = stages(d, a, pins, nodes);
    let end = scope_ends(d, a, pins, nodes).1;
    lemma_edge_fold(d, a, at, at.len(), s0);
    lemma_own_ends(d, a.own_ports, a.own_ports.len(), a.own_ports.len(), s1);
    lemma_member_ends(d, a, members, members.len(), s2);
    lemma_raw_ends(d, a, owned, owned.len(), s3);
    lemma_gate_ends(d, a.boxes, a.boxes.len(), s4);
    lemma_memory_ends(d, a.boxes, a.boxes.len(), nodes, s5);
    assert(end == memory_ends(d, a.boxes, a.boxes.len(), nodes, s5).1);
    lemma_chain(s4, s5, end);
    lemma_chain(s3, s4, end);
    lemma_chain(s2, s3, end);
    lemma_chain(s1, s2, end);
    lemma_chain(s0, s1, end);
}

// --- Ends that are gathered ---------------------------------------------------

spec fn listed(log: Seq<(u32, Anchor)>, key: u32, pin: u32, select: Option<String>) -> bool {
    exists|k: int| 0 <= k < log.len() && #[trigger] log[k] == (key, (pin, select))
}

proof fn lemma_listed_more(
    a: Seq<(u32, Anchor)>,
    b: Seq<(u32, Anchor)>,
    key: u32,
    pin: u32,
    select: Option<String>,
)
    requires
        log_extends(a, b),
        listed(a, key, pin, select),
    ensures
        listed(b, key, pin, select),
{
    let k = choose|k: int| 0 <= k < a.len() && #[trigger] a[k] == (key, (pin, select));
    assert(b[k] == (key, (pin, select)));
}

proof fn lemma_children_listed(d: Document, boxes: Seq<u32>, n: nat, b: u32, c: u32)
    requires
        n <= boxes.len(),
        boxes.take(n as int).contains(b),
        children_at(d, b).contains(c),
    ensures
        all_children(d, boxes, n).contains(c),
    decreases n,
{
    let r = all_children(d, boxes, (n - 1) as nat);
    let cs = children_at(d, boxes[n - 1]);
    let all = all_children(d, boxes, n);
    assert(boxes.take(n as int).len() == n);
    if boxes[n - 1] == b {
        let k = choose|k: int| 0 <= k < cs.len() && cs[k] == c;
        assert(all[r.len() + k] == c);
    } else {
        let j = choose|j: int| 0 <= j < n && boxes.take(n as int)[j] == b;
        assert(boxes.take(n - 1)[j] == b);
        lemma_children_listed(d, boxes, (n - 1) as nat, b, c);
        let k = choose|k: int| 0 <= k < r.len() && r[k] == c;
        assert(all[k] == c);
    }
}

proof fn lemma_edge_in_scope(d: Document, a: AnchorsV, i: int)
    requires
        0 <= i < d.edges@.len() <= 0x1_0000_0000,
        a.boxes.contains(d.edges@[i].port) || exists|b: u32| #[trigger]
            a.boxes.contains(b) && port_of(d, d.edges@[i].port, b),
    ensures
        scope_edges(d, a).contains(i as u32),
{
    let ids = scope_ids(d, a);
    let p = d.edges@[i].port;
    let kids = all_children(d, a.boxes, a.boxes.len());
    let rest = ascending(a.boundary.dom());
    let all = a.boxes + kids + rest;
    if a.boxes.contains(p) {
        let k = choose|k: int| 0 <= k < a.boxes.len() && a.boxes[k] == p;
        assert(all[k] == p);
    } else {
        let b = choose|b: u32| #[trigger] a.boxes.contains(b) && port_of(d, p, b);
        assert(a.boxes.take(a.boxes.len() as int) =~= a.boxes);
        lemma_children_listed(d, a.boxes, a.boxes.len(), b, p);
        let k = choose|k: int| 0 <= k < kids.len() && kids[k] == p;
        assert(all[a.boxes.len() + k] == p);
    }
    assert(ids.contains(p));
    law_groups_list_their_edges(d.edges@, ids, i as u32);
}

/// What an edge gives is listed once the edge was taken, under the pin that stays.
proof fn lemma_edge_listed(
    d: Document,
    a: AnchorsV,
    at: Seq<u32>,
    n: nat,
    s: EndsV,
    last: Pins,
    i: int,
    pin: u32,
    select: Option<String>,
)
    requires
        n <= at.len(),
        0 <= i < d.edges@.len() <= 0x1_0000_0000,
        at.take(n as int).contains(i as u32),
        s.pins.no_duplicates(),
        extends(edge_fold(d, a, at, n, s).pins, last),
    ensures
        edge_drives(d, a.boxes, last, d.edges@[i], pin, select) ==> listed(
            edge_fold(d, a, at, n, s).drivers,
            crate::schematic::scope::join_key(a, d.edges@[i].endpoint),
            pin,
            select,
        ),
        edge_loads(d, a.boxes, last, d.edges@[i], pin, select) ==> listed(
            edge_fold(d, a, at, n, s).loads,
            crate::schematic::scope::join_key(a, d.edges@[i].endpoint),
            pin,
            select,
        ),
    decreases n,
{
    assert(at.take(n as int).len() == n);
    let v = edge_fold(d, a, at, (n - 1) as nat, s);
    let t = edge_fold(d, a, at, n, s);
    lemma_edge_fold(d, a, at, (n - 1) as nat, s);
    let e = d.edges@[i];
    let key = crate::schematic::scope::join_key(a, e.endpoint);
    lemma_edge_ends(d, a, edge_at(d, at[n - 1]), v);
    if at[n - 1] == i as u32 {
        assert(edge_at(d, at[n - 1]) == e);
        assert(t == edge_ends(d, a, e, v));
        let sig = folded(d, e.endpoint).0;
        if is_logic(d, e.port) && a.boxes.contains(e.port) {
            assert(logic_at(d, e.port));
            assert(t.pins == with_pin(v.pins, e.port, e.endpoint));
            lemma_pin_stays(v.pins, last, e.port, e.endpoint);
            if e.dir == Dir::Out {
                assert(t.drivers[v.drivers.len() as int] == (
                    key,
                    (pin_id(last, e.port, e.endpoint), e.select),
                ));
            } else {
                assert(t.loads[v.loads.len() as int] == (
                    key,
                    (pin_id(last, e.port, e.endpoint), e.select),
                ));
            }
        } else if is_primitive(d, e.port) && a.boxes.contains(e.port) {
            assert(gate_at(d, e.port) && !logic_at(d, e.port));
            if e.dir == Dir::Out {
                lemma_pin_stays(v.pins, last, e.port, e.port);
                assert(t.drivers[v.drivers.len() as int] == (
                    key,
                    (pin_id(last, e.port, e.port), None::<String>),
                ));
            } else {
                lemma_pin_stays(v.pins, last, e.port, sig);
                if !is_primitive(d, e.endpoint) {
                    assert(!foldable(d, e.endpoint));
                    assert(sig == e.endpoint);
                }
                assert(t.loads[v.loads.len() as int] == (
                    crate::schematic::scope::join_key(a, sig),
                    (pin_id(last, e.port, sig), e.select),
                ));
            }
        } else if exists|b: u32| #[trigger] a.boxes.contains(b) && port_of(d, e.port, b) {
            assert(!logic_at(d, e.port) && !gate_at(d, e.port));
            assert(crate::schematic::scope::instance_port(d, a, e.port));
            if e.dir != Dir::In {
                assert(t.drivers[v.drivers.len() as int] == (key, (e.port, e.select)));
            }
            if e.dir != Dir::Out {
                assert(t.loads[v.loads.len() as int] == (key, (e.port, e.select)));
            }
        }
    } else {
        let j = choose|j: int| 0 <= j < n && at.take(n as int)[j] == i as u32;
        assert(at.take(n - 1)[j] == i as u32);
        lemma_edge_listed(d, a, at, (n - 1) as nat, s, last, i, pin, select);
        if edge_drives(d, a.boxes, last, e, pin, select) {
            lemma_listed_more(v.drivers, t.drivers, key, pin, select);
        }
        if edge_loads(d, a.boxes, last, e, pin, select) {
            lemma_listed_more(v.loads, t.loads, key, pin, select);
        }
    }
}

proof fn lemma_own_listed(d: Document, ports: Seq<u32>, n: nat, s: EndsV, p: u32)
    requires
        n <= ports.len(),
        ports.take(n as int).contains(p),
        p < d.nodes@.len(),
    ensures
        d.nodes@[p as int].dir != Some(Dir::Out) ==> listed(
            own_ends(d, ports, n, s).drivers,
            p,
            p,
            None,
        ),
        d.nodes@[p as int].dir != Some(Dir::In) ==> listed(
            own_ends(d, ports, n, s).loads,
            p,
            p,
            None,
        ),
    decreases n,
{
    assert(ports.take(n as int).len() == n);
    let v = own_ends(d, ports, (n - 1) as nat, s);
    let t = own_ends(d, ports, n, s);
    if ports[n - 1] == p {
        if d.nodes@[p as int].dir != Some(Dir::Out) {
            assert(t.drivers[v.drivers.len() as int] == (p, (p, None::<String>)));
        }
        if d.nodes@[p as int].dir != Some(Dir::In) {
            assert(t.loads[v.loads.len() as int] == (p, (p, None::<String>)));
        }
    } else {
        let j = choose|j: int| 0 <= j < n && ports.take(n as int)[j] == p;
        assert(ports.take(n - 1)[j] == p);
        lemma_own_listed(d, ports, (n - 1) as nat, s, p);
        lemma_own_ends(d, ports, (n - 1) as nat, n, s);
        if d.nodes@[p as int].dir != Some(Dir::Out) {
            lemma_listed_more(v.drivers, t.drivers, p, p, None);
        }
        if d.nodes@[p as int].dir != Some(Dir::In) {
            lemma_listed_more(v.loads, t.loads, p, p, None);
        }
    }
}

proof fn lemma_kid_listed(d: Document, cs: Seq<u32>, n: nat, x: u32)
    requires
        n <= cs.len(),
        cs.take(n as int).contains(x),
        has_kind(d, x, NodeKind::Port),
    ensures
        kids(d, cs, NodeKind::Port, n).contains(x),
    decreases n,
{
    assert(cs.take(n as int).len() == n);
    let r = kids(d, cs, NodeKind::Port, (n - 1) as nat);
    let all = kids(d, cs, NodeKind::Port, n);
    if cs[n - 1] == x {
        assert(all[r.len() as int] == x);
    } else {
        let j = choose|j: int| 0 <= j < n && cs.take(n as int)[j] == x;
        assert(cs.take(n - 1)[j] == x);
        lemma_kid_listed(d, cs, (n - 1) as nat, x);
        let k = choose|k: int| 0 <= k < r.len() && r[k] == x;
        assert(all[k] == x);
    }
}

// --- Joining ------------------------------------------------------------------

/// Whether every pair of pins that was noted has a wire.
pub open spec fn all_drawn(w: WiresV) -> bool {
    forall|x: (u32, u32)| #[trigger]
        w.seen.contains(x) ==> exists|k: int|
            0 <= k < w.edges.len() && pair_of((#[trigger] w.edges[k]).source, w.edges[k].target)
                == x
}

proof fn lemma_drawn_more(w: WiresV, v: WiresV, e: EdgeV)
    requires
        all_drawn(w),
        v.edges == w.edges.push(e),
        v.seen == w.seen.insert(pair_of(e.source, e.target)),
    ensures
        all_drawn(v),
{
    assert forall|x: (u32, u32)| #[trigger] v.seen.contains(x) implies exists|k: int|
        0 <= k < v.edges.len() && pair_of((#[trigger] v.edges[k]).source, v.edges[k].target)
            == x by {
        if w.seen.contains(x) {
            let k = choose|k: int|
                0 <= k < w.edges.len() && pair_of(
                    (#[trigger] w.edges[k]).source,
                    w.edges[k].target,
                ) == x;
            assert(v.edges[k] == w.edges[k]);
        } else {
            assert(v.edges[w.edges.len() as int] == e);
        }
    }
}

proof fn lemma_structural(
    d: Document,
    a: AnchorsV,
    scope: Seq<char>,
    at: Seq<u32>,
    n: nat,
    w: WiresV,
)
    requires
        all_drawn(w),
    ensures
        all_drawn(structural(d, a, scope, at, n, w)),
    decreases n,
{
    if n > 0 {
        lemma_structural(d, a, scope, at, (n - 1) as nat, w);
        let v = structural(d, a, scope, at, (n - 1) as nat, w);
        let r = structural(d, a, scope, at, n, w);
        if r != v {
            lemma_drawn_more(v, r, r.edges.last());
        }
    }
}

pub(crate) proof fn lemma_joined_to(
    sig: Option<Node>,
    scope: Seq<char>,
    dr: Anchor,
    ls: Seq<Anchor>,
    n: nat,
    w: WiresV,
)
    requires
        n <= ls.len(),
        all_drawn(w),
    ensures
        all_drawn(joined_to(sig, scope, dr, ls, n, w)),
        w.seen.subset_of(joined_to(sig, scope, dr, ls, n, w).seen),
        forall|j: int|
            0 <= j < n && dr.0 != (#[trigger] ls[j]).0 && compatible(dr.1, ls[j].1) ==> joined_to(
                sig,
                scope,
                dr,
                ls,
                n,
                w,
            ).seen.contains(pair_of(dr.0, ls[j].0)),
    decreases n,
{
    if n > 0 {
        lemma_joined_to(sig, scope, dr, ls, (n - 1) as nat, w);
        let v = joined_to(sig, scope, dr, ls, (n - 1) as nat, w);
        let r = joined_to(sig, scope, dr, ls, n, w);
        let ld = ls[n - 1];
        if crate::schematic::wires::joinable(dr, ld) && !v.seen.contains(pair_of(dr.0, ld.0)) {
            lemma_drawn_more(v, r, r.edges.last());
        }
    }
}

pub(crate) proof fn lemma_joined_all(
    sig: Option<Node>,
    scope: Seq<char>,
    ds: Seq<Anchor>,
    ls: Seq<Anchor>,
    n: nat,
    w: WiresV,
)
    requires
        n <= ds.len(),
        all_drawn(w),
    ensures
        all_drawn(joined_all(sig, scope, ds, ls, n, w)),
        w.seen.subset_of(joined_all(sig, scope, ds, ls, n, w).seen),
        forall|i: int, j: int|
            0 <= i < n && 0 <= j < ls.len() && (#[trigger] ds[i]).0 != (#[trigger] ls[j]).0
                && compatible(ds[i].1, ls[j].1) ==> joined_all(
                sig,
                scope,
                ds,
                ls,
                n,
                w,
            ).seen.contains(pair_of(ds[i].0, ls[j].0)),
    decreases n,
{
    if n > 0 {
        lemma_joined_all(sig, scope, ds, ls, (n - 1) as nat, w);
        lemma_joined_to(
            sig,
            scope,
            ds[n - 1],
            ls,
            ls.len(),
            joined_all(sig, scope, ds, ls, (n - 1) as nat, w),
        );
    }
}

proof fn lemma_joined_keys(
    d: Document,
    scope: Seq<char>,
    ds: Seq<(u32, Anchor)>,
    ls: Seq<(u32, Anchor)>,
    keys: Seq<u32>,
    n: nat,
    w: WiresV,
    key: u32,
    i: int,
    j: int,
)
    requires
        n <= keys.len(),
        all_drawn(w),
        0 <= i < under(ds, key).len(),
        0 <= j < under(ls, key).len(),
        under(ds, key)[i].0 != under(ls, key)[j].0,
        compatible(under(ds, key)[i].1, under(ls, key)[j].1),
    ensures
        all_drawn(joined_keys(d, scope, ds, ls, keys, n, w)),
        keys.take(n as int).contains(key) ==> joined_keys(
            d,
            scope,
            ds,
            ls,
            keys,
            n,
            w,
        ).seen.contains(pair_of(under(ds, key)[i].0, under(ls, key)[j].0)),
    decreases n,
{
    if n > 0 {
        lemma_joined_keys(d, scope, ds, ls, keys, (n - 1) as nat, w, key, i, j);
        let k = keys[n - 1];
        let v = joined_keys(d, scope, ds, ls, keys, (n - 1) as nat, w);
        lemma_joined_all(
            node_at(d, k),
            scope,
            under(ds, k),
            under(ls, k),
            under(ds, k).len(),
            v,
        );
        crate::order::lemma_take_contains(keys, n - 1);
    } else {
        assert(keys.take(0) =~= Seq::empty());
    }
}

proof fn lemma_under_listed(
    log: Seq<(u32, Anchor)>,
    key: u32,
    pin: u32,
    select: Option<String>,
) -> (i: int)
    requires
        listed(log, key, pin, select),
    ensures
        0 <= i < under(log, key).len(),
        under(log, key)[i] == (pin, select),
    decreases log.len(),
{
    let k = choose|k: int| 0 <= k < log.len() && #[trigger] log[k] == (key, (pin, select));
    let r = under(log.drop_last(), key);
    if k == log.len() - 1 {
        assert(under(log, key)[r.len() as int] == (pin, select));
        r.len() as int
    } else {
        assert(log.drop_last()[k] == (key, (pin, select)));
        let i = lemma_under_listed(log.drop_last(), key, pin, select);
        assert(under(log, key)[i] == r[i]);
        i
    }
}

/// The ends that a scope gathers.
spec fn ends_of(d: Document, scope: u32, path: Seq<char>, projection: Projection) -> EndsV {
    let a = anchors_of(d, scope, projection);
    let (boxes, pins) = box_fold(d, a.boxes, path, a.boxes.len());
    scope_ends(d, a, pins, frame_pins(d, a.own_ports, a.own_ports.len(), boxes)).1
}

proof fn lemma_ends_listed(
    d: Document,
    scope: u32,
    path: Seq<char>,
    projection: Projection,
    key: u32,
    pin: u32,
    select: Option<String>,
)
    requires
        d.edges@.len() <= 0x1_0000_0000,
    ensures
        drives(d, scope, path, projection, key, pin, select) ==> listed(
            ends_of(d, scope, path, projection).drivers,
            key,
            pin,
            select,
        ),
        loads(d, scope, path, projection, key, pin, select) ==> listed(
            ends_of(d, scope, path, projection).loads,
            key,
            pin,
            select,
        ),
{
    let a = anchors_of(d, scope, projection);
    let at = scope_edges(d, a);
    let (boxes, pins) = box_fold(d, a.boxes, path, a.boxes.len());
    let nodes = frame_pins(d, a.own_ports, a.own_ports.len(), boxes);
    lemma_box_fold(d, a.boxes, path, a.boxes.len());
    lemma_stages(d, a, pins, nodes);
    let (s0, s1, s2, s3, s4, s5) = stages(d, a, pins, nodes);
    let end = ends_of(d, scope, path, projection);
    assert(end == scope_ends(d, a, pins, nodes).1);
    assert(end.pins == scope_pins(d, scope, path, projection));
    assert(at.take(at.len() as int) =~= at);
    assert forall|i: int|
        0 <= i < d.edges@.len() && edge_drives(
            d,
            a.boxes,
            end.pins,
            #[trigger] d.edges@[i],
            pin,
            select,
        ) implies listed(
        end.drivers,
        signal_of(d, scope, projection, d.edges@[i].endpoint),
        pin,
        select,
    ) by {
        lemma_edge_in_scope(d, a, i);
        lemma_edge_listed(d, a, at, at.len(), s0, end.pins, i, pin, select);
        lemma_listed_more(
            s1.drivers,
            end.drivers,
            signal_of(d, scope, projection, d.edges@[i].endpoint),
            pin,
            select,
        );
    }
    assert forall|i: int|
        0 <= i < d.edges@.len() && edge_loads(
            d,
            a.boxes,
            end.pins,
            #[trigger] d.edges@[i],
            pin,
            select,
        ) implies listed(
        end.loads,
        signal_of(d, scope, projection, d.edges@[i].endpoint),
        pin,
        select,
    ) by {
        lemma_edge_in_scope(d, a, i);
        lemma_edge_listed(d, a, at, at.len(), s0, end.pins, i, pin, select);
        lemma_listed_more(
            s1.loads,
            end.loads,
            signal_of(d, scope, projection, d.edges@[i].endpoint),
            pin,
            select,
        );
    }
    if own_port(d, scope, pin) {
        let cs = children_at(d, scope);
        assert(cs.take(cs.len() as int) =~= cs);
        lemma_kid_listed(d, cs, cs.len(), pin);
        let ports = a.own_ports;
        assert(ports.take(ports.len() as int) =~= ports);
        lemma_own_listed(d, ports, ports.len(), s1, pin);
        if d.nodes@[pin as int].dir != Some(Dir::Out) {
            lemma_listed_more(s2.drivers, end.drivers, pin, pin, None);
        }
        if d.nodes@[pin as int].dir != Some(Dir::In) {
            lemma_listed_more(s2.loads, end.loads, pin, pin, None);
        }
    }
}

// --- Laws ---------------------------------------------------------------------

/// In the schematic of a scope every pin that drives a signal is joined to every other pin
/// that loads it, unless their bit-selects name different bits: outputs of logic, results of
/// primitives, ports of instances and the scope's own inputs on the one side, inputs of logic
/// and of primitives, ports of instances and the scope's own outputs on the other.
pub proof fn law_drivers_are_joined_to_loads(
    d: Document,
    scope: u32,
    path: Seq<char>,
    projection: Projection,
    key: u32,
    from: u32,
    from_select: Option<String>,
    to: u32,
    to_select: Option<String>,
)
    requires
        d.edges@.len() <= 0x1_0000_0000,
        drives(d, scope, path, projection, key, from, from_select),
        loads(d, scope, path, projection, key, to, to_select),
        from != to,
        compatible(from_select, to_select),
    ensures
        joins(wired_scope(d, scope, path, projection).edges, from, to),
{
    let a = anchors_of(d, scope, projection);
    let at = scope_edges(d, a);
    let (boxes, pins) = box_fold(d, a.boxes, path, a.boxes.len());
    let nodes = frame_pins(d, a.own_ports, a.own_ports.len(), boxes);
    let w0 = WiresV { edges: Seq::empty(), seen: Set::empty(), next: d.edges@.len() as u32 };
    let w = structural(d, a, path, at, at.len(), w0);
    lemma_structural(d, a, path, at, at.len(), w0);
    let ends = ends_of(d, scope, path, projection);
    lemma_ends_listed(d, scope, path, projection, key, from, from_select);
    lemma_ends_listed(d, scope, path, projection, key, to, to_select);
    let i = lemma_under_listed(ends.drivers, key, from, from_select);
    let j = lemma_under_listed(ends.loads, key, to, to_select);
    let keys = ascending(keys_in(ends.drivers));
    lemma_ascending(keys_in(ends.drivers));
    assert(keys_in(ends.drivers).contains(key));
    assert(keys.contains(key));
    assert(keys.take(keys.len() as int) =~= keys);
    lemma_joined_keys(d, path, ends.drivers, ends.loads, keys, keys.len(), w, key, i, j);
    let c = connections(d, scope, path, projection);
    assert(c == joined_keys(d, path, ends.drivers, ends.loads, keys, keys.len(), w));
    assert(c.seen.contains(pair_of(from, to)));
    let k = choose|k: int|
        0 <= k < c.edges.len() && pair_of((#[trigger] c.edges[k]).source, c.edges[k].target)
            == pair_of(from, to);
    let more = scope_ends(d, a, pins, nodes).0;
    lemma_box_ties(d, a.boxes, a.boxes.len(), more, c);
    let g = wired_scope(d, scope, path, projection);
    assert(g.edges[k] == c.edges[k]);
}

/// An input port of a scope that logic of the scope reads has a wire to the pin that the
/// logic has for it.
pub proof fn law_inputs_are_joined_to_their_readers(
    d: Document,
    scope: u32,
    path: Seq<char>,
    projection: Projection,
    p: u32,
    i: int,
)
    requires
        0 <= i < d.edges@.len() <= 0x1_0000_0000,
        own_port(d, scope, p),
        d.nodes@[p as int].dir == Some(Dir::In),
        signal_of(d, scope, projection, d.edges@[i].endpoint) == p,
        is_logic(d, d.edges@[i].port),
        boxes_of(d, scope, projection).contains(d.edges@[i].port),
        d.edges@[i].dir == Dir::In,
        p != pin_id(
            scope_pins(d, scope, path, projection),
            d.edges@[i].port,
            d.edges@[i].endpoint,
        ),
    ensures
        joins(
            wired_scope(d, scope, path, projection).edges,
            p,
            pin_id(
                scope_pins(d, scope, path, projection),
                d.edges@[i].port,
                d.edges@[i].endpoint,
            ),
        ),
{
    let pins = scope_pins(d, scope, path, projection);
    let e = d.edges@[i];
    let q = pin_id(pins, e.port, e.endpoint);
    assert(edge_loads(d, boxes_of(d, scope, projection), pins, d.edges@[i], q, e.select));
    assert(loads(d, scope, path, projection, p, q, e.select));
    law_drivers_are_joined_to_loads(d, scope, path, projection, p, p, None, q, e.select);
}

} // verus!
