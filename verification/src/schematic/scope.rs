//! The schematic of one scope.

use crate::groups::{keys_in, under, Groups};
use crate::model::{
    at_path, children_at, edge_at, node_at, parent_at, touching, Design, Dir, Document, Edge, Node,
    NodeId, NodeKind,
};
use crate::order::{ascending, lemma_ascending};
use crate::schematic::anchors::{
    anchors_of, resolved, view_anchor, AnchorsV, ScopeAnchors,
};
use crate::schematic::boxes::{
    cone_box_node, const_box, drawn, edges_touching, frame_pin, make_boundary_pin, make_const_node,
    name_at, tie_at,
};
use crate::schematic::hierarchy::{hierarchical, path_or_empty, rooted};
use crate::schematic::interface::{as_driver, dir_at, interface_interior, interior, noted};
use crate::schematic::kinds::{
    append_ids, bare_bundle, find_edge, first_edge, fold_inverter, folded, gate_at, has_kind,
    is_bare_interface, is_gate, is_kind, is_logic_box, is_navigable_scope, logic_at, navigable,
    nested, parent_of, EdgeTest,
};
use crate::schematic::labels::{label_in, relative_to, selected, with_select};
use crate::schematic::pins::{
    offset_id, pair_of, pin_id, with_pin, PinAlloc, Pins, CONST_ID_BASE, RAW_PORT_BASE,
};
use crate::schematic::types::{
    bare_pin, edge_views, group_views, node_views, port_views, EdgeV, GraphV, NodeV, PinRole, PortV,
    Projection, SchEdge, SchNode, SchPort, SchematicGraph, Side,
};
use crate::schematic::wires::{
    join_signals, joined_signals, next_id, Anchor, Wires, WiresV,
};
use crate::text::{clone_opt, owned};
use std::collections::HashSet;
use vstd::prelude::*;

verus! {

broadcast use {
    group_views,
    vstd::std_specs::hash::group_hash_axioms,
    vstd::std_specs::btree::group_btree_axioms,
    vstd::laws_cmp::group_laws_cmp,
};

/// The first of `at`, from position `from`, that can be opened as a scope.
pub open spec fn navigable_from(d: Document, at: Seq<u32>, from: int) -> Option<u32>
    decreases at.len() - from,
{
    if from < 0 || from >= at.len() {
        None
    } else if navigable(d, at[from]) {
        Some(at[from])
    } else {
        navigable_from(d, at, from + 1)
    }
}

/// The scope at a path.
pub open spec fn scope_at(d: Document, path: Seq<char>) -> Option<u32> {
    navigable_from(d, at_path(d, path), 0)
}

/// The first `n` boxes drawn in order, and the pins handed out for them.
pub open spec fn box_fold(d: Document, boxes: Seq<u32>, scope: Seq<char>, n: nat) -> (
    Seq<NodeV>,
    Pins,
)
    decreases n,
{
    if n == 0 {
        (Seq::empty(), Seq::empty())
    } else {
        let (nodes, p) = box_fold(d, boxes, scope, (n - 1) as nat);
        let (b, q) = drawn(d, boxes[n - 1], scope, p);
        (
            match b {
                Some(x) => nodes.push(x),
                None => nodes,
            },
            q,
        )
    }
}

/// `nodes` and the frame pins of the first `n` ports.
pub open spec fn frame_pins(d: Document, ports: Seq<u32>, n: nat, nodes: Seq<NodeV>) -> Seq<NodeV>
    decreases n,
{
    if n == 0 {
        nodes
    } else {
        let r = frame_pins(d, ports, (n - 1) as nat, nodes);
        match frame_pin(d, ports[n - 1]) {
            Some(b) => r.push(b),
            None => r,
        }
    }
}

/// The children of the first `n` boxes.
pub open spec fn all_children(d: Document, boxes: Seq<u32>, n: nat) -> Seq<u32>
    decreases n,
{
    if n == 0 {
        Seq::empty()
    } else {
        all_children(d, boxes, (n - 1) as nat) + children_at(d, boxes[n - 1])
    }
}

/// The nodes whose edges a scope can draw: its boxes, their children, its boundary.
pub open spec fn scope_ids(d: Document, a: AnchorsV) -> Set<u32> {
    (a.boxes + all_children(d, a.boxes, a.boxes.len()) + ascending(a.boundary.dom())).to_set()
}

/// The edges that a scope can draw, ascending.
pub open spec fn scope_edges(d: Document, a: AnchorsV) -> Seq<u32> {
    touching(d.edges@, scope_ids(d, a))
}

/// The structural wires of the first `n` edges: those whose ends resolve to different
/// boxes of the scope and whose port is no logic box. Connections between the same two
/// anchors are drawn once.
pub open spec fn structural(
    d: Document,
    a: AnchorsV,
    scope: Seq<char>,
    at: Seq<u32>,
    n: nat,
    w: WiresV,
) -> WiresV
    decreases n,
{
    if n == 0 {
        w
    } else {
        let v = structural(d, a, scope, at, (n - 1) as nat, w);
        let e = edge_at(d, at[n - 1]);
        if logic_at(d, e.port) || gate_at(d, e.port) {
            v
        } else {
            match (resolved(d, a, e.port), resolved(d, a, e.endpoint)) {
                (Some(s), Some(t)) => {
                    let source = match view_anchor(d, a, s.0, t.1) {
                        Some(x) => x,
                        None => s.1,
                    };
                    let target = match view_anchor(d, a, t.0, s.1) {
                        Some(x) => x,
                        None => t.1,
                    };
                    if s.0 != t.0 && !v.seen.contains(pair_of(source, target)) {
                        WiresV {
                            edges: v.edges.push(
                                structural_wire(d, scope, e, at[n - 1], source, target),
                            ),
                            seen: v.seen.insert(pair_of(source, target)),
                            ..v
                        }
                    } else {
                        v
                    }
                },
                _ => v,
            }
        }
    }
}

/// The wire of a structural connection, which keeps the index of its edge.
pub open spec fn structural_wire(
    d: Document,
    scope: Seq<char>,
    e: Edge,
    id: u32,
    source: u32,
    target: u32,
) -> EdgeV {
    EdgeV {
        id,
        source,
        target,
        net: match node_at(d, e.endpoint) {
            Some(n) => Some(selected(label_in(n.path@, scope), e.select)),
            None => None,
        },
        net_path: match node_at(d, e.endpoint) {
            Some(n) => Some(n.path@),
            None => None,
        },
    }
}

/// The ends of signals gathered for the join, and the pins handed out.
#[verifier::ext_equal]
pub struct EndsV {
    pub pins: Pins,
    pub drivers: Seq<(u32, Anchor)>,
    pub loads: Seq<(u32, Anchor)>,
}

/// The key that a signal is joined under: its frame pin at the boundary, or itself.
pub open spec fn join_key(a: AnchorsV, sig: u32) -> u32 {
    if a.boundary.contains_key(sig) {
        a.boundary[sig]
    } else {
        sig
    }
}

/// Whether a node is a port of one of the scope's instances.
pub open spec fn instance_port(d: Document, a: AnchorsV, id: u32) -> bool {
    &&& has_kind(d, id, NodeKind::Port)
    &&& parent_at(d, id) is Some
    &&& a.boxes.contains(parent_at(d, id)->0)
    &&& has_kind(d, parent_at(d, id)->0, NodeKind::Instance)
}

/// What one edge adds: a logic box or gate drives or loads its signal, a plain
/// instance port does so by direction.
pub open spec fn edge_ends(d: Document, a: AnchorsV, e: Edge, s: EndsV) -> EndsV {
    let key = join_key(a, e.endpoint);
    if logic_at(d, e.port) && a.boxes.contains(e.port) {
        let end = (key, (pin_id(s.pins, e.port, e.endpoint), e.select));
        let pins = with_pin(s.pins, e.port, e.endpoint);
        if e.dir == Dir::Out {
            EndsV { pins, drivers: s.drivers.push(end), ..s }
        } else {
            EndsV { pins, loads: s.loads.push(end), ..s }
        }
    } else if gate_at(d, e.port) && a.boxes.contains(e.port) {
        if e.dir == Dir::Out {
            EndsV {
                pins: with_pin(s.pins, e.port, e.port),
                drivers: s.drivers.push((key, (pin_id(s.pins, e.port, e.port), None))),
                ..s
            }
        } else {
            let sig = folded(d, e.endpoint).0;
            EndsV {
                pins: with_pin(s.pins, e.port, sig),
                loads: s.loads.push(
                    (join_key(a, sig), (pin_id(s.pins, e.port, sig), e.select)),
                ),
                ..s
            }
        }
    } else if instance_port(d, a, e.port) {
        let end = (key, (e.port, e.select));
        EndsV {
            drivers: if e.dir != Dir::In {
                s.drivers.push(end)
            } else {
                s.drivers
            },
            loads: if e.dir != Dir::Out {
                s.loads.push(end)
            } else {
                s.loads
            },
            ..s
        }
    } else {
        s
    }
}

/// What the first `n` edges add.
pub open spec fn edge_fold(d: Document, a: AnchorsV, at: Seq<u32>, n: nat, s: EndsV) -> EndsV
    decreases n,
{
    if n == 0 {
        s
    } else {
        edge_ends(d, a, edge_at(d, at[n - 1]), edge_fold(d, a, at, (n - 1) as nat, s))
    }
}

/// What a boundary-like pin adds under `key`: an input drives its signal, an output
/// loads it, any other pin does both.
pub open spec fn pin_ends(d: Document, key: u32, pin: u32, s: EndsV) -> EndsV {
    EndsV {
        drivers: noted(s.drivers, as_driver(dir_at(d, pin), true), key, pin),
        loads: noted(s.loads, as_driver(dir_at(d, pin), false), key, pin),
        ..s
    }
}

/// What the first `n` of the scope's own ports add.
pub open spec fn own_ends(d: Document, ports: Seq<u32>, n: nat, s: EndsV) -> EndsV
    decreases n,
{
    if n == 0 {
        s
    } else {
        pin_ends(d, ports[n - 1], ports[n - 1], own_ends(d, ports, (n - 1) as nat, s))
    }
}

/// What the first `n` pins that view the member `sig` add.
pub open spec fn view_ends(d: Document, sig: u32, views: Seq<(u32, u32)>, n: nat, s: EndsV) -> EndsV
    decreases n,
{
    if n == 0 {
        s
    } else {
        pin_ends(d, sig, views[n - 1].1, view_ends(d, sig, views, (n - 1) as nat, s))
    }
}

/// What the views of the first `n` members in `keys` add.
pub open spec fn member_ends(d: Document, a: AnchorsV, keys: Seq<u32>, n: nat, s: EndsV) -> EndsV
    decreases n,
{
    if n == 0 {
        s
    } else {
        let views = under(a.iface_pin, keys[n - 1]);
        view_ends(
            d,
            keys[n - 1],
            views,
            views.len(),
            member_ends(d, a, keys, (n - 1) as nat, s),
        )
    }
}

/// What the raw access ports of the first `n` owned nodes in `keys` add.
pub open spec fn raw_ends(d: Document, a: AnchorsV, keys: Seq<u32>, n: nat, s: EndsV) -> EndsV
    decreases n,
{
    if n == 0 {
        s
    } else {
        let t = raw_ends(d, a, keys, (n - 1) as nat, s);
        let m = keys[n - 1];
        let b = a.owner[m];
        if m != b && a.raw.contains(b) {
            pin_ends(d, m, offset_id(RAW_PORT_BASE, b as nat), t)
        } else {
            t
        }
    }
}

/// What the first `n` boxes add as gates: each drives its own key from its result pin.
pub open spec fn gate_ends(d: Document, boxes: Seq<u32>, n: nat, s: EndsV) -> EndsV
    decreases n,
{
    if n == 0 {
        s
    } else {
        let t = gate_ends(d, boxes, (n - 1) as nat, s);
        let b = boxes[n - 1];
        if gate_at(d, b) {
            EndsV {
                pins: with_pin(t.pins, b, b),
                drivers: t.drivers.push((b, (pin_id(t.pins, b, b), None))),
                ..t
            }
        } else {
            t
        }
    }
}

/// Position of the first box with an id, from `from`.
pub open spec fn box_index(nodes: Seq<NodeV>, id: u32, from: int) -> Option<int>
    decreases nodes.len() - from,
{
    if from < 0 || from >= nodes.len() {
        None
    } else if nodes[from].id == id {
        Some(from)
    } else {
        box_index(nodes, id, from + 1)
    }
}

/// Whether one of the pins has an id.
pub open spec fn has_pin(ports: Seq<PortV>, id: u32) -> bool {
    exists|k: int| 0 <= k < ports.len() && (#[trigger] ports[k]).id == id
}

/// The read-out pin of a memory that is read as a whole.
pub open spec fn readout_pin(d: Document, b: u32, pin: u32) -> PortV {
    PortV {
        role: Some(PinRole::Dout),
        ..bare_pin(
            pin,
            match name_at(d, b) {
                Some(x) => x,
                None => Seq::empty(),
            },
            Side::East,
            path_or_empty(d, b),
        )
    }
}

/// The boxes with a read-out pin on the first box `b`, unless it is there.
pub open spec fn with_readout(d: Document, nodes: Seq<NodeV>, b: u32, pin: u32) -> Seq<NodeV> {
    match box_index(nodes, b, 0) {
        Some(i) => if has_pin(nodes[i].ports, pin) {
            nodes
        } else {
            nodes.update(
                i,
                NodeV { ports: nodes[i].ports.push(readout_pin(d, b, pin)), ..nodes[i] },
            )
        },
        None => nodes,
    }
}

/// What the memories among the first `n` boxes add, where something loads the array
/// as a whole.
pub open spec fn memory_ends(
    d: Document,
    boxes: Seq<u32>,
    n: nat,
    nodes: Seq<NodeV>,
    s: EndsV,
) -> (Seq<NodeV>, EndsV)
    decreases n,
{
    if n == 0 {
        (nodes, s)
    } else {
        let (ns, t) = memory_ends(d, boxes, (n - 1) as nat, nodes, s);
        let b = boxes[n - 1];
        if has_kind(d, b, NodeKind::Memory) && keys_in(t.loads).contains(b) {
            let pin = pin_id(t.pins, b, b);
            (
                with_readout(d, ns, b, pin),
                EndsV {
                    pins: with_pin(t.pins, b, b),
                    drivers: t.drivers.push((b, (pin, None))),
                    ..t
                },
            )
        } else {
            (ns, t)
        }
    }
}

/// The constant sources of the first `n` of `cs` that are tied ports, each with its
/// wire.
pub open spec fn child_ties(d: Document, cs: Seq<u32>, n: nat, nodes: Seq<NodeV>, w: WiresV) -> (
    Seq<NodeV>,
    WiresV,
)
    decreases n,
{
    if n == 0 {
        (nodes, w)
    } else {
        let (ns, v) = child_ties(d, cs, (n - 1) as nat, nodes, w);
        let pid = cs[n - 1];
        if has_kind(d, pid, NodeKind::Port) && tie_at(d, pid) is Some {
            (
                ns.push(const_box(tie_at(d, pid)->0, pid)),
                WiresV {
                    edges: v.edges.push(
                        EdgeV {
                            id: v.next,
                            source: offset_id(CONST_ID_BASE, pid as nat),
                            target: pid,
                            net: None,
                            net_path: None,
                        },
                    ),
                    next: next_id(v.next),
                    ..v
                },
            )
        } else {
            (ns, v)
        }
    }
}

/// The constant sources of the first `n` boxes.
pub open spec fn box_ties(d: Document, boxes: Seq<u32>, n: nat, nodes: Seq<NodeV>, w: WiresV) -> (
    Seq<NodeV>,
    WiresV,
)
    decreases n,
{
    if n == 0 {
        (nodes, w)
    } else {
        let (ns, v) = box_ties(d, boxes, (n - 1) as nat, nodes, w);
        let cs = children_at(d, boxes[n - 1]);
        child_ties(d, cs, cs.len(), ns, v)
    }
}

/// Whether one of the wires ends at a pin.
pub open spec fn wired(edges: Seq<EdgeV>, id: u32) -> bool {
    exists|k: int|
        0 <= k < edges.len() && ((#[trigger] edges[k]).source == id || edges[k].target == id)
}

/// The net that a gate drives.
pub open spec fn driven_net(d: Document, id: u32) -> Option<Node> {
    if gate_at(d, id) {
        match first_edge(d, id, EdgeTest::Drives) {
            Some(e) => node_at(d, e.endpoint),
            None => None,
        }
    } else {
        None
    }
}

/// A pin of a logic box or gate: an output that no wire reaches dangles, and a gate's
/// is named after the net it drives.
pub open spec fn marked_pin(d: Document, edges: Seq<EdgeV>, id: u32, p: PortV) -> PortV {
    if p.side == Side::East && !wired(edges, p.id) {
        match driven_net(d, id) {
            Some(n) => PortV { dangling: true, name: n.name@, path: n.path@, ..p },
            None => PortV { dangling: true, ..p },
        }
    } else {
        p
    }
}

/// The first `n` pins of a box, marked.
pub open spec fn marked_pins(d: Document, edges: Seq<EdgeV>, id: u32, ports: Seq<PortV>) -> Seq<
    PortV,
> {
    Seq::new(ports.len(), |k: int| marked_pin(d, edges, id, ports[k]))
}

/// A box with its dangling outputs marked.
pub open spec fn marked_box(d: Document, edges: Seq<EdgeV>, n: NodeV) -> NodeV {
    if logic_at(d, n.id) || gate_at(d, n.id) {
        NodeV { ports: marked_pins(d, edges, n.id, n.ports), ..n }
    } else {
        n
    }
}

/// Boxes with their dangling outputs marked.
pub open spec fn marked(d: Document, edges: Seq<EdgeV>, nodes: Seq<NodeV>) -> Seq<NodeV> {
    Seq::new(nodes.len(), |k: int| marked_box(d, edges, nodes[k]))
}

/// The ends of all signals of a scope, and its boxes with read-out pins added.
pub open spec fn scope_ends(
    d: Document,
    a: AnchorsV,
    pins: Pins,
    nodes: Seq<NodeV>,
) -> (Seq<NodeV>, EndsV) {
    let at = scope_edges(d, a);
    let members = ascending(keys_in(a.iface_pin));
    let owned = ascending(a.owner.dom());
    let s = EndsV { pins, drivers: Seq::empty(), loads: Seq::empty() };
    let s = edge_fold(d, a, at, at.len(), s);
    let s = own_ends(d, a.own_ports, a.own_ports.len(), s);
    let s = member_ends(d, a, members, members.len(), s);
    let s = raw_ends(d, a, owned, owned.len(), s);
    let s = gate_ends(d, a.boxes, a.boxes.len(), s);
    memory_ends(d, a.boxes, a.boxes.len(), nodes, s)
}

/// The graph of a scope that is no bundle.
pub open spec fn wired_scope(d: Document, scope: u32, path: Seq<char>, projection: Projection)
    -> GraphV {
    let a = anchors_of(d, scope, projection);
    let at = scope_edges(d, a);
    let (boxes, pins) = box_fold(d, a.boxes, path, a.boxes.len());
    let nodes = frame_pins(d, a.own_ports, a.own_ports.len(), boxes);
    let w = structural(
        d,
        a,
        path,
        at,
        at.len(),
        WiresV { edges: Seq::empty(), seen: Set::empty(), next: d.edges@.len() as u32 },
    );
    let (nodes, ends) = scope_ends(d, a, pins, nodes);
    let w = joined_signals(d, path, ends.drivers, ends.loads, w);
    let (nodes, w) = box_ties(d, a.boxes, a.boxes.len(), nodes, w);
    GraphV { root: path, nodes: marked(d, w.edges, nodes), edges: w.edges, truncated: false }
}

/// The graph of the scope at a path: the interior of a bundle, or the scope's boxes
/// wired to each other and to its frame.
pub open spec fn scope_view(d: Document, path: Seq<char>, projection: Projection) -> Option<
    GraphV,
> {
    match scope_at(d, path) {
        Some(scope) => if bare_bundle(d, scope) {
            Some(interior(d, scope, path))
        } else {
            Some(wired_scope(d, scope, path, projection))
        },
        None => None,
    }
}

/// A graph or none, by contents.
pub open spec fn opt_graph(o: Option<SchematicGraph>) -> Option<GraphV> {
    match o {
        Some(g) => Some(g@),
        None => None,
    }
}

struct Ends {
    pins: PinAlloc,
    drivers: Groups<Anchor>,
    loads: Groups<Anchor>,
}

impl View for Ends {
    type V = EndsV;

    closed spec fn view(&self) -> EndsV {
        EndsV { pins: self.pins@, drivers: self.drivers@, loads: self.loads@ }
    }
}

impl Ends {
    spec fn wf(&self) -> bool {
        self.pins.wf() && self.drivers.wf() && self.loads.wf()
    }
}

/// The first scope at a path.
pub fn find_scope(design: &Design, path: &str) -> (r: Option<NodeId>)
    requires
        design.wf(),
        nested(design.doc),
    ensures
        r == scope_at(design.doc, path@),
{
    let at: &[NodeId] = design.nodes_at_path(path);
    let mut i: usize = 0;
    while i < at.len()
        invariant
            i <= at@.len(),
            nested(design.doc),
            at@ == at_path(design.doc, path@),
            navigable_from(design.doc, at@, 0) == navigable_from(design.doc, at@, i as int),
        decreases at@.len() - i,
    {
        if is_navigable_scope(design, at[i]) {
            return Some(at[i]);
        }
        i += 1;
    }
    None
}

fn draw_boxes(design: &Design, a: &ScopeAnchors, path: &str, pins: &mut PinAlloc) -> (r: Vec<
    SchNode,
>)
    requires
        design.wf(),
        nested(design.doc),
        old(pins).wf(),
        old(pins)@ == Pins::empty(),
    ensures
        final(pins).wf(),
        node_views(r@) == frame_pins(
            design.doc,
            a.own_ports@,
            a.own_ports@.len(),
            box_fold(design.doc, a.boxes@, path@, a.boxes@.len()).0,
        ),
        final(pins)@ == box_fold(design.doc, a.boxes@, path@, a.boxes@.len()).1,
{
    let mut nodes: Vec<SchNode> = Vec::new();
    let mut i: usize = 0;
    while i < a.boxes.len()
        invariant
            i <= a.boxes@.len(),
            design.wf(),
            nested(design.doc),
            pins.wf(),
            (node_views(nodes@), pins@) == box_fold(design.doc, a.boxes@, path@, i as nat),
        decreases a.boxes@.len() - i,
    {
        if let Some(b) = cone_box_node(design, a.boxes[i], path, pins) {
            nodes.push(b);
        }
        i += 1;
    }
    let ghost boxes = node_views(nodes@);
    let mut i: usize = 0;
    while i < a.own_ports.len()
        invariant
            i <= a.own_ports@.len(),
            node_views(nodes@) == frame_pins(design.doc, a.own_ports@, i as nat, boxes),
        decreases a.own_ports@.len() - i,
    {
        if let Some(b) = make_boundary_pin(design, a.own_ports[i]) {
            nodes.push(b);
        }
        i += 1;
    }
    nodes
}

fn candidate_edges(design: &Design, a: &ScopeAnchors) -> (r: Vec<u32>)
    requires
        design.wf(),
        a.wf(),
    ensures
        r@ == scope_edges(design.doc, a@),
        forall|k: int| 0 <= k < r@.len() ==> #[trigger] r@[k] < design.doc.edges@.len(),
{
    let mut ids: Vec<NodeId> = Vec::new();
    append_ids(&mut ids, a.boxes.as_slice());
    assert(ids@ =~= a.boxes@);
    let mut i: usize = 0;
    assert(ids@ =~= a.boxes@ + all_children(design.doc, a.boxes@, 0));
    while i < a.boxes.len()
        invariant
            i <= a.boxes@.len(),
            ids@ == a.boxes@ + all_children(design.doc, a.boxes@, i as nat),
        decreases a.boxes@.len() - i,
    {
        let ghost before = all_children(design.doc, a.boxes@, i as nat);
        let ghost cs = children_at(design.doc, a.boxes@[i as int]);
        if let Some(n) = design.node(a.boxes[i]) {
            append_ids(&mut ids, n.children.as_slice());
        }
        assert(ids@ =~= a.boxes@ + (before + cs));
        i += 1;
    }
    let edge: Vec<NodeId> = a.boundary_ids();
    append_ids(&mut ids, edge.as_slice());
    edges_touching(design, &ids)
}

fn structural_pass(
    design: &Design,
    a: &ScopeAnchors,
    path: &str,
    at: &Vec<u32>,
    w: &mut Wires,
)
    requires
        design.wf(),
        rooted(design.doc),
        a.wf(),
        old(w).wf(),
        forall|k: int| 0 <= k < at@.len() ==> #[trigger] at@[k] < design.doc.edges@.len(),
    ensures
        final(w).wf(),
        final(w)@ == structural(design.doc, a@, path@, at@, at@.len(), old(w)@),
{
    let ghost w0 = w@;
    let mut i: usize = 0;
    while i < at.len()
        invariant
            i <= at@.len(),
            rooted(design.doc),
            a.wf(),
            w.wf(),
            forall|k: int| 0 <= k < at@.len() ==> #[trigger] at@[k] < design.doc.edges@.len(),
            w@ == structural(design.doc, a@, path@, at@, i as nat, w0),
        decreases at@.len() - i,
    {
        let e: &Edge = &design.doc.edges[at[i] as usize];
        assert(*e == edge_at(design.doc, at@[i as int]));
        let ghost v = w@;
        if !(is_logic_box(design, e.port) || is_gate(design, e.port)) {
            if let Some(s) = a.resolve(design, e.port) {
                if let Some(t) = a.resolve(design, e.endpoint) {
                    let source: NodeId = match a.view_port(design, s.0, t.1) {
                        Some(x) => x,
                        None => s.1,
                    };
                    let target: NodeId = match a.view_port(design, t.0, s.1) {
                        Some(x) => x,
                        None => t.1,
                    };
                    if s.0 != t.0 {
                        if w.seen.insert(source, target) {
                            let (net, net_path) = match design.node(e.endpoint) {
                                Some(n) => (
                                    Some(
                                        with_select(
                                            relative_to(n.path.as_str(), path),
                                            &e.select,
                                        ),
                                    ),
                                    Some(n.path.clone()),
                                ),
                                None => (None, None),
                            };
                            let x: SchEdge = SchEdge {
                                id: at[i],
                                source,
                                target,
                                net,
                                net_path,
                            };
                            assert(x@ == structural_wire(
                                design.doc,
                                path@,
                                *e,
                                at@[i as int],
                                source,
                                target,
                            ));
                            w.edges.push(x);
                        } else {
                            assert(w.seen@ =~= v.seen);
                        }
                    }
                }
            }
        }
        i += 1;
    }
}

fn note_edge(design: &Design, a: &ScopeAnchors, e: &Edge, s: &mut Ends)
    requires
        design.wf(),
        a.wf(),
        old(s).wf(),
    ensures
        final(s).wf(),
        final(s)@ == edge_ends(design.doc, a@, *e, old(s)@),
{
    let key: NodeId = match a.boundary_pin(e.endpoint) {
        Some(p) => p,
        None => e.endpoint,
    };
    assert(a.box_set@.contains(e.port) <==> a@.boxes.contains(e.port));
    if is_logic_box(design, e.port) && a.box_set.contains(&e.port) {
        let pin: NodeId = s.pins.pin(e.port, e.endpoint);
        if e.dir == Dir::Out {
            s.drivers.push(key, (pin, clone_opt(&e.select)));
        } else {
            s.loads.push(key, (pin, clone_opt(&e.select)));
        }
    } else if is_gate(design, e.port) && a.box_set.contains(&e.port) {
        if e.dir == Dir::Out {
            let pin: NodeId = s.pins.pin(e.port, e.port);
            s.drivers.push(key, (pin, None));
        } else {
            let f: (NodeId, bool) = fold_inverter(design, e.endpoint);
            let k: NodeId = match a.boundary_pin(f.0) {
                Some(p) => p,
                None => f.0,
            };
            let pin: NodeId = s.pins.pin(e.port, f.0);
            s.loads.push(k, (pin, clone_opt(&e.select)));
        }
    } else {
        let mut plain: bool = false;
        if is_kind(design, e.port, NodeKind::Port) {
            if let Some(parent) = parent_of(design, e.port) {
                assert(a.box_set@.contains(parent) <==> a@.boxes.contains(parent));
                plain = a.box_set.contains(&parent) && is_kind(
                    design,
                    parent,
                    NodeKind::Instance,
                );
            }
        }
        assert(plain == instance_port(design.doc, a@, e.port));
        if plain {
            if e.dir != Dir::In {
                s.drivers.push(key, (e.port, clone_opt(&e.select)));
            }
            if e.dir != Dir::Out {
                s.loads.push(key, (e.port, clone_opt(&e.select)));
            }
        }
    }
}

fn note_pin(design: &Design, key: NodeId, pin: NodeId, s: &mut Ends)
    requires
        old(s).wf(),
    ensures
        final(s).wf(),
        final(s)@ == pin_ends(design.doc, key, pin, old(s)@),
{
    let dir: Option<Dir> = match design.node(pin) {
        Some(n) => n.dir,
        None => None,
    };
    let (drives, reads) = match dir {
        Some(Dir::Out) => (false, true),
        Some(Dir::In) => (true, false),
        _ => (true, true),
    };
    if drives {
        s.drivers.push(key, (pin, None));
    }
    if reads {
        s.loads.push(key, (pin, None));
    }
}

fn note_frame(design: &Design, a: &ScopeAnchors, s: &mut Ends)
    requires
        a.wf(),
        old(s).wf(),
    ensures
        final(s).wf(),
        final(s)@ == ({
            let members = ascending(keys_in(a@.iface_pin));
            let owned = ascending(a@.owner.dom());
            let t = own_ends(design.doc, a@.own_ports, a@.own_ports.len(), old(s)@);
            let t = member_ends(design.doc, a@, members, members.len(), t);
            raw_ends(design.doc, a@, owned, owned.len(), t)
        }),
{
    let ghost s0 = s@;
    let mut i: usize = 0;
    while i < a.own_ports.len()
        invariant
            i <= a.own_ports@.len(),
            s.wf(),
            s@ == own_ends(design.doc, a@.own_ports, i as nat, s0),
        decreases a.own_ports@.len() - i,
    {
        note_pin(design, a.own_ports[i], a.own_ports[i], s);
        i += 1;
    }
    let members: Vec<NodeId> = a.iface_pin.keys();
    let ghost s1 = s@;
    let mut i: usize = 0;
    while i < members.len()
        invariant
            i <= members@.len(),
            a.wf(),
            s.wf(),
            s@ == member_ends(design.doc, a@, members@, i as nat, s1),
        decreases members@.len() - i,
    {
        let sig: NodeId = members[i];
        let views: &[(u32, u32)] = a.iface_pin.slice(sig);
        let ghost s2 = s@;
        let mut k: usize = 0;
        while k < views.len()
            invariant
                k <= views@.len(),
                s.wf(),
                s@ == view_ends(design.doc, sig, views@, k as nat, s2),
            decreases views@.len() - k,
        {
            note_pin(design, sig, views[k].1, s);
            k += 1;
        }
        i += 1;
    }
    let owned: Vec<NodeId> = a.owned_ids();
    let ghost s3 = s@;
    proof {
        lemma_ascending(a@.owner.dom());
    }
    let mut i: usize = 0;
    while i < owned.len()
        invariant
            i <= owned@.len(),
            forall|x: u32| owned@.contains(x) <==> a@.owner.dom().contains(x),
            s.wf(),
            s@ == raw_ends(design.doc, a@, owned@, i as nat, s3),
        decreases owned@.len() - i,
    {
        let m: NodeId = owned[i];
        assert(owned@.contains(m));
        if let Some(b) = a.iface_owner.get(&m) {
            if m != *b && a.raw_port.contains(b) {
                note_pin(design, m, RAW_PORT_BASE.wrapping_add(*b), s);
            }
        }
        i += 1;
    }
}

fn note_gates(design: &Design, boxes: &Vec<NodeId>, s: &mut Ends)
    requires
        old(s).wf(),
    ensures
        final(s).wf(),
        final(s)@ == gate_ends(design.doc, boxes@, boxes@.len(), old(s)@),
{
    let ghost s0 = s@;
    let mut i: usize = 0;
    while i < boxes.len()
        invariant
            i <= boxes@.len(),
            s.wf(),
            s@ == gate_ends(design.doc, boxes@, i as nat, s0),
        decreases boxes@.len() - i,
    {
        let b: NodeId = boxes[i];
        if is_gate(design, b) {
            let pin: NodeId = s.pins.pin(b, b);
            s.drivers.push(b, (pin, None));
        }
        i += 1;
    }
}

fn find_box(nodes: &Vec<SchNode>, id: NodeId) -> (r: Option<usize>)
    ensures
        match r {
            Some(i) => i < nodes@.len() && box_index(node_views(nodes@), id, 0) == Some(i as int),
            None => box_index(node_views(nodes@), id, 0) is None,
        },
{
    let mut i: usize = 0;
    while i < nodes.len()
        invariant
            i <= nodes@.len(),
            box_index(node_views(nodes@), id, 0) == box_index(node_views(nodes@), id, i as int),
        decreases nodes@.len() - i,
    {
        assert(node_views(nodes@)[i as int] == nodes@[i as int]@);
        if nodes[i].id == id {
            return Some(i);
        }
        i += 1;
    }
    None
}

/// Whether one of the pins has an id.
pub fn lists_pin(ports: &Vec<SchPort>, id: NodeId) -> (r: bool)
    ensures
        r == has_pin(port_views(ports@), id),
{
    let mut i: usize = 0;
    while i < ports.len()
        invariant
            i <= ports@.len(),
            forall|k: int| 0 <= k < i ==> (#[trigger] port_views(ports@)[k]).id != id,
        decreases ports@.len() - i,
    {
        assert(port_views(ports@)[i as int] == ports@[i as int]@);
        if ports[i].id == id {
            return true;
        }
        i += 1;
    }
    false
}

fn add_readout(design: &Design, nodes: &mut Vec<SchNode>, b: NodeId, pin: NodeId)
    ensures
        node_views(final(nodes)@) == with_readout(design.doc, node_views(old(nodes)@), b, pin),
{
    let ghost before = nodes@;
    if let Some(i) = find_box(nodes, b) {
        assert(node_views(before)[i as int] == before[i as int]@);
        if !lists_pin(&nodes[i].ports, pin) {
            let (name, path) = match design.node(b) {
                Some(n) => (n.name.clone(), n.path.clone()),
                None => (String::new(), String::new()),
            };
            let mut p: SchPort = SchPort::bare(pin, name, Side::East, path);
            p.role = Some(PinRole::Dout);
            assert(p@ == readout_pin(design.doc, b, pin));
            let mut ports: Vec<SchPort> = Vec::new();
            std::mem::swap(&mut ports, &mut nodes[i].ports);
            ports.push(p);
            nodes[i].ports = ports;
            proof {
                assert(node_views(nodes@) =~= with_readout(
                    design.doc,
                    node_views(before),
                    b,
                    pin,
                ));
            }
        }
    }
}

fn note_memories(design: &Design, boxes: &Vec<NodeId>, nodes: &mut Vec<SchNode>, s: &mut Ends)
    requires
        old(s).wf(),
    ensures
        final(s).wf(),
        (node_views(final(nodes)@), final(s)@) == memory_ends(
            design.doc,
            boxes@,
            boxes@.len(),
            node_views(old(nodes)@),
            old(s)@,
        ),
{
    let ghost s0 = s@;
    let ghost n0 = node_views(nodes@);
    let mut i: usize = 0;
    while i < boxes.len()
        invariant
            i <= boxes@.len(),
            s.wf(),
            (node_views(nodes@), s@) == memory_ends(design.doc, boxes@, i as nat, n0, s0),
        decreases boxes@.len() - i,
    {
        let b: NodeId = boxes[i];
        if is_kind(design, b, NodeKind::Memory) && s.loads.has(b) {
            let pin: NodeId = s.pins.pin(b, b);
            add_readout(design, nodes, b, pin);
            s.drivers.push(b, (pin, None));
        }
        i += 1;
    }
}

fn tie_children(design: &Design, cs: &Vec<NodeId>, nodes: &mut Vec<SchNode>, w: &mut Wires)
    requires
        old(w).wf(),
    ensures
        final(w).wf(),
        (node_views(final(nodes)@), final(w)@) == child_ties(
            design.doc,
            cs@,
            cs@.len(),
            node_views(old(nodes)@),
            old(w)@,
        ),
{
    let ghost n0 = node_views(nodes@);
    let ghost w0 = w@;
    let mut i: usize = 0;
    while i < cs.len()
        invariant
            i <= cs@.len(),
            w.wf(),
            (node_views(nodes@), w@) == child_ties(design.doc, cs@, i as nat, n0, w0),
        decreases cs@.len() - i,
    {
        let pid: NodeId = cs[i];
        if let Some(n) = design.node(pid) {
            if n.kind == NodeKind::Port {
                if let Some(lit) = &n.const_value {
                    nodes.push(make_const_node(lit.as_str(), pid));
                    w.edges.push(
                        SchEdge {
                            id: w.next,
                            source: CONST_ID_BASE.wrapping_add(pid),
                            target: pid,
                            net: None,
                            net_path: None,
                        },
                    );
                    w.next = w.next.wrapping_add(1);
                }
            }
        }
        i += 1;
    }
}

fn tie_boxes(design: &Design, boxes: &Vec<NodeId>, nodes: &mut Vec<SchNode>, w: &mut Wires)
    requires
        old(w).wf(),
    ensures
        final(w).wf(),
        (node_views(final(nodes)@), final(w)@) == box_ties(
            design.doc,
            boxes@,
            boxes@.len(),
            node_views(old(nodes)@),
            old(w)@,
        ),
{
    let ghost n0 = node_views(nodes@);
    let ghost w0 = w@;
    let mut i: usize = 0;
    while i < boxes.len()
        invariant
            i <= boxes@.len(),
            w.wf(),
            (node_views(nodes@), w@) == box_ties(design.doc, boxes@, i as nat, n0, w0),
        decreases boxes@.len() - i,
    {
        if let Some(n) = design.node(boxes[i]) {
            tie_children(design, &n.children, nodes, w);
        }
        i += 1;
    }
}

/// The pins that wires end at.
pub fn wired_ids(edges: &Vec<SchEdge>) -> (r: HashSet<NodeId>)
    ensures
        forall|id: u32| #[trigger] r@.contains(id) <==> wired(edge_views(edges@), id),
{
    let mut out: HashSet<NodeId> = HashSet::new();
    let ghost ev = edge_views(edges@);
    let mut i: usize = 0;
    assert(ev.take(0) =~= Seq::empty());
    while i < edges.len()
        invariant
            i <= edges@.len(),
            ev == edge_views(edges@),
            forall|id: u32| #[trigger] out@.contains(id) <==> wired(ev.take(i as int), id),
        decreases edges@.len() - i,
    {
        let ghost before = out@;
        out.insert(edges[i].source);
        out.insert(edges[i].target);
        proof {
            let a = ev.take(i as int);
            let b = ev.take(i + 1);
            assert(b =~= a.push(ev[i as int]));
            assert(ev[i as int] == edges@[i as int]@);
            assert forall|id: u32| #[trigger] out@.contains(id) <==> wired(b, id) by {
                assert(before.contains(id) <==> wired(a, id));
                if wired(a, id) {
                    let k = choose|k: int|
                        0 <= k < a.len() && ((#[trigger] a[k]).source == id || a[k].target == id);
                    assert(b[k] == a[k]);
                }
                if wired(b, id) {
                    let k = choose|k: int|
                        0 <= k < b.len() && ((#[trigger] b[k]).source == id || b[k].target == id);
                    if k < i {
                        assert(a[k] == b[k]);
                    }
                }
                assert(b[i as int] == ev[i as int]);
            }
        }
        i += 1;
    }
    assert(ev.take(i as int) =~= ev);
    out
}

fn mark_pins(
    ports: Vec<SchPort>,
    net: Option<&Node>,
    live: &HashSet<NodeId>,
    Ghost(d): Ghost<Document>,
    Ghost(edges): Ghost<Seq<EdgeV>>,
    Ghost(id): Ghost<u32>,
) -> (r: Vec<SchPort>)
    requires
        forall|x: u32| #[trigger] live@.contains(x) <==> wired(edges, x),
        match net {
            Some(n) => driven_net(d, id) == Some(*n),
            None => driven_net(d, id) is None,
        },
    ensures
        port_views(r@) == marked_pins(d, edges, id, port_views(ports@)),
{
    let mut out: Vec<SchPort> = Vec::new();
    let ghost all = ports@;
    for p in it: ports
        invariant
            it.seq() == all,
            forall|x: u32| #[trigger] live@.contains(x) <==> wired(edges, x),
            match net {
                Some(n) => driven_net(d, id) == Some(*n),
                None => driven_net(d, id) is None,
            },
            port_views(out@) == marked_pins(d, edges, id, port_views(all)).take(it.index() as int),
    {
        let mut q: SchPort = p;
        assert(port_views(all)[it.index() as int] == q@);
        if q.side == Side::East && !live.contains(&q.id) {
            q.dangling = true;
            if let Some(n) = net {
                q.name = n.name.clone();
                q.path = n.path.clone();
            }
        }
        out.push(q);
        assert(port_views(out@) =~= marked_pins(d, edges, id, port_views(all)).take(
            it.index() + 1,
        ));
    }
    assert(port_views(out@) =~= marked_pins(d, edges, id, port_views(all)));
    out
}

fn mark_boxes(design: &Design, nodes: Vec<SchNode>, edges: &Vec<SchEdge>) -> (r: Vec<SchNode>)
    requires
        design.wf(),
    ensures
        node_views(r@) == marked(design.doc, edge_views(edges@), node_views(nodes@)),
{
    let live: HashSet<NodeId> = wired_ids(edges);
    let mut out: Vec<SchNode> = Vec::new();
    let ghost all = nodes@;
    let ghost ev = edge_views(edges@);
    for x in it: nodes
        invariant
            it.seq() == all,
            design.wf(),
            ev == edge_views(edges@),
            forall|x: u32| #[trigger] live@.contains(x) <==> wired(ev, x),
            node_views(out@) == marked(design.doc, ev, node_views(all)).take(it.index() as int),
    {
        let mut n: SchNode = x;
        let ghost before = n@;
        assert(node_views(all)[it.index() as int] == before);
        let gate: bool = is_gate(design, n.id);
        if is_logic_box(design, n.id) || gate {
            let net: Option<&Node> = if gate {
                match find_edge(design, n.id, EdgeTest::Drives) {
                    Some(e) => design.node(e.endpoint),
                    None => None,
                }
            } else {
                None
            };
            n.ports =
            mark_pins(n.ports, net, &live, Ghost(design.doc), Ghost(ev), Ghost(n.id));
        }
        assert(n@ == marked_box(design.doc, ev, before));
        out.push(n);
        assert(node_views(out@) =~= marked(design.doc, ev, node_views(all)).take(
            it.index() + 1,
        ));
    }
    assert(node_views(out@) =~= marked(design.doc, ev, node_views(all)));
    out
}

fn draw_scope(design: &Design, scope: NodeId, path: &str, projection: Projection) -> (r:
    SchematicGraph)
    requires
        design.wf(),
        hierarchical(design.doc),
    ensures
        r@ == wired_scope(design.doc, scope, path@, projection),
{
    let a: ScopeAnchors = ScopeAnchors::for_scope(design, scope, projection);
    let mut pins: PinAlloc = PinAlloc::new();
    let mut nodes: Vec<SchNode> = draw_boxes(design, &a, path, &mut pins);
    let at: Vec<u32> = candidate_edges(design, &a);
    let mut w: Wires = Wires::new(
        #[verifier::truncate]
        (design.doc.edges.len() as u32),
    );
    structural_pass(design, &a, path, &at, &mut w);
    let mut s: Ends = Ends { pins, drivers: Groups::new(), loads: Groups::new() };
    let ghost s0 = s@;
    let mut i: usize = 0;
    while i < at.len()
        invariant
            i <= at@.len(),
            design.wf(),
            a.wf(),
            s.wf(),
            forall|k: int| 0 <= k < at@.len() ==> #[trigger] at@[k] < design.doc.edges@.len(),
            s@ == edge_fold(design.doc, a@, at@, i as nat, s0),
        decreases at@.len() - i,
    {
        note_edge(design, &a, &design.doc.edges[at[i] as usize], &mut s);
        i += 1;
    }
    note_frame(design, &a, &mut s);
    note_gates(design, &a.boxes, &mut s);
    note_memories(design, &a.boxes, &mut nodes, &mut s);
    join_signals(design, path, &s.drivers, &s.loads, &mut w);
    tie_boxes(design, &a.boxes, &mut nodes, &mut w);
    let nodes: Vec<SchNode> = mark_boxes(design, nodes, &w.edges);
    SchematicGraph { root: owned(path), nodes, edges: w.edges, truncated: false }
}

/// The schematic of one scope at the process level.
pub fn scope_graph(design: &Design, scope_path: &str) -> (r: Option<SchematicGraph>)
    requires
        design.wf(),
        hierarchical(design.doc),
    ensures
        opt_graph(r) == scope_view(design.doc, scope_path@, Projection::ProcessLevel),
{
    scope_graph_with(design, scope_path, Projection::ProcessLevel)
}

/// The schematic of one scope: its boxes, wired by the connections whose two ends lie
/// inside the scope. `None` where the path names no scope.
pub fn scope_graph_with(design: &Design, scope_path: &str, projection: Projection) -> (r: Option<
    SchematicGraph,
>)
    requires
        design.wf(),
        hierarchical(design.doc),
    ensures
        opt_graph(r) == scope_view(design.doc, scope_path@, projection),
{
    match find_scope(design, scope_path) {
        Some(scope) => if is_bare_interface(design, scope) {
            Some(interface_interior(design, scope, scope_path))
        } else {
            Some(draw_scope(design, scope, scope_path, projection))
        },
        None => None,
    }
}

/// The schematic one level down inside an instance, at the process level.
pub fn expand(design: &Design, instance: NodeId) -> (r: Option<SchematicGraph>)
    requires
        design.wf(),
        hierarchical(design.doc),
    ensures
        opt_graph(r) == match node_at(design.doc, instance) {
            Some(n) => scope_view(design.doc, n.path@, Projection::ProcessLevel),
            None => None,
        },
{
    expand_with(design, instance, Projection::ProcessLevel)
}

/// The schematic one level down inside an instance.
pub fn expand_with(design: &Design, instance: NodeId, projection: Projection) -> (r: Option<
    SchematicGraph,
>)
    requires
        design.wf(),
        hierarchical(design.doc),
    ensures
        opt_graph(r) == match node_at(design.doc, instance) {
            Some(n) => scope_view(design.doc, n.path@, projection),
            None => None,
        },
{
    match design.node(instance) {
        Some(n) => scope_graph_with(design, n.path.as_str(), projection),
        None => None,
    }
}

} // verus!
