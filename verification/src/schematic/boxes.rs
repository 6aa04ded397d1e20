//! The boxes of a schematic and their pins.

use crate::model::{
    children_at, edge_at, incident, meeting, node_at, path_at, touching, Design, Dir, Document,
    Edge, MemPort, ModportMember, MuxPort, Node, NodeId, NodeKind,
};
use crate::order::{lemma_ascending, lemma_take_contains, members};
use crate::schematic::kinds::{
    bare_bundle, boxes_of, child_boxes, find_edge, first_edge, fold_inverter, folded, gate_at,
    gate_kind, has_kind, is_bare_interface, is_gate, is_gate_kind, is_kind, nested, EdgeTest,
};
use crate::schematic::labels::{label_in, module_name, module_of, pin_width, relative_to, width_in};
use crate::schematic::pins::{
    offset_id, pin_id, with_pin, PinAlloc, Pins, CONST_ID_BASE, RAW_PORT_BASE,
};
use crate::schematic::types::{
    bare_box, bare_pin, boundary_side, facing_side, group_views, port_views, side_for, side_of,
    NodeV, PinRole, PortV, Projection, SchNode, SchPort, Side,
};
use crate::text::{clone_opt, opt_chars, owned, same};
use std::collections::{BTreeSet, HashSet};
use vstd::prelude::*;
use vstd::string::*;

verus! {

broadcast use {
    vstd::string::group_string_axioms,
    vstd::std_specs::hash::group_hash_axioms,
    vstd::std_specs::btree::group_btree_axioms,
    vstd::laws_cmp::group_laws_cmp,
    group_views,
};

// --- Pins of logic boxes ------------------------------------------------------

/// A pin for the signal with index `sig`, named after it.
pub open spec fn signal_pin(
    d: Document,
    pin: u32,
    sig: u32,
    side: Side,
    role: Option<PinRole>,
) -> PortV {
    match node_at(d, sig) {
        Some(n) => PortV {
            width: width_in(d, n.type_),
            role,
            ..bare_pin(pin, n.name@, side, n.path@)
        },
        None => PortV { role, ..bare_pin(pin, Seq::empty(), side, Seq::empty()) },
    }
}

/// The name of the node with index `id`.
pub open spec fn name_at(d: Document, id: u32) -> Option<Seq<char>> {
    match node_at(d, id) {
        Some(n) => Some(n.name@),
        None => None,
    }
}

/// The role of the pin that an edge gives a logic box: a register's reset is named by
/// its path and its clock by its name, a latch's enable by its path, and a memory's
/// pins by the edge.
pub open spec fn role_of(d: Document, n: Node, e: Edge) -> Option<PinRole> {
    match n.kind {
        NodeKind::Ff => if e.dir != Dir::Out && path_at(d, e.endpoint) == opt_chars(n.reset) {
            Some(PinRole::Reset)
        } else if e.dir != Dir::Out && name_at(d, e.endpoint) == opt_chars(n.type_) {
            Some(PinRole::Clk)
        } else {
            None
        },
        NodeKind::Latch => if e.dir != Dir::Out && path_at(d, e.endpoint) == opt_chars(n.enable) {
            Some(PinRole::Enable)
        } else {
            None
        },
        NodeKind::Memory => match e.mem_port {
            Some(MemPort::Addr) => Some(PinRole::Addr),
            Some(MemPort::Din) => Some(PinRole::Din),
            Some(MemPort::Dout) => Some(PinRole::Dout),
            None => None,
        },
        _ => None,
    }
}

/// Whether the edge at position `k` of a box's edges is a memory access of the box.
pub open spec fn accesses(d: Document, bx: u32, k: int) -> bool {
    let e = edge_at(d, incident(d, bx)[k]);
    e.port == bx && e.mem_port is Some
}

/// Whether the edge at position `k` of a box's edges gives it a pin. A memory takes
/// one per accessed signal, at the first access.
pub open spec fn gives_pin(d: Document, bx: u32, n: Node, k: int) -> bool {
    let e = edge_at(d, incident(d, bx)[k]);
    &&& e.port == bx
    &&& n.kind == NodeKind::Memory ==> e.mem_port is Some && forall|j: int|
        0 <= j < k && #[trigger] accesses(d, bx, j) ==> edge_at(d, incident(d, bx)[j]).endpoint
            != e.endpoint
}

/// The pins that the first `k` edges of a logic box give it.
pub open spec fn logic_pins(d: Document, bx: u32, n: Node, k: nat, p: Pins) -> (Seq<PortV>, Pins)
    decreases k,
{
    if k == 0 {
        (Seq::empty(), p)
    } else {
        let (ports, q) = logic_pins(d, bx, n, (k - 1) as nat, p);
        let e = edge_at(d, incident(d, bx)[k - 1]);
        if gives_pin(d, bx, n, k - 1) {
            (
                ports.push(
                    signal_pin(
                        d,
                        pin_id(q, bx, e.endpoint),
                        e.endpoint,
                        side_for(e.dir),
                        role_of(d, n, e),
                    ),
                ),
                with_pin(q, bx, e.endpoint),
            )
        } else {
            (ports, q)
        }
    }
}

/// The role of a gate's input pin.
pub open spec fn operand_role(e: Edge, inverted: bool) -> Option<PinRole> {
    if e.mux_port == Some(MuxPort::Sel) {
        Some(PinRole::Sel)
    } else if inverted {
        Some(PinRole::Inv)
    } else {
        None
    }
}

/// The value tied to the node with index `id`.
pub open spec fn tie_at(d: Document, id: u32) -> Option<Seq<char>> {
    match node_at(d, id) {
        Some(n) => opt_chars(n.const_value),
        None => None,
    }
}

/// The input pins that the first `k` edges of a gate give it.
pub open spec fn operand_pins(d: Document, gate: u32, k: nat, p: Pins) -> (Seq<PortV>, Pins)
    decreases k,
{
    if k == 0 {
        (Seq::empty(), p)
    } else {
        let (ports, q) = operand_pins(d, gate, (k - 1) as nat, p);
        let e = edge_at(d, incident(d, gate)[k - 1]);
        if e.port == gate && e.dir != Dir::Out {
            let (sig, inverted) = folded(d, e.endpoint);
            (
                ports.push(
                    PortV {
                        constant: tie_at(d, sig),
                        ..signal_pin(
                            d,
                            pin_id(q, gate, sig),
                            sig,
                            Side::West,
                            operand_role(e, inverted),
                        )
                    },
                ),
                with_pin(q, gate, sig),
            )
        } else {
            (ports, q)
        }
    }
}

/// The label of a logic box.
pub open spec fn logic_label(n: Node, scope: Seq<char>) -> Seq<char> {
    match n.kind {
        NodeKind::Ff => if n.name@.len() == 0 {
            seq!['F', 'F']
        } else {
            label_in(n.path@, scope)
        },
        NodeKind::Memory => label_in(n.path@, scope),
        NodeKind::Assign => seq!['a', 's', 's', 'i', 'g', 'n'],
        NodeKind::Latch => seq!['l', 'a', 't', 'c', 'h'],
        _ => seq!['c', 'o', 'm', 'b'],
    }
}

/// The box of a register, process, assignment, latch or memory.
pub open spec fn logic_box(d: Document, bx: u32, n: Node, scope: Seq<char>, p: Pins) -> (
    NodeV,
    Pins,
) {
    let (ports, q) = logic_pins(d, bx, n, incident(d, bx).len(), p);
    let plain = bare_box(bx, n.kind, logic_label(n, scope), n.path@, ports);
    if n.kind == NodeKind::Memory {
        (NodeV { mem_depth: n.mem_depth, init_source: opt_chars(n.init_source), ..plain }, q)
    } else {
        (plain, q)
    }
}

/// The box of a primitive: its input pins and one result pin.
pub open spec fn gate_box(d: Document, gate: u32, n: Node, p: Pins) -> (NodeV, Pins) {
    let (ports, q) = operand_pins(d, gate, incident(d, gate).len(), p);
    let label = match n.op {
        Some(op) => op@,
        None => n.name@,
    };
    (
        bare_box(
            gate,
            n.kind,
            label,
            n.path@,
            ports.push(bare_pin(pin_id(q, gate, gate), Seq::empty(), Side::East, n.path@)),
        ),
        with_pin(q, gate, gate),
    )
}

// --- Instances and bundles ----------------------------------------------------

/// The direction of a port: the declared one, or that of its first edge.
pub open spec fn port_dir(d: Document, pid: u32) -> Option<Dir> {
    match node_at(d, pid) {
        Some(n) => match n.dir {
            Some(x) => Some(x),
            None => match first_edge(d, pid, EdgeTest::AtPort) {
                Some(e) => Some(e.dir),
                None => None,
            },
        },
        None => None,
    }
}

/// The pin of a port child. It dangles where no edge and no literal reaches it.
pub open spec fn child_pin(d: Document, pid: u32, mirror: bool) -> PortV {
    let side = match port_dir(d, pid) {
        Some(x) => if mirror {
            facing_side(x)
        } else {
            side_for(x)
        },
        None => Side::West,
    };
    PortV {
        dangling: first_edge(d, pid, EdgeTest::AtPort) is None && tie_at(d, pid) is None,
        ..signal_pin(d, pid, pid, side, None)
    }
}

/// The pins of the port children among the first `n` of `cs`.
pub open spec fn child_pins(d: Document, cs: Seq<u32>, mirror: bool, n: nat) -> Seq<PortV>
    decreases n,
{
    if n == 0 {
        Seq::empty()
    } else {
        let r = child_pins(d, cs, mirror, (n - 1) as nat);
        if has_kind(d, cs[n - 1], NodeKind::Port) {
            r.push(child_pin(d, cs[n - 1], mirror))
        } else {
            r
        }
    }
}

/// The view through which a node reaches a bundle: its own, where it is an interface
/// port, or that of the interface port it is a member of.
pub open spec fn view_through(d: Document, id: u32) -> Option<Seq<char>> {
    match node_at(d, id) {
        Some(x) => if x.kind == NodeKind::Interface {
            opt_chars(x.modport)
        } else {
            match x.parent {
                Some(pid) => match node_at(d, pid) {
                    Some(p) => if p.kind == NodeKind::Interface {
                        opt_chars(p.modport)
                    } else {
                        None
                    },
                    None => None,
                },
                None => None,
            }
        },
        None => None,
    }
}

/// A bundle and its children.
pub open spec fn bundle_ids(d: Document, iface: u32) -> Set<u32> {
    children_at(d, iface).to_set().insert(iface)
}

/// The edges that touch a bundle or its children, ascending.
pub open spec fn bundle_edges(d: Document, iface: u32) -> Seq<u32> {
    touching(d.edges@, bundle_ids(d, iface))
}

/// Whether an edge enters a bundle from outside, and not from a primitive.
pub open spec fn enters(d: Document, iface: u32, e: Edge) -> bool {
    &&& bundle_ids(d, iface).contains(e.endpoint)
    &&& !bundle_ids(d, iface).contains(e.port)
    &&& !gate_at(d, e.port)
}

/// How many of the first `n` edges of a bundle enter it outside any view, in the
/// given direction.
pub open spec fn raw_taps(d: Document, iface: u32, out: bool, n: nat) -> nat
    decreases n,
{
    if n == 0 {
        0
    } else {
        let e = edge_at(d, bundle_edges(d, iface)[n - 1]);
        raw_taps(d, iface, out, (n - 1) as nat) + if enters(d, iface, e) && view_through(d, e.port)
            is None && (e.dir == Dir::Out) == out {
            1nat
        } else {
            0nat
        }
    }
}

/// Whether one of the first `n` edges of a bundle enters it through view `v`.
pub open spec fn view_used(d: Document, iface: u32, v: Seq<char>, n: nat) -> bool {
    exists|k: int|
        #![trigger bundle_edges(d, iface)[k]]
        0 <= k < n && enters(d, iface, edge_at(d, bundle_edges(d, iface)[k])) && view_through(
            d,
            edge_at(d, bundle_edges(d, iface)[k]).port,
        ) == Some(v)
}

/// The side of a bundle's shared raw port, where anything taps its members directly.
pub open spec fn raw_side(d: Document, iface: u32) -> Option<Side> {
    let n = bundle_edges(d, iface).len();
    if node_at(d, iface) is None {
        None
    } else if raw_taps(d, iface, false, n) == 0 && raw_taps(d, iface, true, n) == 0 {
        None
    } else if raw_taps(d, iface, true, n) >= raw_taps(d, iface, false, n) {
        Some(Side::West)
    } else {
        Some(Side::East)
    }
}

/// How many of the first `n` members give a value out.
pub open spec fn outs_in(ms: Seq<ModportMember>, n: nat) -> nat
    decreases n,
{
    if n == 0 {
        0
    } else {
        outs_in(ms, (n - 1) as nat) + if ms[n - 1].dir == Dir::Out {
            1nat
        } else {
            0nat
        }
    }
}

/// The members that a modport lists.
pub open spec fn members_of(n: Node) -> Seq<ModportMember> {
    match n.members {
        Some(ms) => ms@,
        None => Seq::empty(),
    }
}

/// Whether more than half of a view's members give a value out.
pub open spec fn mostly_out(n: Node) -> bool {
    outs_in(members_of(n), members_of(n).len()) * 2 > members_of(n).len()
}

/// The pin of a view on its bundle.
pub open spec fn view_pin(d: Document, mp: Node) -> PortV {
    PortV {
        bundle: true,
        ..bare_pin(
            mp.id,
            mp.name@,
            if mostly_out(mp) {
                Side::West
            } else {
                Side::East
            },
            match node_at(d, mp.id) {
                Some(x) => x.path@,
                None => Seq::empty(),
            },
        )
    }
}

/// The pins of the used views among the first `n` children of a bundle.
pub open spec fn view_pins(d: Document, iface: u32, n: nat) -> Seq<PortV>
    decreases n,
{
    if n == 0 {
        Seq::empty()
    } else {
        let r = view_pins(d, iface, (n - 1) as nat);
        match node_at(d, children_at(d, iface)[n - 1]) {
            Some(c) => if c.kind == NodeKind::Modport && view_used(
                d,
                iface,
                c.name@,
                bundle_edges(d, iface).len(),
            ) {
                r.push(view_pin(d, c))
            } else {
                r
            },
            None => r,
        }
    }
}

/// The raw access pin of a bare bundle.
pub open spec fn raw_pin(d: Document, bx: u32, n: Node, side: Side) -> PortV {
    PortV {
        bundle: true,
        ..bare_pin(
            offset_id(RAW_PORT_BASE, bx as nat),
            match module_name(d, n) {
                Some(m) => m,
                None => n.name@,
            },
            side,
            n.path@,
        )
    }
}

/// How many of the first `n` of `cs` are ports with a declared direction that is
/// `Out`, or is not.
pub open spec fn ports_going(d: Document, cs: Seq<u32>, out: bool, n: nat) -> nat
    decreases n,
{
    if n == 0 {
        0
    } else {
        ports_going(d, cs, out, (n - 1) as nat) + match node_at(d, cs[n - 1]) {
            Some(m) => if m.kind == NodeKind::Port && m.dir is Some && (m.dir == Some(Dir::Out))
                == out {
                1nat
            } else {
                0nat
            },
            None => 0nat,
        }
    }
}

/// Whether a node is a modport-qualified interface port with a connection.
pub open spec fn bundle_port(d: Document, c: u32) -> bool {
    match node_at(d, c) {
        Some(n) => n.kind == NodeKind::Interface && n.modport is Some && first_edge(
            d,
            c,
            EdgeTest::AtPort,
        ) is Some,
        None => false,
    }
}

/// The name of a bundle pin: the port, its interface type and its view.
pub open spec fn bundle_name(d: Document, n: Node) -> Seq<char> {
    let view = match n.modport {
        Some(v) => v@,
        None => Seq::empty(),
    };
    match module_name(d, n) {
        Some(t) => n.name@ + seq![' ', '('] + t + seq!['.'] + view + seq![')'],
        None => n.name@ + seq![' ', '('] + view + seq![')'],
    }
}

/// The single pin of a modport-qualified interface port on its consumer.
pub open spec fn bundle_pin(d: Document, c: u32) -> PortV {
    let n = node_at(d, c)->0;
    let cs = n.children@;
    PortV {
        bundle: true,
        ..bare_pin(
            c,
            bundle_name(d, n),
            if ports_going(d, cs, true, cs.len()) > ports_going(d, cs, false, cs.len()) {
                Side::East
            } else {
                Side::West
            },
            n.path@,
        )
    }
}

/// The pins of the interface ports among the first `n` of `cs`.
pub open spec fn bundle_pins(d: Document, cs: Seq<u32>, n: nat) -> Seq<PortV>
    decreases n,
{
    if n == 0 {
        Seq::empty()
    } else {
        let r = bundle_pins(d, cs, (n - 1) as nat);
        if bundle_port(d, cs[n - 1]) {
            r.push(bundle_pin(d, cs[n - 1]))
        } else {
            r
        }
    }
}

/// All pins of an instance or interface box.
pub open spec fn box_pins(d: Document, bx: u32, n: Node) -> Seq<PortV> {
    let cs = n.children@;
    let mirror = n.kind == NodeKind::Interface && n.modport is Some;
    let own = child_pins(d, cs, mirror, cs.len());
    let access = if n.kind == NodeKind::Interface && n.modport is None {
        let views = own + view_pins(d, bx, children_at(d, bx).len());
        match raw_side(d, bx) {
            Some(side) => views.push(raw_pin(d, bx, n, side)),
            None => views,
        }
    } else {
        own
    };
    access + bundle_pins(d, cs, cs.len())
}

/// The box of an instance or interface. An instance can always be opened; a bundle
/// with views too; another box where it contains boxes.
pub open spec fn instance_box(d: Document, bx: u32, n: Node, scope: Seq<char>) -> NodeV {
    NodeV {
        expandable: n.kind == NodeKind::Instance || bare_bundle(d, bx) || boxes_of(
            d,
            bx,
            Projection::ProcessLevel,
        ).len() > 0,
        module: module_name(d, n),
        modport: opt_chars(n.modport),
        ..bare_box(bx, n.kind, label_in(n.path@, scope), n.path@, box_pins(d, bx, n))
    }
}

/// The box that a node is drawn as, and the pins handed out once it is.
pub open spec fn drawn(d: Document, bx: u32, scope: Seq<char>, p: Pins) -> (Option<NodeV>, Pins) {
    match node_at(d, bx) {
        Some(n) => match n.kind {
            NodeKind::Ff
            | NodeKind::Comb
            | NodeKind::Latch
            | NodeKind::Assign
            | NodeKind::Memory => {
                let (b, q) = logic_box(d, bx, n, scope, p);
                (Some(b), q)
            },
            k => if gate_kind(k) {
                let (b, q) = gate_box(d, bx, n, p);
                (Some(b), q)
            } else {
                (Some(instance_box(d, bx, n, scope)), p)
            },
        },
        None => (None, p),
    }
}

/// The constant source that drives a tied port.
pub open spec fn const_box(lit: Seq<char>, port: u32) -> NodeV {
    let id = offset_id(CONST_ID_BASE, port as nat);
    NodeV {
        constant: Some(lit),
        ..bare_box(
            id,
            NodeKind::Port,
            lit,
            Seq::empty(),
            seq![bare_pin(id, lit, Side::East, Seq::empty())],
        )
    }
}

/// A node drawn as one pin named after it.
pub open spec fn one_pin_box(d: Document, id: u32, n: Node, kind: NodeKind, side: Side) -> NodeV {
    bare_box(
        id,
        kind,
        n.name@,
        n.path@,
        seq![PortV { width: width_in(d, n.type_), ..bare_pin(id, n.name@, side, n.path@) }],
    )
}

/// The frame pin of one of a scope's own ports, which faces the design.
pub open spec fn frame_pin(d: Document, port: u32) -> Option<NodeV> {
    match node_at(d, port) {
        Some(n) => Some(
            one_pin_box(
                d,
                port,
                n,
                NodeKind::Port,
                facing_side(
                    match n.dir {
                        Some(x) => x,
                        None => Dir::In,
                    },
                ),
            ),
        ),
        None => None,
    }
}

/// The one-pin stand-in of a signal that no box on the canvas owns.
pub open spec fn stub_box(d: Document, sig: u32, side: Side) -> Option<NodeV> {
    match node_at(d, sig) {
        Some(n) => Some(one_pin_box(d, sig, n, n.kind, side)),
        None => None,
    }
}

/// A node or none, by contents.
pub open spec fn opt_node(o: Option<SchNode>) -> Option<NodeV> {
    match o {
        Some(n) => Some(n@),
        None => None,
    }
}

// --- Building -----------------------------------------------------------------

fn make_signal_pin(
    design: &Design,
    pin: NodeId,
    sig: NodeId,
    side: Side,
    role: Option<PinRole>,
) -> (r: SchPort)
    ensures
        r@ == signal_pin(design.doc, pin, sig, side, role),
{
    match design.node(sig) {
        Some(n) => {
            let mut p: SchPort = SchPort::bare(pin, n.name.clone(), side, n.path.clone());
            p.width = pin_width(design, &n.type_);
            p.role = role;
            p
        },
        None => {
            let mut p: SchPort = SchPort::bare(pin, String::new(), side, String::new());
            p.role = role;
            p
        },
    }
}

fn opt_same(s: &String, want: &Option<String>) -> (r: bool)
    ensures
        r == (Some(s@) == opt_chars(*want)),
{
    match want {
        Some(w) => same(s.as_str(), w.as_str()),
        None => false,
    }
}

fn path_is(design: &Design, id: NodeId, want: &Option<String>) -> (r: bool)
    ensures
        r == (path_at(design.doc, id) == opt_chars(*want)),
{
    match design.node(id) {
        Some(n) => opt_same(&n.path, want),
        None => want.is_none(),
    }
}

fn name_is(design: &Design, id: NodeId, want: &Option<String>) -> (r: bool)
    ensures
        r == (name_at(design.doc, id) == opt_chars(*want)),
{
    match design.node(id) {
        Some(n) => opt_same(&n.name, want),
        None => want.is_none(),
    }
}

fn pin_role(design: &Design, n: &Node, e: &Edge) -> (r: Option<PinRole>)
    ensures
        r == role_of(design.doc, *n, *e),
{
    match n.kind {
        NodeKind::Ff => {
            if e.dir != Dir::Out && path_is(design, e.endpoint, &n.reset) {
                Some(PinRole::Reset)
            } else if e.dir != Dir::Out && name_is(design, e.endpoint, &n.type_) {
                Some(PinRole::Clk)
            } else {
                None
            }
        },
        NodeKind::Latch => {
            if e.dir != Dir::Out && path_is(design, e.endpoint, &n.enable) {
                Some(PinRole::Enable)
            } else {
                None
            }
        },
        NodeKind::Memory => match e.mem_port {
            Some(MemPort::Addr) => Some(PinRole::Addr),
            Some(MemPort::Din) => Some(PinRole::Din),
            Some(MemPort::Dout) => Some(PinRole::Dout),
            None => None,
        },
        _ => None,
    }
}

fn make_logic_pins(design: &Design, bx: NodeId, n: &Node, pins: &mut PinAlloc) -> (r: Vec<SchPort>)
    requires
        design.wf(),
        old(pins).wf(),
    ensures
        final(pins).wf(),
        (port_views(r@), final(pins)@) == logic_pins(
            design.doc,
            bx,
            *n,
            incident(design.doc, bx).len(),
            old(pins)@,
        ),
{
    let at: &[u32] = design.edge_indices_of(bx);
    let mut seen: HashSet<NodeId> = HashSet::new();
    let mut out: Vec<SchPort> = Vec::new();
    let mut i: usize = 0;
    let ghost p0 = pins@;
    while i < at.len()
        invariant
            i <= at@.len(),
            at@ == incident(design.doc, bx),
            forall|k: int| 0 <= k < at@.len() ==> #[trigger] at@[k] < design.doc.edges@.len(),
            pins.wf(),
            forall|s: u32|
                seen@.contains(s) <==> exists|j: int|
                    0 <= j < i && #[trigger] accesses(design.doc, bx, j) && edge_at(
                        design.doc,
                        at@[j],
                    ).endpoint == s,
            (port_views(out@), pins@) == logic_pins(design.doc, bx, *n, i as nat, p0),
        decreases at@.len() - i,
    {
        let e: &Edge = &design.doc.edges[at[i] as usize];
        let ghost before = seen@;
        let mut give: bool = e.port == bx;
        if e.port == bx && e.mem_port.is_some() {
            assert(accesses(design.doc, bx, i as int));
            let fresh: bool = seen.insert(e.endpoint);
            if n.kind == NodeKind::Memory {
                give = fresh;
            }
        } else if n.kind == NodeKind::Memory {
            give = false;
        }
        proof {
            assert forall|s: u32|
                seen@.contains(s) <==> exists|j: int|
                    0 <= j < i + 1 && #[trigger] accesses(design.doc, bx, j) && edge_at(
                        design.doc,
                        at@[j],
                    ).endpoint == s by {
                if seen@.contains(s) && !before.contains(s) {
                    assert(accesses(design.doc, bx, i as int));
                }
            }
        }
        if give {
            let pin: NodeId = pins.pin(bx, e.endpoint);
            out.push(
                make_signal_pin(design, pin, e.endpoint, side_of(e.dir), pin_role(design, n, e)),
            );
        }
        i += 1;
    }
    out
}

fn logic_box_label(n: &Node, scope: &str) -> (r: String)
    ensures
        r@ == logic_label(*n, scope@),
{
    proof {
        reveal_strlit("FF");
        reveal_strlit("assign");
        reveal_strlit("latch");
        reveal_strlit("comb");
    }
    let r: String = match n.kind {
        NodeKind::Ff => if n.name.as_str().is_empty() {
            owned("FF")
        } else {
            relative_to(n.path.as_str(), scope)
        },
        NodeKind::Memory => relative_to(n.path.as_str(), scope),
        NodeKind::Assign => owned("assign"),
        NodeKind::Latch => owned("latch"),
        _ => owned("comb"),
    };
    assert(r@ =~= logic_label(*n, scope@));
    r
}

/// The box of a register, process, assignment, latch or memory: one pin per wired
/// signal, reads on the west and drives on the east.
pub fn make_logic_box(
    design: &Design,
    bx: NodeId,
    n: &Node,
    scope: &str,
    pins: &mut PinAlloc,
) -> (r: SchNode)
    requires
        design.wf(),
        old(pins).wf(),
    ensures
        final(pins).wf(),
        (r@, final(pins)@) == logic_box(design.doc, bx, *n, scope@, old(pins)@),
{
    let ports: Vec<SchPort> = make_logic_pins(design, bx, n, pins);
    let mut r: SchNode = SchNode::bare(
        bx,
        n.kind,
        logic_box_label(n, scope),
        n.path.clone(),
        ports,
    );
    if n.kind == NodeKind::Memory {
        r.mem_depth = n.mem_depth;
        r.init_source = clone_opt(&n.init_source);
    }
    r
}

/// The box of a primitive: a west pin per operand and one east result pin.
pub fn make_gate_box(design: &Design, gate: NodeId, n: &Node, pins: &mut PinAlloc) -> (r: SchNode)
    requires
        design.wf(),
        old(pins).wf(),
    ensures
        final(pins).wf(),
        (r@, final(pins)@) == gate_box(design.doc, gate, *n, old(pins)@),
{
    let at: &[u32] = design.edge_indices_of(gate);
    let mut ports: Vec<SchPort> = Vec::new();
    let mut i: usize = 0;
    let ghost p0 = pins@;
    while i < at.len()
        invariant
            i <= at@.len(),
            design.wf(),
            at@ == incident(design.doc, gate),
            forall|k: int| 0 <= k < at@.len() ==> #[trigger] at@[k] < design.doc.edges@.len(),
            pins.wf(),
            (port_views(ports@), pins@) == operand_pins(design.doc, gate, i as nat, p0),
        decreases at@.len() - i,
    {
        let e: &Edge = &design.doc.edges[at[i] as usize];
        if e.port == gate && e.dir != Dir::Out {
            let f: (NodeId, bool) = fold_inverter(design, e.endpoint);
            let sel: bool = match e.mux_port {
                Some(MuxPort::Sel) => true,
                _ => false,
            };
            let role: Option<PinRole> = if sel {
                Some(PinRole::Sel)
            } else if f.1 {
                Some(PinRole::Inv)
            } else {
                None
            };
            let pin: NodeId = pins.pin(gate, f.0);
            let mut p: SchPort = make_signal_pin(design, pin, f.0, Side::West, role);
            p.constant = match design.node(f.0) {
                Some(s) => clone_opt(&s.const_value),
                None => None,
            };
            ports.push(p);
        }
        i += 1;
    }
    let pin: NodeId = pins.pin(gate, gate);
    ports.push(SchPort::bare(pin, String::new(), Side::East, n.path.clone()));
    SchNode::bare(gate, n.kind, gate_label(n), n.path.clone(), ports)
}

fn gate_label(n: &Node) -> (r: String)
    ensures
        r@ == match n.op {
            Some(op) => op@,
            None => n.name@,
        },
{
    match &n.op {
        Some(op) => op.clone(),
        None => n.name.clone(),
    }
}

fn make_child_pin(design: &Design, pid: NodeId, mirror: bool) -> (r: SchPort)
    requires
        design.wf(),
    ensures
        r@ == child_pin(design.doc, pid, mirror),
{
    let at_port: Option<&Edge> = find_edge(design, pid, EdgeTest::AtPort);
    let node: Option<&Node> = design.node(pid);
    let tied: bool = match node {
        Some(n) => n.const_value.is_some(),
        None => false,
    };
    let dir: Option<Dir> = match node {
        Some(n) => match n.dir {
            Some(x) => Some(x),
            None => match at_port {
                Some(e) => Some(e.dir),
                None => None,
            },
        },
        None => None,
    };
    let side: Side = match dir {
        Some(x) => if mirror {
            boundary_side(x)
        } else {
            side_of(x)
        },
        None => Side::West,
    };
    let mut p: SchPort = make_signal_pin(design, pid, pid, side, None);
    p.dangling = at_port.is_none() && !tied;
    p
}

fn view_of<'a>(design: &'a Design, id: NodeId) -> (r: Option<&'a str>)
    ensures
        match r {
            Some(v) => view_through(design.doc, id) == Some(v@),
            None => view_through(design.doc, id) is None,
        },
{
    match design.node(id) {
        Some(x) => {
            let owner: Option<&Node> = if x.kind == NodeKind::Interface {
                Some(x)
            } else {
                match x.parent {
                    Some(pid) => match design.node(pid) {
                        Some(p) => if p.kind == NodeKind::Interface {
                            Some(p)
                        } else {
                            None
                        },
                        None => None,
                    },
                    None => None,
                }
            };
            match owner {
                Some(o) => match &o.modport {
                    Some(v) => Some(v.as_str()),
                    None => None,
                },
                None => None,
            }
        },
        None => None,
    }
}

/// The edge indices incident on any of `ids`, ascending.
pub fn edges_touching(design: &Design, ids: &Vec<NodeId>) -> (r: Vec<u32>)
    requires
        design.wf(),
    ensures
        r@ == touching(design.doc.edges@, ids@.to_set()),
        forall|k: int| 0 <= k < r@.len() ==> #[trigger] r@[k] < design.doc.edges@.len(),
{
    let mut cand: BTreeSet<u32> = BTreeSet::new();
    let mut i: usize = 0;
    let ghost edges = design.doc.edges@;
    assert(cand@ =~= meeting(edges, ids@.take(0).to_set()));
    while i < ids.len()
        invariant
            design.wf(),
            edges == design.doc.edges@,
            i <= ids@.len(),
            cand@ == meeting(edges, ids@.take(i as int).to_set()),
        decreases ids@.len() - i,
    {
        let id: NodeId = ids[i];
        let at: &[u32] = design.edge_indices_of(id);
        let mut k: usize = 0;
        let ghost before = cand@;
        assert(cand@ =~= before.union(at@.take(0).to_set()));
        while k < at.len()
            invariant
                k <= at@.len(),
                cand@ == before.union(at@.take(k as int).to_set()),
            decreases at@.len() - k,
        {
            cand.insert(at[k]);
            proof {
                lemma_take_contains(at@, k as int);
                assert(cand@ =~= before.union(at@.take(k + 1).to_set()));
            }
            k += 1;
        }
        proof {
            assert(at@.take(k as int) =~= at@);
            lemma_ascending(meeting(edges, set![id]));
            lemma_take_contains(ids@, i as int);
            let a = ids@.take(i as int);
            let b = ids@.take(i + 1);
            assert forall|x: u32| cand@.contains(x) <==> meeting(edges, b.to_set()).contains(
                x,
            ) by {
                assert(at@.contains(x) <==> meeting(edges, set![id]).contains(x));
                if x < edges.len() {
                    let e = edges[x as int];
                    assert(b.contains(e.port) <==> (a.contains(e.port) || e.port == id));
                    assert(b.contains(e.endpoint) <==> (a.contains(e.endpoint) || e.endpoint
                        == id));
                }
            }
            assert(cand@ =~= meeting(edges, b.to_set()));
        }
        i += 1;
    }
    let r: Vec<u32> = members(&cand);
    proof {
        assert(ids@.take(i as int) =~= ids@);
        lemma_ascending(cand@);
        assert forall|k: int| 0 <= k < r@.len() implies #[trigger] r@[k] < edges.len() by {
            assert(r@.contains(r@[k]));
            assert(cand@.contains(r@[k]));
        }
    }
    r
}

fn view_listed(used: &Vec<&str>, v: &str) -> (r: bool)
    ensures
        r == exists|j: int| 0 <= j < used@.len() && (#[trigger] used@[j])@ == v@,
{
    let mut i: usize = 0;
    while i < used.len()
        invariant
            i <= used@.len(),
            forall|j: int| 0 <= j < i ==> (#[trigger] used@[j])@ != v@,
        decreases used@.len() - i,
    {
        if same(used[i], v) {
            assert(used@[i as int]@ == v@);
            return true;
        }
        i += 1;
    }
    false
}

pub fn mostly_drives(n: &Node) -> (r: bool)
    ensures
        r == mostly_out(*n),
{
    match &n.members {
        Some(ms) => {
            let mut outs: usize = 0;
            let mut i: usize = 0;
            while i < ms.len()
                invariant
                    i <= ms@.len(),
                    outs <= i,
                    outs == outs_in(ms@, i as nat),
                decreases ms@.len() - i,
            {
                if ms[i].dir == Dir::Out {
                    outs += 1;
                }
                i += 1;
            }
            outs > ms.len() - outs
        },
        None => false,
    }
}

/// The bundle's own id and those of its children.
fn ids_of_bundle(iface: NodeId, n: &Node) -> (r: Vec<NodeId>)
    ensures
        r@.to_set() == n.children@.to_set().insert(iface),
{
    let mut ids: Vec<NodeId> = Vec::new();
    ids.push(iface);
    let ghost one = ids@;
    crate::schematic::kinds::append_ids(&mut ids, n.children.as_slice());
    proof {
        let cs = n.children@;
        assert forall|x: u32| ids@.to_set().contains(x) <==> cs.to_set().insert(iface).contains(
            x,
        ) by {
            if x == iface {
                assert(ids@[0] == x);
            }
            if cs.contains(x) {
                let j = choose|j: int| 0 <= j < cs.len() && cs[j] == x;
                assert(ids@[j + 1] == x);
            }
            if ids@.contains(x) {
                let j = choose|j: int| 0 <= j < ids@.len() && ids@[j] == x;
                if j > 0 {
                    assert(cs[j - 1] == x);
                }
            }
        }
        assert(ids@.to_set() =~= cs.to_set().insert(iface));
    }
    ids
}

/// The views through which a bundle is reached, and the side of its raw port.
fn access<'a>(design: &'a Design, iface: NodeId, n: &Node) -> (r: (Vec<&'a str>, Option<Side>))
    requires
        design.wf(),
        node_at(design.doc, iface) == Some(*n),
    ensures
        forall|v: Seq<char>|
            (exists|j: int| 0 <= j < r.0@.len() && (#[trigger] r.0@[j])@ == v) <==> view_used(
                design.doc,
                iface,
                v,
                bundle_edges(design.doc, iface).len(),
            ),
        r.1 == raw_side(design.doc, iface),
{
    let ids: Vec<NodeId> = ids_of_bundle(iface, n);
    let mut inside: HashSet<NodeId> = HashSet::new();
    let mut i: usize = 0;
    while i < ids.len()
        invariant
            i <= ids@.len(),
            forall|x: u32|
                inside@.contains(x) <==> exists|j: int| 0 <= j < i && #[trigger] ids@[j] == x,
        decreases ids@.len() - i,
    {
        inside.insert(ids[i]);
        proof {
            assert forall|x: u32|
                inside@.contains(x) <==> exists|j: int| 0 <= j < i + 1 && #[trigger] ids@[j]
                    == x by {
                assert(ids@[i as int] == ids[i as int]);
            }
        }
        i += 1;
    }
    let ghost bids = bundle_ids(design.doc, iface);
    proof {
        assert forall|x: u32| inside@.contains(x) <==> bids.contains(x) by {
            assert(ids@.to_set().contains(x) <==> bids.contains(x));
        }
        assert(inside@ =~= bids);
    }
    let cand: Vec<u32> = edges_touching(design, &ids);
    let mut used: Vec<&'a str> = Vec::new();
    let mut raw_in: usize = 0;
    let mut raw_out: usize = 0;
    let mut k: usize = 0;
    while k < cand.len()
        invariant
            k <= cand@.len(),
            cand@ == bundle_edges(design.doc, iface),
            forall|j: int| 0 <= j < cand@.len() ==> #[trigger] cand@[j] < design.doc.edges@.len(),
            inside@ == bundle_ids(design.doc, iface),
            raw_in <= k,
            raw_out <= k,
            raw_in == raw_taps(design.doc, iface, false, k as nat),
            raw_out == raw_taps(design.doc, iface, true, k as nat),
            forall|v: Seq<char>|
                (exists|j: int| 0 <= j < used@.len() && (#[trigger] used@[j])@ == v)
                    <==> view_used(design.doc, iface, v, k as nat),
        decreases cand@.len() - k,
    {
        let e: &Edge = &design.doc.edges[cand[k] as usize];
        assert(*e == edge_at(design.doc, bundle_edges(design.doc, iface)[k as int]));
        let ghost before = used@;
        let ghost k1 = (k + 1) as nat;
        if inside.contains(&e.endpoint) && !inside.contains(&e.port) && !is_gate(design, e.port) {
            match view_of(design, e.port) {
                Some(v) => {
                    if !view_listed(&used, v) {
                        used.push(v);
                        assert(used@[before.len() as int]@ == v@);
                    }
                    proof {
                        assert forall|w: Seq<char>|
                            (exists|j: int| 0 <= j < used@.len() && (#[trigger] used@[j])@ == w)
                                <==> #[trigger] view_used(design.doc, iface, w, k1) by {
                            if exists|j: int| 0 <= j < before.len() && (#[trigger] before[j])@
                                == w {
                                let j = choose|j: int|
                                    0 <= j < before.len() && (#[trigger] before[j])@ == w;
                                assert(used@[j]@ == w);
                                assert(view_used(design.doc, iface, w, k as nat));
                            }
                            if view_used(design.doc, iface, w, k as nat) {
                                let j = choose|j: int|
                                    0 <= j < before.len() && (#[trigger] before[j])@ == w;
                                assert(used@[j]@ == w);
                            }
                        }
                    }
                },
                None => {
                    match e.dir {
                        Dir::Out => {
                            raw_out += 1;
                        },
                        _ => {
                            raw_in += 1;
                        },
                    }
                    proof {
                        assert forall|w: Seq<char>| view_used(
                            design.doc,
                            iface,
                            w,
                            k as nat,
                        ) == #[trigger] view_used(design.doc, iface, w, k1) by {}
                    }
                },
            }
        } else {
            proof {
                assert forall|w: Seq<char>| view_used(design.doc, iface, w, k as nat) == #[trigger] view_used(
                    design.doc,
                    iface,
                    w,
                    k1,
                ) by {}
            }
        }
        k += 1;
    }
    let raw: Option<Side> = if raw_in == 0 && raw_out == 0 {
        None
    } else if raw_out >= raw_in {
        Some(Side::West)
    } else {
        Some(Side::East)
    };
    (used, raw)
}

/// The side of a bare bundle's raw access port, where it has one.
pub fn raw_access(design: &Design, iface: NodeId) -> (r: Option<Side>)
    requires
        design.wf(),
    ensures
        r == raw_side(design.doc, iface),
{
    match design.node(iface) {
        Some(n) => access(design, iface, n).1,
        None => None,
    }
}

/// Appends the access pins of a bare bundle: one per used view, then the raw one.
fn access_ports(design: &Design, iface: NodeId, n: &Node, ports: &mut Vec<SchPort>)
    requires
        design.wf(),
        node_at(design.doc, iface) == Some(*n),
    ensures
        port_views(final(ports)@) == ({
            let views = port_views(old(ports)@) + view_pins(
                design.doc,
                iface,
                children_at(design.doc, iface).len(),
            );
            match raw_side(design.doc, iface) {
                Some(side) => views.push(raw_pin(design.doc, iface, *n, side)),
                None => views,
            }
        }),
{
    let a: (Vec<&str>, Option<Side>) = access(design, iface, n);
    let ghost p0 = port_views(ports@);
    let mut i: usize = 0;
    assert(p0 + view_pins(design.doc, iface, 0) =~= p0);
    while i < n.children.len()
        invariant
            i <= n.children@.len(),
            n.children@ == children_at(design.doc, iface),
            forall|v: Seq<char>|
                (exists|j: int| 0 <= j < a.0@.len() && (#[trigger] a.0@[j])@ == v) <==> view_used(
                    design.doc,
                    iface,
                    v,
                    bundle_edges(design.doc, iface).len(),
                ),
            port_views(ports@) == p0 + view_pins(design.doc, iface, i as nat),
        decreases n.children@.len() - i,
    {
        let ghost before = view_pins(design.doc, iface, i as nat);
        if let Some(c) = design.node(n.children[i]) {
            if c.kind == NodeKind::Modport && view_listed(&a.0, c.name.as_str()) {
                let side: Side = if mostly_drives(c) {
                    Side::West
                } else {
                    Side::East
                };
                let path: String = match design.node(c.id) {
                    Some(x) => x.path.clone(),
                    None => String::new(),
                };
                let mut p: SchPort = SchPort::bare(c.id, c.name.clone(), side, path);
                p.bundle = true;
                ports.push(p);
                assert(p@ == view_pin(design.doc, *c));
                assert(p0 + before.push(p@) =~= (p0 + before).push(p@));
            }
        }
        i += 1;
    }
    if let Some(side) = a.1 {
        let name: String = match module_of(design, n) {
            Some(m) => m,
            None => n.name.clone(),
        };
        let mut p: SchPort = SchPort::bare(
            RAW_PORT_BASE.wrapping_add(iface),
            name,
            side,
            n.path.clone(),
        );
        p.bundle = true;
        ports.push(p);
        assert(p@ == raw_pin(design.doc, iface, *n, side));
    }
}

fn make_bundle_pin(design: &Design, c: NodeId, n: &Node) -> (r: SchPort)
    requires
        node_at(design.doc, c) == Some(*n),
    ensures
        r@ == bundle_pin(design.doc, c),
{
    let mut ins: usize = 0;
    let mut outs: usize = 0;
    let mut i: usize = 0;
    while i < n.children.len()
        invariant
            i <= n.children@.len(),
            ins <= i,
            outs <= i,
            ins == ports_going(design.doc, n.children@, false, i as nat),
            outs == ports_going(design.doc, n.children@, true, i as nat),
        decreases n.children@.len() - i,
    {
        if let Some(m) = design.node(n.children[i]) {
            if m.kind == NodeKind::Port {
                match m.dir {
                    Some(Dir::Out) => {
                        outs += 1;
                    },
                    Some(_) => {
                        ins += 1;
                    },
                    None => {},
                }
            }
        }
        i += 1;
    }
    let side: Side = if outs > ins {
        Side::East
    } else {
        Side::West
    };
    proof {
        reveal_strlit(" (");
        reveal_strlit(".");
        reveal_strlit(")");
        assert(" ("@ =~= seq![' ', '(']);
        assert("."@ =~= seq!['.']);
        assert(")"@ =~= seq![')']);
    }
    let mut name: String = n.name.clone();
    name.append(" (");
    if let Some(t) = module_of(design, n) {
        name.append(t.as_str());
        name.append(".");
    }
    if let Some(v) = &n.modport {
        name.append(v.as_str());
    }
    name.append(")");
    assert(name@ =~= bundle_name(design.doc, *n));
    let mut p: SchPort = SchPort::bare(c, name, side, n.path.clone());
    p.bundle = true;
    p
}

/// The box of an instance or interface with its pins. The label is relative to the
/// scope, so that boxes pulled up from generate blocks stay distinct.
pub fn make_box(design: &Design, bx: NodeId, n: &Node, scope: &str) -> (r: SchNode)
    requires
        design.wf(),
        nested(design.doc),
        node_at(design.doc, bx) == Some(*n),
    ensures
        r@ == instance_box(design.doc, bx, *n, scope@),
{
    let mirror: bool = n.kind == NodeKind::Interface && n.modport.is_some();
    let ghost cs = n.children@;
    let mut ports: Vec<SchPort> = Vec::new();
    let mut i: usize = 0;
    while i < n.children.len()
        invariant
            i <= n.children@.len(),
            design.wf(),
            port_views(ports@) == child_pins(design.doc, n.children@, mirror, i as nat),
        decreases n.children@.len() - i,
    {
        if is_kind(design, n.children[i], NodeKind::Port) {
            ports.push(make_child_pin(design, n.children[i], mirror));
        }
        i += 1;
    }
    if n.kind == NodeKind::Interface && n.modport.is_none() {
        access_ports(design, bx, n, &mut ports);
    }
    let ghost p0 = port_views(ports@);
    assert(p0 + bundle_pins(design.doc, cs, 0) =~= p0);
    let mut i: usize = 0;
    while i < n.children.len()
        invariant
            i <= n.children@.len(),
            design.wf(),
            port_views(ports@) == p0 + bundle_pins(design.doc, n.children@, i as nat),
        decreases n.children@.len() - i,
    {
        let c: NodeId = n.children[i];
        let ghost before = bundle_pins(design.doc, n.children@, i as nat);
        if let Some(cn) = design.node(c) {
            if cn.kind == NodeKind::Interface && cn.modport.is_some() && find_edge(
                design,
                c,
                EdgeTest::AtPort,
            ).is_some() {
                let p: SchPort = make_bundle_pin(design, c, cn);
                ports.push(p);
                assert(p0 + before.push(p@) =~= (p0 + before).push(p@));
            }
        }
        i += 1;
    }
    let expandable: bool = n.kind == NodeKind::Instance || is_bare_interface(design, bx)
        || child_boxes(design, bx, Projection::ProcessLevel).len() > 0;
    let mut r: SchNode = SchNode::bare(
        bx,
        n.kind,
        relative_to(n.path.as_str(), scope),
        n.path.clone(),
        ports,
    );
    r.expandable = expandable;
    r.module = module_of(design, n);
    r.modport = clone_opt(&n.modport);
    r
}

/// The box that a node is drawn as.
pub fn cone_box_node(design: &Design, bx: NodeId, scope: &str, pins: &mut PinAlloc) -> (r: Option<
    SchNode,
>)
    requires
        design.wf(),
        nested(design.doc),
        old(pins).wf(),
    ensures
        final(pins).wf(),
        (opt_node(r), final(pins)@) == drawn(design.doc, bx, scope@, old(pins)@),
{
    match design.node(bx) {
        Some(n) => match n.kind {
            NodeKind::Ff
            | NodeKind::Comb
            | NodeKind::Latch
            | NodeKind::Assign
            | NodeKind::Memory => Some(make_logic_box(design, bx, n, scope, pins)),
            k => if is_gate_kind(k) {
                Some(make_gate_box(design, bx, n, pins))
            } else {
                Some(make_box(design, bx, n, scope))
            },
        },
        None => None,
    }
}

/// The constant source that drives a tied port.
pub fn make_const_node(lit: &str, port: NodeId) -> (r: SchNode)
    ensures
        r@ == const_box(lit@, port),
{
    let id: NodeId = CONST_ID_BASE.wrapping_add(port);
    let mut ports: Vec<SchPort> = Vec::new();
    ports.push(SchPort::bare(id, owned(lit), Side::East, String::new()));
    let mut r: SchNode = SchNode::bare(id, NodeKind::Port, owned(lit), String::new(), ports);
    r.constant = Some(owned(lit));
    assert(r@.ports =~= const_box(lit@, port).ports);
    r
}

fn make_one_pin(design: &Design, id: NodeId, n: &Node, kind: NodeKind, side: Side) -> (r: SchNode)
    ensures
        r@ == one_pin_box(design.doc, id, *n, kind, side),
{
    let mut p: SchPort = SchPort::bare(id, n.name.clone(), side, n.path.clone());
    p.width = pin_width(design, &n.type_);
    let mut ports: Vec<SchPort> = Vec::new();
    ports.push(p);
    let r: SchNode = SchNode::bare(id, kind, n.name.clone(), n.path.clone(), ports);
    assert(r@.ports =~= one_pin_box(design.doc, id, *n, kind, side).ports);
    r
}

/// The frame pin of one of a scope's own ports.
pub fn make_boundary_pin(design: &Design, port: NodeId) -> (r: Option<SchNode>)
    ensures
        opt_node(r) == frame_pin(design.doc, port),
{
    match design.node(port) {
        Some(n) => {
            let dir: Dir = match n.dir {
                Some(x) => x,
                None => Dir::In,
            };
            Some(make_one_pin(design, port, n, NodeKind::Port, boundary_side(dir)))
        },
        None => None,
    }
}

/// The one-pin stand-in of a signal that no box on the canvas owns.
pub fn make_signal_stub(design: &Design, sig: NodeId, side: Side) -> (r: Option<SchNode>)
    ensures
        opt_node(r) == stub_box(design.doc, sig, side),
{
    match design.node(sig) {
        Some(n) => Some(make_one_pin(design, sig, n, n.kind, side)),
        None => None,
    }
}

} // verus!
