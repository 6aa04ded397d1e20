//! The interior of a bare interface bundle.

use crate::groups::{under, Groups};
use crate::model::{
    at_path, children_at, member_nodes, node_at, Design, Dir, Document, ModportMember, Node,
    NodeId, NodeKind,
};
use crate::schematic::boxes::{frame_pin, make_boundary_pin, members_of, mostly_drives, mostly_out};
use crate::schematic::hierarchy::path_or_empty;
use crate::schematic::kinds::{has_kind, is_kind};
use crate::schematic::labels::{label_in, pin_width, relative_to, width_in};
use crate::schematic::pins::{offset_id, pin_id, with_pin, PinAlloc, Pins, MODPORT_FRAME_BASE};
use crate::schematic::types::{
    bare_box, bare_pin, group_views, node_views, port_views, side_for, side_of, EdgeV, GraphV,
    NodeV, PortV, SchEdge, SchNode, SchPort, SchematicGraph, Side,
};
use crate::schematic::wires::{
    join_signals, joined_signals, next_id, Anchor, Wires, WiresV,
};
use crate::text::owned;
use std::collections::HashSet;
use vstd::prelude::*;

verus! {

broadcast use {group_views, vstd::std_specs::hash::group_hash_axioms};

/// The children of kind `k` among the first `n` of `cs`.
pub open spec fn kids(d: Document, cs: Seq<u32>, k: NodeKind, n: nat) -> Seq<u32>
    decreases n,
{
    if n == 0 {
        Seq::empty()
    } else {
        let r = kids(d, cs, k, (n - 1) as nat);
        if has_kind(d, cs[n - 1], k) {
            r.push(cs[n - 1])
        } else {
            r
        }
    }
}

/// The children of kind `k` of a node.
pub open spec fn kids_of(d: Document, id: u32, k: NodeKind) -> Seq<u32> {
    kids(d, children_at(d, id), k, children_at(d, id).len())
}

/// The node that a signal is joined under: the first at its path.
pub open spec fn key_at(d: Document, sig: u32) -> u32 {
    match node_at(d, sig) {
        Some(n) => if at_path(d, n.path@).len() > 0 {
            at_path(d, n.path@)[0]
        } else {
            sig
        },
        None => sig,
    }
}

/// Entries that fold a pin in under a key by direction: a driver, a load, or both.
pub open spec fn as_driver(dir: Option<Dir>, flip: bool) -> bool {
    match dir {
        Some(Dir::Out) => !flip,
        Some(Dir::In) => flip,
        _ => true,
    }
}

/// A log with an entry added where `yes`.
pub open spec fn noted(log: Seq<(u32, Anchor)>, yes: bool, key: u32, pin: u32) -> Seq<
    (u32, Anchor),
> {
    if yes {
        log.push((key, (pin, None)))
    } else {
        log
    }
}

/// What the walk over the views has gathered.
#[verifier::ext_equal]
pub struct ViewsV {
    pub nodes: Seq<NodeV>,
    pub pins: Pins,
    /// Pin and signal of each member pin, by view.
    pub view_pins: Seq<(u32, (u32, u32))>,
    pub drivers: Seq<(u32, Anchor)>,
    pub loads: Seq<(u32, Anchor)>,
}

/// The pin of a member on its view's box.
pub open spec fn member_pin(d: Document, pin: u32, m: ModportMember, sig: u32) -> PortV {
    PortV {
        width: match node_at(d, sig) {
            Some(n) => width_in(d, n.type_),
            None => None,
        },
        ..bare_pin(pin, m.name@, side_for(m.dir), path_or_empty(d, sig))
    }
}

/// The pins of the first `n` members of view `mp`, those that name no signal left
/// out, and what they add.
pub open spec fn member_fold(
    d: Document,
    mp: u32,
    ms: Seq<ModportMember>,
    n: nat,
    s: ViewsV,
) -> (Seq<PortV>, ViewsV)
    decreases n,
{
    if n == 0 {
        (Seq::empty(), s)
    } else {
        let (ports, t) = member_fold(d, mp, ms, (n - 1) as nat, s);
        let m = ms[n - 1];
        let at = member_nodes(d, mp, m.name@);
        if at.len() == 0 {
            (ports, t)
        } else {
            let pin = pin_id(t.pins, mp, at[0]);
            let key = key_at(d, at[0]);
            (
                ports.push(member_pin(d, pin, m, at[0])),
                ViewsV {
                    nodes: t.nodes,
                    pins: with_pin(t.pins, mp, at[0]),
                    view_pins: t.view_pins.push((mp, (pin, at[0]))),
                    drivers: noted(t.drivers, as_driver(Some(m.dir), false), key, pin),
                    loads: noted(t.loads, as_driver(Some(m.dir), true), key, pin),
                },
            )
        }
    }
}

/// The boxes of the first `n` views, one directional pin per member.
pub open spec fn view_fold(
    d: Document,
    views: Seq<u32>,
    scope: Seq<char>,
    n: nat,
    s: ViewsV,
) -> ViewsV
    decreases n,
{
    if n == 0 {
        s
    } else {
        let t = view_fold(d, views, scope, (n - 1) as nat, s);
        let mp = views[n - 1];
        match node_at(d, mp) {
            Some(mn) => {
                let (ports, u) = member_fold(d, mp, members_of(mn), members_of(mn).len(), t);
                ViewsV {
                    nodes: u.nodes.push(
                        bare_box(
                            mp,
                            NodeKind::Modport,
                            label_in(mn.path@, scope),
                            mn.path@,
                            ports,
                        ),
                    ),
                    ..u
                }
            },
            None => t,
        }
    }
}

/// The declared direction of the node with index `id`.
pub open spec fn dir_at(d: Document, id: u32) -> Option<Dir> {
    match node_at(d, id) {
        Some(n) => n.dir,
        None => None,
    }
}

/// The frame pins of the first `n` of a bundle's own ports: an input drives its
/// signal, an output loads it.
pub open spec fn own_fold(d: Document, ports: Seq<u32>, n: nat, s: ViewsV) -> ViewsV
    decreases n,
{
    if n == 0 {
        s
    } else {
        let t = own_fold(d, ports, (n - 1) as nat, s);
        let p = ports[n - 1];
        ViewsV {
            nodes: match frame_pin(d, p) {
                Some(b) => t.nodes.push(b),
                None => t.nodes,
            },
            drivers: noted(t.drivers, as_driver(dir_at(d, p), true), key_at(d, p), p),
            loads: noted(t.loads, as_driver(dir_at(d, p), false), key_at(d, p), p),
            ..t
        }
    }
}

/// Whether one of the first `n` ports is joined under `key`.
pub open spec fn own_key(d: Document, ports: Seq<u32>, n: nat, key: u32) -> bool {
    exists|k: int| #![trigger ports[k]] 0 <= k < n && key_at(d, ports[k]) == key
}

/// The wires from a view's frame port to its first `n` member pins. A member that one
/// of the bundle's own ports carries is wired to that port already.
pub open spec fn frame_wires(
    d: Document,
    ports: Seq<u32>,
    scope: Seq<char>,
    fid: u32,
    mine: Seq<(u32, u32)>,
    n: nat,
    w: WiresV,
) -> WiresV
    decreases n,
{
    if n == 0 {
        w
    } else {
        let v = frame_wires(d, ports, scope, fid, mine, (n - 1) as nat, w);
        let (pin, sig) = mine[n - 1];
        if own_key(d, ports, ports.len(), key_at(d, sig)) {
            v
        } else {
            WiresV {
                edges: v.edges.push(
                    EdgeV {
                        id: v.next,
                        source: fid,
                        target: pin,
                        net: match node_at(d, sig) {
                            Some(x) => Some(label_in(x.path@, scope)),
                            None => None,
                        },
                        net_path: match node_at(d, sig) {
                            Some(x) => Some(x.path@),
                            None => None,
                        },
                    },
                ),
                next: next_id(v.next),
                ..v
            }
        }
    }
}

/// The frame port of a view: its outer face.
pub open spec fn frame_port(mp: u32, mn: Node) -> NodeV {
    let fid = offset_id(MODPORT_FRAME_BASE, mp as nat);
    bare_box(
        fid,
        NodeKind::Port,
        mn.name@,
        mn.path@,
        seq![
            PortV {
                bundle: true,
                ..bare_pin(
                    fid,
                    mn.name@,
                    if mostly_out(mn) {
                        Side::East
                    } else {
                        Side::West
                    },
                    mn.path@,
                )
            },
        ],
    )
}

/// The frame ports of the first `n` views, each fanned out to the view's pins.
pub open spec fn frame_fold(
    d: Document,
    views: Seq<u32>,
    ports: Seq<u32>,
    scope: Seq<char>,
    view_pins: Seq<(u32, (u32, u32))>,
    n: nat,
    nodes: Seq<NodeV>,
    w: WiresV,
) -> (Seq<NodeV>, WiresV)
    decreases n,
{
    if n == 0 {
        (nodes, w)
    } else {
        let (ns, v) = frame_fold(d, views, ports, scope, view_pins, (n - 1) as nat, nodes, w);
        let mp = views[n - 1];
        match node_at(d, mp) {
            Some(mn) => {
                let mine = under(view_pins, mp);
                (
                    ns.push(frame_port(mp, mn)),
                    frame_wires(
                        d,
                        ports,
                        scope,
                        offset_id(MODPORT_FRAME_BASE, mp as nat),
                        mine,
                        mine.len(),
                        v,
                    ),
                )
            },
            None => (ns, v),
        }
    }
}

/// The interior of a bundle: a box per view, a frame pin per own port, wires between
/// what one view drives and another reads, and a frame port per view.
pub open spec fn interior(d: Document, iface: u32, scope: Seq<char>) -> GraphV {
    let views = kids_of(d, iface, NodeKind::Modport);
    let ports = kids_of(d, iface, NodeKind::Port);
    let s0 = ViewsV {
        nodes: Seq::empty(),
        pins: Seq::empty(),
        view_pins: Seq::empty(),
        drivers: Seq::empty(),
        loads: Seq::empty(),
    };
    let s = own_fold(d, ports, ports.len(), view_fold(d, views, scope, views.len(), s0));
    let w = joined_signals(
        d,
        scope,
        s.drivers,
        s.loads,
        WiresV { edges: Seq::empty(), seen: Set::empty(), next: 0 },
    );
    let (nodes, v) = frame_fold(
        d,
        views,
        ports,
        scope,
        s.view_pins,
        views.len(),
        s.nodes,
        w,
    );
    GraphV { root: scope, nodes, edges: v.edges, truncated: false }
}

struct Views {
    nodes: Vec<SchNode>,
    pins: PinAlloc,
    view_pins: Groups<(u32, u32)>,
    drivers: Groups<Anchor>,
    loads: Groups<Anchor>,
}

impl View for Views {
    type V = ViewsV;

    closed spec fn view(&self) -> ViewsV {
        ViewsV {
            nodes: node_views(self.nodes@),
            pins: self.pins@,
            view_pins: self.view_pins@,
            drivers: self.drivers@,
            loads: self.loads@,
        }
    }
}

impl Views {
    spec fn wf(&self) -> bool {
        self.pins.wf() && self.view_pins.wf() && self.drivers.wf() && self.loads.wf()
    }
}

/// The children of kind `k` of a node.
pub fn children_of_kind(design: &Design, id: NodeId, k: NodeKind) -> (r: Vec<NodeId>)
    ensures
        r@ == kids_of(design.doc, id, k),
{
    let mut out: Vec<NodeId> = Vec::new();
    if let Some(n) = design.node(id) {
        let mut i: usize = 0;
        while i < n.children.len()
            invariant
                i <= n.children@.len(),
                n.children@ == children_at(design.doc, id),
                out@ == kids(design.doc, n.children@, k, i as nat),
            decreases n.children@.len() - i,
        {
            if is_kind(design, n.children[i], k) {
                out.push(n.children[i]);
            }
            i += 1;
        }
    }
    out
}

fn key_of(design: &Design, sig: NodeId) -> (r: NodeId)
    requires
        design.wf(),
    ensures
        r == key_at(design.doc, sig),
{
    match design.node(sig) {
        Some(n) => {
            let at: &[NodeId] = design.nodes_at_path(n.path.as_str());
            if at.len() > 0 {
                at[0]
            } else {
                sig
            }
        },
        None => sig,
    }
}

fn fold_pin(s: &mut Views, dir: Option<Dir>, flip: bool, key: NodeId, pin: NodeId)
    requires
        old(s).wf(),
    ensures
        final(s).wf(),
        final(s)@ == (ViewsV {
            drivers: noted(old(s)@.drivers, as_driver(dir, flip), key, pin),
            loads: noted(old(s)@.loads, as_driver(dir, !flip), key, pin),
            ..old(s)@
        }),
{
    let (drives, reads) = match dir {
        Some(Dir::Out) => (!flip, flip),
        Some(Dir::In) => (flip, !flip),
        _ => (true, true),
    };
    if drives {
        s.drivers.push(key, (pin, None));
    }
    if reads {
        s.loads.push(key, (pin, None));
    }
}

fn fold_members(
    design: &Design,
    mp: NodeId,
    ms: &Vec<ModportMember>,
    s: &mut Views,
) -> (r: Vec<SchPort>)
    requires
        design.wf(),
        old(s).wf(),
    ensures
        final(s).wf(),
        (port_views(r@), final(s)@) == member_fold(design.doc, mp, ms@, ms@.len(), old(s)@),
{
    let mut ports: Vec<SchPort> = Vec::new();
    let ghost s0 = s@;
    let mut i: usize = 0;
    while i < ms.len()
        invariant
            i <= ms@.len(),
            design.wf(),
            s.wf(),
            (port_views(ports@), s@) == member_fold(design.doc, mp, ms@, i as nat, s0),
        decreases ms@.len() - i,
    {
        let m: &ModportMember = &ms[i];
        let at: Vec<NodeId> = design.modport_member_nodes(mp, m.name.as_str());
        if at.len() > 0 {
            let sig: NodeId = at[0];
            let pin: NodeId = s.pins.pin(mp, sig);
            let (path, width) = match design.node(sig) {
                Some(n) => (n.path.clone(), pin_width(design, &n.type_)),
                None => (String::new(), None),
            };
            let mut p: SchPort = SchPort::bare(pin, m.name.clone(), side_of(m.dir), path);
            p.width = width;
            assert(p@ == member_pin(design.doc, pin, *m, sig));
            ports.push(p);
            s.view_pins.push(mp, (pin, sig));
            fold_pin(s, Some(m.dir), false, key_of(design, sig), pin);
        }
        i += 1;
    }
    ports
}

fn fold_views(design: &Design, views: &Vec<NodeId>, scope: &str, s: &mut Views)
    requires
        design.wf(),
        old(s).wf(),
    ensures
        final(s).wf(),
        final(s)@ == view_fold(design.doc, views@, scope@, views@.len(), old(s)@),
{
    let ghost s0 = s@;
    let mut i: usize = 0;
    while i < views.len()
        invariant
            i <= views@.len(),
            design.wf(),
            s.wf(),
            s@ == view_fold(design.doc, views@, scope@, i as nat, s0),
        decreases views@.len() - i,
    {
        let mp: NodeId = views[i];
        if let Some(mn) = design.node(mp) {
            let ports: Vec<SchPort> = match &mn.members {
                Some(ms) => fold_members(design, mp, ms, s),
                None => Vec::new(),
            };
            s.nodes.push(
                SchNode::bare(
                    mp,
                    NodeKind::Modport,
                    relative_to(mn.path.as_str(), scope),
                    mn.path.clone(),
                    ports,
                ),
            );
        }
        i += 1;
    }
}

fn fold_own(design: &Design, ports: &Vec<NodeId>, s: &mut Views) -> (keys: HashSet<NodeId>)
    requires
        design.wf(),
        old(s).wf(),
    ensures
        final(s).wf(),
        final(s)@ == own_fold(design.doc, ports@, ports@.len(), old(s)@),
        forall|k: u32| #[trigger]
            keys@.contains(k) <==> own_key(design.doc, ports@, ports@.len(), k),
{
    let ghost s0 = s@;
    let mut keys: HashSet<NodeId> = HashSet::new();
    let mut i: usize = 0;
    while i < ports.len()
        invariant
            i <= ports@.len(),
            design.wf(),
            s.wf(),
            s@ == own_fold(design.doc, ports@, i as nat, s0),
            forall|k: u32| #[trigger]
                keys@.contains(k) <==> own_key(design.doc, ports@, i as nat, k),
        decreases ports@.len() - i,
    {
        let p: NodeId = ports[i];
        if let Some(b) = make_boundary_pin(design, p) {
            s.nodes.push(b);
        }
        let key: NodeId = key_of(design, p);
        let ghost before = keys@;
        keys.insert(key);
        proof {
            assert forall|k: u32| #[trigger] keys@.contains(k) <==> own_key(
                design.doc,
                ports@,
                (i + 1) as nat,
                k,
            ) by {
                assert(before.contains(k) <==> own_key(design.doc, ports@, i as nat, k));
                assert(key_at(design.doc, ports@[i as int]) == key);
            }
        }
        let dir: Option<Dir> = match design.node(p) {
            Some(n) => n.dir,
            None => None,
        };
        fold_pin(s, dir, true, key, p);
        i += 1;
    }
    keys
}

fn make_frame_port(mp: NodeId, mn: &Node) -> (r: SchNode)
    ensures
        r@ == frame_port(mp, *mn),
{
    let fid: NodeId = MODPORT_FRAME_BASE.wrapping_add(mp);
    let side: Side = if mostly_drives(mn) {
        Side::East
    } else {
        Side::West
    };
    let mut p: SchPort = SchPort::bare(fid, mn.name.clone(), side, mn.path.clone());
    p.bundle = true;
    let mut ports: Vec<SchPort> = Vec::new();
    ports.push(p);
    let r: SchNode = SchNode::bare(
        fid,
        NodeKind::Port,
        mn.name.clone(),
        mn.path.clone(),
        ports,
    );
    assert(r@.ports =~= frame_port(mp, *mn).ports);
    r
}

fn fan_out(
    design: &Design,
    keys: &HashSet<NodeId>,
    scope: &str,
    fid: NodeId,
    mine: &[(u32, u32)],
    w: &mut Wires,
    Ghost(ports): Ghost<Seq<u32>>,
)
    requires
        design.wf(),
        old(w).wf(),
        forall|k: u32| #[trigger] keys@.contains(k) <==> own_key(design.doc, ports, ports.len(), k),
    ensures
        final(w).wf(),
        final(w)@ == frame_wires(design.doc, ports, scope@, fid, mine@, mine@.len(), old(w)@),
{
    let ghost w0 = w@;
    let mut i: usize = 0;
    while i < mine.len()
        invariant
            i <= mine@.len(),
            design.wf(),
            w.wf(),
            forall|k: u32| #[trigger]
                keys@.contains(k) <==> own_key(design.doc, ports, ports.len(), k),
            w@ == frame_wires(design.doc, ports, scope@, fid, mine@, i as nat, w0),
        decreases mine@.len() - i,
    {
        let pin: NodeId = mine[i].0;
        let sig: NodeId = mine[i].1;
        if !keys.contains(&key_of(design, sig)) {
            let (net, net_path) = match design.node(sig) {
                Some(n) => (
                    Some(relative_to(n.path.as_str(), scope)),
                    Some(n.path.clone()),
                ),
                None => (None, None),
            };
            w.edges.push(SchEdge { id: w.next, source: fid, target: pin, net, net_path });
            w.next = w.next.wrapping_add(1);
        }
        i += 1;
    }
}

/// The interior of a bare interface bundle.
pub fn interface_interior(design: &Design, iface: NodeId, scope: &str) -> (r: SchematicGraph)
    requires
        design.wf(),
    ensures
        r@ == interior(design.doc, iface, scope@),
{
    let views: Vec<NodeId> = children_of_kind(design, iface, NodeKind::Modport);
    let ports: Vec<NodeId> = children_of_kind(design, iface, NodeKind::Port);
    let mut s: Views = Views {
        nodes: Vec::new(),
        pins: PinAlloc::new(),
        view_pins: Groups::new(),
        drivers: Groups::new(),
        loads: Groups::new(),
    };
    fold_views(design, &views, scope, &mut s);
    let keys: HashSet<NodeId> = fold_own(design, &ports, &mut s);
    let mut w: Wires = Wires::new(0);
    join_signals(design, scope, &s.drivers, &s.loads, &mut w);
    let ghost w0 = w@;
    let ghost nodes0 = node_views(s.nodes@);
    let mut i: usize = 0;
    let ghost vp = s.view_pins@;
    while i < views.len()
        invariant
            i <= views@.len(),
            design.wf(),
            s.wf(),
            w.wf(),
            s.view_pins@ == vp,
            forall|k: u32| #[trigger]
                keys@.contains(k) <==> own_key(design.doc, ports@, ports@.len(), k),
            (node_views(s.nodes@), w@) == frame_fold(
                design.doc,
                views@,
                ports@,
                scope@,
                vp,
                i as nat,
                nodes0,
                w0,
            ),
        decreases views@.len() - i,
    {
        let mp: NodeId = views[i];
        if let Some(mn) = design.node(mp) {
            s.nodes.push(make_frame_port(mp, mn));
            fan_out(
                design,
                &keys,
                scope,
                MODPORT_FRAME_BASE.wrapping_add(mp),
                s.view_pins.slice(mp),
                &mut w,
                Ghost(ports@),
            );
        }
        i += 1;
    }
    SchematicGraph { root: owned(scope), nodes: s.nodes, edges: w.edges, truncated: false }
}

} // verus!
