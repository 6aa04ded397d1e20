//! Which box a node of a scope belongs to, and which pin an edge end lands on.

use crate::groups::{under, Groups};
use crate::model::{
    children_at, edge_at, incident, node_at, parent_at, path_at, Design, Document, Edge, NodeId,
    NodeKind,
};
use crate::order::map_keys;
use crate::schematic::boxes::{raw_access, raw_side};
use crate::schematic::hierarchy::{box_above, box_of, rooted};
use crate::schematic::interface::{children_of_kind, kids_of};
use crate::schematic::kinds::{boxes_of, child_boxes, has_kind, is_kind, nested, parent_of};
use crate::schematic::pins::{offset_id, RAW_PORT_BASE};
use crate::schematic::types::Projection;
use crate::text::{opt_chars, same};
use std::collections::{BTreeMap, HashSet};
use vstd::prelude::*;

verus! {

broadcast use {
    vstd::std_specs::hash::group_hash_axioms,
    vstd::std_specs::btree::group_btree_axioms,
    vstd::laws_cmp::group_laws_cmp,
};

/// The anchoring of a scope.
#[verifier::ext_equal]
pub struct AnchorsV {
    /// The scope's boxes, in model order.
    pub boxes: Seq<u32>,
    /// The scope's own ports.
    pub own_ports: Seq<u32>,
    /// Each own port, and each child at the same path, to the frame pin it draws on.
    pub boundary: Map<u32, u32>,
    /// Bundle members to the pins that view them: `(member, (bundle box, pin))`.
    pub iface_pin: Seq<(u32, (u32, u32))>,
    /// Bare bundles and their non-port children, to the bundle box.
    pub owner: Map<u32, u32>,
    /// The bundle boxes that have a raw access port.
    pub raw: Set<u32>,
}

/// The boundary map with the first `n` of `cs` at the path of port `p` added to it.
pub open spec fn sibling_fold(d: Document, cs: Seq<u32>, p: u32, n: nat, m: Map<u32, u32>) -> Map<
    u32,
    u32,
>
    decreases n,
{
    if n == 0 {
        m
    } else {
        let r = sibling_fold(d, cs, p, (n - 1) as nat, m);
        if cs[n - 1] != p && path_at(d, cs[n - 1]) == path_at(d, p) {
            r.insert(cs[n - 1], p)
        } else {
            r
        }
    }
}

/// The boundary map of the first `n` own ports.
pub open spec fn boundary_fold(d: Document, cs: Seq<u32>, ports: Seq<u32>, n: nat) -> Map<u32, u32>
    decreases n,
{
    if n == 0 {
        Map::empty()
    } else {
        let p = ports[n - 1];
        sibling_fold(
            d,
            cs,
            p,
            cs.len(),
            boundary_fold(d, cs, ports, (n - 1) as nat).insert(p, p),
        )
    }
}

/// The member entries of the first `n` edges of pin `pid` on bundle box `b`.
pub open spec fn pin_edges(
    d: Document,
    b: u32,
    pid: u32,
    n: nat,
    log: Seq<(u32, (u32, u32))>,
) -> Seq<(u32, (u32, u32))>
    decreases n,
{
    if n == 0 {
        log
    } else {
        let r = pin_edges(d, b, pid, (n - 1) as nat, log);
        let e = edge_at(d, incident(d, pid)[n - 1]);
        if e.port == pid {
            r.push((e.endpoint, (b, pid)))
        } else {
            r
        }
    }
}

/// The member entries of the first `n` pins of bundle box `b`.
pub open spec fn bundle_members(
    d: Document,
    b: u32,
    pids: Seq<u32>,
    n: nat,
    log: Seq<(u32, (u32, u32))>,
) -> Seq<(u32, (u32, u32))>
    decreases n,
{
    if n == 0 {
        log
    } else {
        let pid = pids[n - 1];
        pin_edges(
            d,
            b,
            pid,
            incident(d, pid).len(),
            bundle_members(d, b, pids, (n - 1) as nat, log),
        )
    }
}

/// Whether a node is a modport-qualified interface port.
pub open spec fn qualified(d: Document, id: u32) -> bool {
    match node_at(d, id) {
        Some(n) => n.kind == NodeKind::Interface && n.modport is Some,
        None => false,
    }
}

/// Whether a node is a bare interface bundle.
pub open spec fn unqualified(d: Document, id: u32) -> bool {
    match node_at(d, id) {
        Some(n) => n.kind == NodeKind::Interface && n.modport is None,
        None => false,
    }
}

/// The member entries of the first `n` boxes.
pub open spec fn member_entries(d: Document, boxes: Seq<u32>, n: nat) -> Seq<(u32, (u32, u32))>
    decreases n,
{
    if n == 0 {
        Seq::empty()
    } else {
        let r = member_entries(d, boxes, (n - 1) as nat);
        let b = boxes[n - 1];
        if qualified(d, b) {
            let pids = kids_of(d, b, NodeKind::Port);
            bundle_members(d, b, pids, pids.len(), r)
        } else {
            r
        }
    }
}

/// The owner map with the first `n` non-port children of bundle `b` added.
pub open spec fn owned_fold(d: Document, b: u32, n: nat, m: Map<u32, u32>) -> Map<u32, u32>
    decreases n,
{
    if n == 0 {
        m
    } else {
        let r = owned_fold(d, b, (n - 1) as nat, m);
        let c = children_at(d, b)[n - 1];
        if has_kind(d, c, NodeKind::Port) {
            r
        } else {
            r.insert(c, b)
        }
    }
}

/// The owner map of the first `n` boxes.
pub open spec fn owner_fold(d: Document, boxes: Seq<u32>, n: nat) -> Map<u32, u32>
    decreases n,
{
    if n == 0 {
        Map::empty()
    } else {
        let r = owner_fold(d, boxes, (n - 1) as nat);
        let b = boxes[n - 1];
        if unqualified(d, b) {
            owned_fold(d, b, children_at(d, b).len(), r.insert(b, b))
        } else {
            r
        }
    }
}

/// The boxes among the first `n` with a raw access port.
pub open spec fn raw_fold(d: Document, boxes: Seq<u32>, n: nat) -> Set<u32>
    decreases n,
{
    if n == 0 {
        Set::empty()
    } else {
        let r = raw_fold(d, boxes, (n - 1) as nat);
        let b = boxes[n - 1];
        if unqualified(d, b) && raw_side(d, b) is Some {
            r.insert(b)
        } else {
            r
        }
    }
}

/// The anchoring of a scope.
pub open spec fn anchors_of(d: Document, scope: u32, projection: Projection) -> AnchorsV {
    let boxes = boxes_of(d, scope, projection);
    let ports = kids_of(d, scope, NodeKind::Port);
    AnchorsV {
        boxes,
        own_ports: ports,
        boundary: boundary_fold(d, children_at(d, scope), ports, ports.len()),
        iface_pin: member_entries(d, boxes, boxes.len()),
        owner: owner_fold(d, boxes, boxes.len()),
        raw: raw_fold(d, boxes, boxes.len()),
    }
}

/// The anchor of bundle `b`: its raw access port, or the box where it has none.
pub open spec fn raw_anchor(a: AnchorsV, b: u32) -> u32 {
    if a.raw.contains(b) {
        offset_id(RAW_PORT_BASE, b as nat)
    } else {
        b
    }
}

/// Whether a node is a modport-qualified interface port directly under `b`.
pub open spec fn qualified_under(d: Document, id: u32, b: u32) -> bool {
    qualified(d, id) && parent_at(d, id) == Some(b)
}

/// The pin that a node anchors on within box `b`: its own pin where it is a port of
/// the box; the bundle's raw port inside a bare bundle; the bundle pin for an interface
/// port of the box and for that port's members; otherwise the box.
pub open spec fn anchored_pin(d: Document, a: AnchorsV, node: u32, b: u32) -> u32 {
    if has_kind(d, node, NodeKind::Port) && parent_at(d, node) == Some(b) {
        node
    } else if a.owner.contains_key(node) {
        raw_anchor(a, a.owner[node])
    } else if qualified_under(d, node, b) {
        node
    } else if has_kind(d, node, NodeKind::Port) && parent_at(d, node) is Some && qualified_under(
        d,
        parent_at(d, node)->0,
        b,
    ) {
        parent_at(d, node)->0
    } else {
        b
    }
}

/// The box and pin that an edge end resolves to: its frame pin; the one bundle pin
/// that views it; or a pin of the box around it.
pub open spec fn resolved(d: Document, a: AnchorsV, node: u32) -> Option<(u32, u32)> {
    if a.boundary.contains_key(node) {
        Some((a.boundary[node], a.boundary[node]))
    } else if under(a.iface_pin, node).len() == 1 {
        Some(under(a.iface_pin, node)[0])
    } else {
        match box_above(d, node, a.boxes.to_set(), d.nodes@.len()) {
            Some(b) => Some((b, anchored_pin(d, a, node, b))),
            None => None,
        }
    }
}

/// The first child of `b`, from position `from`, that is the modport named `view`.
pub open spec fn modport_from(d: Document, b: u32, view: Seq<char>, from: int) -> Option<u32>
    decreases children_at(d, b).len() - from,
{
    if from < 0 || from >= children_at(d, b).len() {
        None
    } else {
        let c = children_at(d, b)[from];
        match node_at(d, c) {
            Some(m) => if m.kind == NodeKind::Modport && m.name@ == view {
                Some(c)
            } else {
                modport_from(d, b, view, from + 1)
            },
            None => modport_from(d, b, view, from + 1),
        }
    }
}

/// The view port of bundle `b` that a connection from a qualified bundle pin lands on.
pub open spec fn view_anchor(d: Document, a: AnchorsV, b: u32, far_pin: u32) -> Option<u32> {
    if !(a.owner.contains_key(b) && a.owner[b] == b) {
        None
    } else if !qualified(d, far_pin) {
        None
    } else {
        modport_from(d, b, opt_chars(node_at(d, far_pin)->0.modport)->0, 0)
    }
}

/// The anchoring of a scope, built once.
pub struct ScopeAnchors {
    pub boxes: Vec<NodeId>,
    pub box_set: HashSet<NodeId>,
    pub own_ports: Vec<NodeId>,
    pub boundary_of: BTreeMap<NodeId, NodeId>,
    pub iface_pin: Groups<(u32, u32)>,
    pub iface_owner: BTreeMap<NodeId, NodeId>,
    pub raw_port: HashSet<NodeId>,
}

impl View for ScopeAnchors {
    type V = AnchorsV;

    open spec fn view(&self) -> AnchorsV {
        AnchorsV {
            boxes: self.boxes@,
            own_ports: self.own_ports@,
            boundary: self.boundary_of@,
            iface_pin: self.iface_pin@,
            owner: self.iface_owner@,
            raw: self.raw_port@,
        }
    }
}

/// The ids as a set.
pub fn id_set(ids: &Vec<NodeId>) -> (r: HashSet<NodeId>)
    ensures
        r@ == ids@.to_set(),
{
    let mut out: HashSet<NodeId> = HashSet::new();
    let mut i: usize = 0;
    assert(out@ =~= ids@.take(0).to_set());
    while i < ids.len()
        invariant
            i <= ids@.len(),
            out@ == ids@.take(i as int).to_set(),
        decreases ids@.len() - i,
    {
        out.insert(ids[i]);
        proof {
            crate::order::lemma_take_contains(ids@, i as int);
            assert(out@ =~= ids@.take(i + 1).to_set());
        }
        i += 1;
    }
    assert(ids@.take(i as int) =~= ids@);
    out
}

fn same_path(design: &Design, x: NodeId, y: NodeId) -> (r: bool)
    ensures
        r == (path_at(design.doc, x) == path_at(design.doc, y)),
{
    match design.node(x) {
        Some(a) => match design.node(y) {
            Some(b) => same(a.path.as_str(), b.path.as_str()),
            None => false,
        },
        None => design.node(y).is_none(),
    }
}

fn boundary_map(design: &Design, scope: NodeId, ports: &Vec<NodeId>) -> (r: BTreeMap<
    NodeId,
    NodeId,
>)
    requires
        ports@ == kids_of(design.doc, scope, NodeKind::Port),
    ensures
        r@ == boundary_fold(design.doc, children_at(design.doc, scope), ports@, ports@.len()),
{
    let mut m: BTreeMap<NodeId, NodeId> = BTreeMap::new();
    if let Some(n) = design.node(scope) {
        let mut i: usize = 0;
        while i < ports.len()
            invariant
                i <= ports@.len(),
                n.children@ == children_at(design.doc, scope),
                m@ == boundary_fold(design.doc, n.children@, ports@, i as nat),
            decreases ports@.len() - i,
        {
            let p: NodeId = ports[i];
            m.insert(p, p);
            let ghost m0 = m@;
            let mut k: usize = 0;
            while k < n.children.len()
                invariant
                    k <= n.children@.len(),
                    m@ == sibling_fold(design.doc, n.children@, p, k as nat, m0),
                decreases n.children@.len() - k,
            {
                let sib: NodeId = n.children[k];
                if sib != p && same_path(design, sib, p) {
                    m.insert(sib, p);
                }
                k += 1;
            }
            i += 1;
        }
    } else {
        assert(ports@.len() == 0);
    }
    m
}

fn member_map(design: &Design, boxes: &Vec<NodeId>) -> (r: Groups<(u32, u32)>)
    requires
        design.wf(),
    ensures
        r.wf(),
        r@ == member_entries(design.doc, boxes@, boxes@.len()),
{
    let mut log: Groups<(u32, u32)> = Groups::new();
    let mut i: usize = 0;
    while i < boxes.len()
        invariant
            i <= boxes@.len(),
            design.wf(),
            log.wf(),
            log@ == member_entries(design.doc, boxes@, i as nat),
        decreases boxes@.len() - i,
    {
        let b: NodeId = boxes[i];
        if is_qualified(design, b) {
            let pids: Vec<NodeId> = children_of_kind(design, b, NodeKind::Port);
            let ghost l0 = log@;
            let mut k: usize = 0;
            while k < pids.len()
                invariant
                    k <= pids@.len(),
                    design.wf(),
                    log.wf(),
                    log@ == bundle_members(design.doc, b, pids@, k as nat, l0),
                decreases pids@.len() - k,
            {
                let pid: NodeId = pids[k];
                let at: &[u32] = design.edge_indices_of(pid);
                let ghost l1 = log@;
                let mut m: usize = 0;
                while m < at.len()
                    invariant
                        m <= at@.len(),
                        at@ == incident(design.doc, pid),
                        forall|j: int|
                            0 <= j < at@.len() ==> #[trigger] at@[j] < design.doc.edges@.len(),
                        log.wf(),
                        log@ == pin_edges(design.doc, b, pid, m as nat, l1),
                    decreases at@.len() - m,
                {
                    let e: &Edge = &design.doc.edges[at[m] as usize];
                    if e.port == pid {
                        log.push(e.endpoint, (b, pid));
                    }
                    m += 1;
                }
                k += 1;
            }
        }
        i += 1;
    }
    log
}

fn is_qualified(design: &Design, id: NodeId) -> (r: bool)
    ensures
        r == qualified(design.doc, id),
{
    match design.node(id) {
        Some(n) => n.kind == NodeKind::Interface && n.modport.is_some(),
        None => false,
    }
}

fn owner_map(design: &Design, boxes: &Vec<NodeId>) -> (r: (BTreeMap<NodeId, NodeId>, HashSet<
    NodeId,
>))
    requires
        design.wf(),
    ensures
        r.0@ == owner_fold(design.doc, boxes@, boxes@.len()),
        r.1@ == raw_fold(design.doc, boxes@, boxes@.len()),
{
    let mut m: BTreeMap<NodeId, NodeId> = BTreeMap::new();
    let mut raw: HashSet<NodeId> = HashSet::new();
    let mut i: usize = 0;
    while i < boxes.len()
        invariant
            i <= boxes@.len(),
            design.wf(),
            m@ == owner_fold(design.doc, boxes@, i as nat),
            raw@ == raw_fold(design.doc, boxes@, i as nat),
        decreases boxes@.len() - i,
    {
        let b: NodeId = boxes[i];
        if let Some(n) = design.node(b) {
            if n.kind == NodeKind::Interface && n.modport.is_none() {
                m.insert(b, b);
                let ghost m0 = m@;
                let mut k: usize = 0;
                while k < n.children.len()
                    invariant
                        k <= n.children@.len(),
                        n.children@ == children_at(design.doc, b),
                        m@ == owned_fold(design.doc, b, k as nat, m0),
                    decreases n.children@.len() - k,
                {
                    let c: NodeId = n.children[k];
                    if !is_kind(design, c, NodeKind::Port) {
                        m.insert(c, b);
                    }
                    k += 1;
                }
                if raw_access(design, b).is_some() {
                    raw.insert(b);
                }
            }
        }
        i += 1;
    }
    (m, raw)
}

impl ScopeAnchors {
    pub open spec fn wf(&self) -> bool {
        &&& self.box_set@ == self.boxes@.to_set()
        &&& self.iface_pin.wf()
    }

    /// The anchoring of a scope.
    pub fn for_scope(design: &Design, scope: NodeId, projection: Projection) -> (r: ScopeAnchors)
        requires
            design.wf(),
            nested(design.doc),
        ensures
            r.wf(),
            r@ == anchors_of(design.doc, scope, projection),
    {
        let boxes: Vec<NodeId> = child_boxes(design, scope, projection);
        let box_set: HashSet<NodeId> = id_set(&boxes);
        let own_ports: Vec<NodeId> = children_of_kind(design, scope, NodeKind::Port);
        let boundary_of: BTreeMap<NodeId, NodeId> = boundary_map(design, scope, &own_ports);
        let iface_pin: Groups<(u32, u32)> = member_map(design, &boxes);
        let (iface_owner, raw_port) = owner_map(design, &boxes);
        ScopeAnchors {
            boxes,
            box_set,
            own_ports,
            boundary_of,
            iface_pin,
            iface_owner,
            raw_port,
        }
    }

    /// The frame pin that a node draws on, if it is at the boundary.
    pub fn boundary_pin(&self, node: NodeId) -> (r: Option<NodeId>)
        ensures
            r == if self@.boundary.contains_key(node) {
                Some(self@.boundary[node])
            } else {
                None
            },
    {
        match self.boundary_of.get(&node) {
            Some(p) => Some(*p),
            None => None,
        }
    }

    /// The pin that a node anchors on within a box known to own it.
    pub fn pin_in_box(&self, design: &Design, node: NodeId, b: NodeId) -> (r: NodeId)
        ensures
            r == anchored_pin(design.doc, self@, node, b),
    {
        let parent: Option<NodeId> = parent_of(design, node);
        let is_port: bool = is_kind(design, node, NodeKind::Port);
        let under_box: bool = match parent {
            Some(p) => p == b,
            None => false,
        };
        if is_port && under_box {
            return node;
        }
        if let Some(o) = self.iface_owner.get(&node) {
            if self.raw_port.contains(o) {
                return RAW_PORT_BASE.wrapping_add(*o);
            }
            return *o;
        }
        if is_qualified(design, node) && under_box {
            return node;
        }
        if is_port {
            if let Some(p) = parent {
                if is_qualified(design, p) {
                    if let Some(q) = parent_of(design, p) {
                        if q == b {
                            return p;
                        }
                    }
                }
            }
        }
        b
    }

    /// The box and pin that an edge end resolves to.
    pub fn resolve(&self, design: &Design, node: NodeId) -> (r: Option<(NodeId, NodeId)>)
        requires
            self.wf(),
            rooted(design.doc),
        ensures
            r == resolved(design.doc, self@, node),
    {
        if let Some(bp) = self.boundary_pin(node) {
            return Some((bp, bp));
        }
        let views: &[(u32, u32)] = self.iface_pin.slice(node);
        if views.len() == 1 {
            return Some(views[0]);
        }
        match box_of(design, node, &self.box_set) {
            Some(b) => Some((b, self.pin_in_box(design, node, b))),
            None => None,
        }
    }

    /// The view port of a bare bundle that a qualified bundle pin is wired to.
    pub fn view_port(&self, design: &Design, b: NodeId, far_pin: NodeId) -> (r: Option<NodeId>)
        ensures
            r == view_anchor(design.doc, self@, b, far_pin),
    {
        let bare: bool = match self.iface_owner.get(&b) {
            Some(o) => *o == b,
            None => false,
        };
        if !bare {
            return None;
        }
        let view: &String = match design.node(far_pin) {
            Some(x) => {
                if x.kind != NodeKind::Interface {
                    return None;
                }
                match &x.modport {
                    Some(v) => v,
                    None => {
                        return None;
                    },
                }
            },
            None => {
                return None;
            },
        };
        if let Some(n) = design.node(b) {
            let mut i: usize = 0;
            while i < n.children.len()
                invariant
                    i <= n.children@.len(),
                    n.children@ == children_at(design.doc, b),
                    view_anchor(design.doc, self@, b, far_pin) == modport_from(
                        design.doc,
                        b,
                        view@,
                        0,
                    ),
                    modport_from(design.doc, b, view@, 0) == modport_from(
                        design.doc,
                        b,
                        view@,
                        i as int,
                    ),
                decreases n.children@.len() - i,
            {
                let c: NodeId = n.children[i];
                if let Some(m) = design.node(c) {
                    if m.kind == NodeKind::Modport && same(m.name.as_str(), view.as_str()) {
                        return Some(c);
                    }
                }
                i += 1;
            }
        }
        None
    }

    /// The nodes on the scope's boundary.
    pub fn boundary_ids(&self) -> (r: Vec<NodeId>)
        ensures
            r@ == crate::order::ascending(self@.boundary.dom()),
    {
        map_keys(&self.boundary_of)
    }

    /// The bare bundles and their members.
    pub fn owned_ids(&self) -> (r: Vec<NodeId>)
        ensures
            r@ == crate::order::ascending(self@.owner.dom()),
    {
        map_keys(&self.iface_owner)
    }
}

} // verus!
