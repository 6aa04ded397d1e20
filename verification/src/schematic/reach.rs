//! What a walk through connectivity reaches: groups of nodes that are one signal, the
//! box around a node, and the pin that an edge lands on.

use crate::model::{
    at_path, edge_at, incident, kind_at, node_at, parent_at, Design, Dir, Document, Edge, NodeId,
    NodeKind,
};
use crate::order::{ascending, lemma_take_contains, members};
use crate::schematic::anchors::{anchored_pin, anchors_of, id_set, ScopeAnchors};
use crate::schematic::hierarchy::{
    climbs, hierarchical, lies_in, rooted, within_box,
};
use crate::schematic::kinds::{
    append_ids, boxes_of, child_boxes, fold_inverter, foldable, folded, gate_at, gate_kind,
    is_foldable_not, is_gate, is_gate_kind, is_logic_box, kind_of, logic_at, nested, not_reader,
    parent_of, reader_of,
};
use crate::schematic::pins::{pin_id, with_pin, PinAlloc, Pins};
use crate::schematic::types::Projection;
use std::collections::{BTreeSet, HashMap, HashSet};
use vstd::prelude::*;

verus! {

broadcast use {
    vstd::std_specs::hash::group_hash_axioms,
    vstd::std_specs::btree::group_btree_axioms,
    vstd::laws_cmp::group_laws_cmp,
};

// --- Direction ----------------------------------------------------------------

/// Whether an edge gives a value out of its `near` end.
pub open spec fn leaves(e: Edge, near: u32) -> bool {
    if e.port == near {
        e.dir == Dir::Out
    } else {
        e.dir != Dir::Out
    }
}

/// Whether an edge is followed from `near` in a direction: fan-out follows what reads
/// the signal, fan-in what drives it.
pub open spec fn followed(e: Edge, near: u32, dir: Dir) -> bool {
    match dir {
        Dir::Out => leaves(e, near),
        Dir::In => !leaves(e, near),
        Dir::Inout => true,
    }
}

pub fn follows(e: &Edge, near: NodeId, dir: Dir) -> (r: bool)
    ensures
        r == followed(*e, near, dir),
{
    let out: bool = if e.port == near {
        e.dir == Dir::Out
    } else {
        e.dir != Dir::Out
    };
    match dir {
        Dir::Out => out,
        Dir::In => !out,
        Dir::Inout => true,
    }
}

/// Whether the far end of an edge drives its `near` end.
pub fn edge_drives(e: &Edge, near: NodeId) -> (r: bool)
    ensures
        r == !leaves(*e, near),
{
    if e.port == near {
        e.dir != Dir::Out
    } else {
        e.dir == Dir::Out
    }
}

/// The end of an edge that is not `near`.
pub open spec fn far_end(e: Edge, near: u32) -> u32 {
    if e.port == near {
        e.endpoint
    } else {
        e.port
    }
}

// --- Signals ------------------------------------------------------------------

/// Whether a node is a signal: a port, net or variable.
pub open spec fn signal_at(d: Document, id: u32) -> bool {
    match kind_at(d, id) {
        Some(k) => signal_kind(k),
        None => false,
    }
}

/// Whether a kind is of signals.
pub open spec fn signal_kind(k: NodeKind) -> bool {
    match k {
        NodeKind::Port | NodeKind::Net | NodeKind::Var => true,
        _ => false,
    }
}

/// Whether a kind is of signals.
pub fn is_signal_kind(k: NodeKind) -> (r: bool)
    ensures
        r == signal_kind(k),
{
    match k {
        NodeKind::Port | NodeKind::Net | NodeKind::Var => true,
        _ => false,
    }
}

/// The signals at the path of a signal.
pub open spec fn siblings(d: Document, path: Seq<char>) -> Set<u32> {
    Set::new(|m: u32| at_path(d, path).contains(m) && signal_at(d, m))
}

/// The nodes that are one signal with `sig`, ascending: a port and its backing net
/// share a path. A node that is no signal stands alone.
pub open spec fn group_at(d: Document, sig: u32) -> Seq<u32> {
    if signal_at(d, sig) && ascending(siblings(d, node_at(d, sig)->0.path@)).len() > 0 {
        ascending(siblings(d, node_at(d, sig)->0.path@))
    } else {
        seq![sig]
    }
}

/// A group is never empty.
pub proof fn lemma_group(d: Document, sig: u32)
    ensures
        group_at(d, sig).len() > 0,
{
}

/// The far ends of the edges of a seed that are followed in a direction.
pub open spec fn neighbours(d: Document, seed: u32, dir: Dir) -> Set<u32> {
    Set::new(
        |x: u32|
            exists|k: int|
                #![trigger incident(d, seed)[k]]
                0 <= k < incident(d, seed).len() && followed(
                    edge_at(d, incident(d, seed)[k]),
                    seed,
                    dir,
                ) && far_end(edge_at(d, incident(d, seed)[k]), seed) == x,
    )
}

/// The nodes that a walk from a seed starts at: a logic node's neighbours in the
/// direction asked for, or all nodes at a signal's path.
pub open spec fn seeds_at(d: Document, seed: u32, dir: Dir) -> Seq<u32> {
    match node_at(d, seed) {
        Some(n) => if logic_at(d, seed) || gate_at(d, seed) {
            ascending(neighbours(d, seed, dir))
        } else if at_path(d, n.path@).len() > 0 {
            ascending(at_path(d, n.path@).to_set())
        } else {
            seq![seed]
        },
        None => Seq::empty(),
    }
}

pub fn is_signal(design: &Design, id: NodeId) -> (r: bool)
    ensures
        r == signal_at(design.doc, id),
{
    match kind_of(design, id) {
        Some(NodeKind::Port) | Some(NodeKind::Net) | Some(NodeKind::Var) => true,
        _ => false,
    }
}

/// The nodes that are one signal with `sig`.
pub fn signal_group(design: &Design, sig: NodeId) -> (r: Vec<NodeId>)
    requires
        design.wf(),
    ensures
        r@ == group_at(design.doc, sig),
{
    let mut alone: Vec<NodeId> = Vec::new();
    alone.push(sig);
    assert(alone@ =~= seq![sig]);
    if !is_signal(design, sig) {
        return alone;
    }
    if let Some(n) = design.node(sig) {
        let at: &[NodeId] = design.nodes_at_path(n.path.as_str());
        let mut set: BTreeSet<u32> = BTreeSet::new();
        let mut i: usize = 0;
        while i < at.len()
            invariant
                i <= at@.len(),
                forall|m: u32| #[trigger]
                    set@.contains(m) <==> (at@.take(i as int).contains(m) && signal_at(
                        design.doc,
                        m,
                    )),
            decreases at@.len() - i,
        {
            proof {
                lemma_take_contains(at@, i as int);
            }
            if is_signal(design, at[i]) {
                set.insert(at[i]);
            }
            i += 1;
        }
        proof {
            assert(at@.take(i as int) =~= at@);
            assert(set@ =~= siblings(design.doc, n.path@));
        }
        let r: Vec<NodeId> = members(&set);
        if r.len() > 0 {
            return r;
        }
    }
    alone
}

/// The nodes that a walk from a seed starts at.
pub fn seed_signals(design: &Design, seed: NodeId, dir: Dir) -> (r: Vec<NodeId>)
    requires
        design.wf(),
    ensures
        r@ == seeds_at(design.doc, seed, dir),
{
    let path: &str = match design.node(seed) {
        Some(n) => n.path.as_str(),
        None => {
            return Vec::new();
        },
    };
    let mut set: BTreeSet<u32> = BTreeSet::new();
    if is_logic_box(design, seed) || is_gate(design, seed) {
        let at: &[u32] = design.edge_indices_of(seed);
        let mut i: usize = 0;
        while i < at.len()
            invariant
                i <= at@.len(),
                at@ == incident(design.doc, seed),
                forall|k: int| 0 <= k < at@.len() ==> #[trigger] at@[k] < design.doc.edges@.len(),
                forall|x: u32| #[trigger]
                    set@.contains(x) <==> exists|k: int|
                        #![trigger incident(design.doc, seed)[k]]
                        0 <= k < i && followed(
                            edge_at(design.doc, incident(design.doc, seed)[k]),
                            seed,
                            dir,
                        ) && far_end(edge_at(design.doc, incident(design.doc, seed)[k]), seed) == x,
            decreases at@.len() - i,
        {
            let e: &Edge = &design.doc.edges[at[i] as usize];
            assert(*e == edge_at(design.doc, incident(design.doc, seed)[i as int]));
            let ghost before = set@;
            if follows(e, seed, dir) {
                let x: NodeId = if e.port == seed {
                    e.endpoint
                } else {
                    e.port
                };
                set.insert(x);
            }
            proof {
                assert forall|x: u32| #[trigger]
                    set@.contains(x) <==> exists|k: int|
                        #![trigger incident(design.doc, seed)[k]]
                        0 <= k < i + 1 && followed(
                            edge_at(design.doc, incident(design.doc, seed)[k]),
                            seed,
                            dir,
                        ) && far_end(edge_at(design.doc, incident(design.doc, seed)[k]), seed)
                            == x by {
                    assert(before.contains(x) <==> exists|k: int|
                        #![trigger incident(design.doc, seed)[k]]
                        0 <= k < i && followed(
                            edge_at(design.doc, incident(design.doc, seed)[k]),
                            seed,
                            dir,
                        ) && far_end(edge_at(design.doc, incident(design.doc, seed)[k]), seed)
                            == x);
                    let last = edge_at(design.doc, incident(design.doc, seed)[i as int]);
                    if set@.contains(x) && !before.contains(x) {
                        assert(followed(last, seed, dir) && far_end(last, seed) == x);
                    }
                }
            }
            i += 1;
        }
        assert(set@ =~= neighbours(design.doc, seed, dir));
        return members(&set);
    }
    let at: &[NodeId] = design.nodes_at_path(path);
    if at.len() == 0 {
        let mut alone: Vec<NodeId> = Vec::new();
        alone.push(seed);
        assert(alone@ =~= seq![seed]);
        return alone;
    }
    let mut i: usize = 0;
    assert(set@ =~= at@.take(0).to_set());
    while i < at.len()
        invariant
            i <= at@.len(),
            set@ == at@.take(i as int).to_set(),
        decreases at@.len() - i,
    {
        set.insert(at[i]);
        proof {
            lemma_take_contains(at@, i as int);
            assert(set@ =~= at@.take(i + 1).to_set());
        }
        i += 1;
    }
    assert(at@.take(i as int) =~= at@);
    members(&set)
}

// --- Boxes --------------------------------------------------------------------

/// Whether a kind dissolves into the scope around it at gate level.
pub open spec fn wrapper_kind(k: Option<NodeKind>) -> bool {
    match k {
        Some(NodeKind::Comb)
        | Some(NodeKind::Latch)
        | Some(NodeKind::Assign)
        | Some(NodeKind::GenBlock) => true,
        _ => false,
    }
}

/// The nearest of a node and its ancestors that does not dissolve.
pub open spec fn past_wrappers(d: Document, id: u32, n: nat) -> Option<u32>
    decreases n,
{
    if wrapper_kind(kind_at(d, id)) {
        match parent_at(d, id) {
            Some(p) => if n > 0 {
                past_wrappers(d, p, (n - 1) as nat)
            } else {
                None
            },
            None => None,
        }
    } else {
        Some(id)
    }
}

/// The nearest of a node and its ancestors that is a box of its parent, and that
/// parent.
pub open spec fn box_up(d: Document, id: u32, projection: Projection, n: nat) -> Option<(u32, u32)>
    decreases n,
{
    match parent_at(d, id) {
        Some(p) => if boxes_of(d, p, projection).contains(id) {
            Some((id, p))
        } else if n > 0 {
            box_up(d, p, projection, (n - 1) as nat)
        } else {
            None
        },
        None => None,
    }
}

/// The scope that a primitive is drawn in as a box, if it is.
pub open spec fn gate_scope(d: Document, bx: u32, projection: Projection) -> Option<u32> {
    match parent_at(d, bx) {
        Some(p) => match past_wrappers(d, p, d.nodes@.len()) {
            Some(s) => if boxes_of(d, s, projection).contains(bx) {
                Some(s)
            } else {
                None
            },
            None => None,
        },
        None => None,
    }
}

/// The box that a node belongs to and the scope of that box. At gate level a
/// primitive is its own box where its block dissolves, and a folded inverter belongs
/// to its reader; any other node belongs to the nearest box around it.
pub open spec fn box_around(d: Document, node: u32, projection: Projection) -> Option<(u32, u32)> {
    if projection == Projection::GateLevel && gate_at(d, node) {
        let bx = if foldable(d, node) {
            reader_of(d, node)
        } else {
            Some(node)
        };
        match bx {
            Some(b) => match gate_scope(d, b, projection) {
                Some(s) => Some((b, s)),
                None => box_up(d, node, projection, d.nodes@.len()),
            },
            None => None,
        }
    } else {
        box_up(d, node, projection, d.nodes@.len())
    }
}

/// Box membership and anchoring of scopes, each built on first use.
pub struct ScopeCache {
    projection: Projection,
    boxes: HashMap<NodeId, HashSet<NodeId>>,
    anchors: HashMap<NodeId, ScopeAnchors>,
}

impl ScopeCache {
    /// Every entry says what the document says.
    pub closed spec fn wf(&self, d: Document, projection: Projection) -> bool {
        &&& self.projection == projection
        &&& forall|s: u32| #[trigger]
            self.boxes@.contains_key(s) ==> self.boxes@[s]@ == boxes_of(d, s, projection).to_set()
        &&& forall|s: u32| #[trigger]
            self.anchors@.contains_key(s) ==> self.anchors@[s].wf() && self.anchors@[s]@
                == anchors_of(d, s, projection)
    }

    /// Nothing built yet.
    pub fn new(projection: Projection) -> (r: ScopeCache)
        ensures
            forall|d: Document| r.wf(d, projection),
    {
        ScopeCache { projection, boxes: HashMap::new(), anchors: HashMap::new() }
    }

    /// Whether `id` is one of the boxes of `scope`.
    pub fn has_box(&mut self, design: &Design, scope: NodeId, id: NodeId) -> (r: bool)
        requires
            design.wf(),
            nested(design.doc),
            exists|p: Projection| old(self).wf(design.doc, p),
        ensures
            forall|p: Projection|
                old(self).wf(design.doc, p) ==> final(self).wf(design.doc, p) && r == boxes_of(
                    design.doc,
                    scope,
                    p,
                ).contains(id),
    {
        let known: bool = self.boxes.contains_key(&scope);
        if !known {
            let b: Vec<NodeId> = child_boxes(design, scope, self.projection);
            self.boxes.insert(scope, id_set(&b));
        }
        match self.boxes.get(&scope) {
            Some(set) => set.contains(&id),
            None => false,
        }
    }

    fn prepare(&mut self, design: &Design, scope: NodeId)
        requires
            design.wf(),
            nested(design.doc),
            exists|p: Projection| old(self).wf(design.doc, p),
        ensures
            forall|p: Projection|
                old(self).wf(design.doc, p) ==> final(self).wf(design.doc, p),
            final(self).anchors@.contains_key(scope),
    {
        let known: bool = self.anchors.contains_key(&scope);
        if !known {
            let a: ScopeAnchors = ScopeAnchors::for_scope(design, scope, self.projection);
            self.anchors.insert(scope, a);
        }
    }
}

fn box_over(
    design: &Design,
    node: NodeId,
    cache: &mut ScopeCache,
    Ghost(projection): Ghost<Projection>,
) -> (r: Option<(NodeId, NodeId)>)
    requires
        design.wf(),
        hierarchical(design.doc),
        old(cache).wf(design.doc, projection),
    ensures
        final(cache).wf(design.doc, projection),
        r == box_up(design.doc, node, projection, design.doc.nodes@.len()),
{
    let mut cur: NodeId = node;
    let ghost mut fuel: nat = design.doc.nodes@.len();
    assert(climbs(design.doc, node, fuel));
    loop
        invariant
            design.wf(),
            nested(design.doc),
            cache.wf(design.doc, projection),
            climbs(design.doc, cur, fuel),
            box_up(design.doc, node, projection, design.doc.nodes@.len()) == box_up(
                design.doc,
                cur,
                projection,
                fuel,
            ),
        decreases fuel,
    {
        match parent_of(design, cur) {
            Some(p) => {
                if cache.has_box(design, p, cur) {
                    return Some((cur, p));
                }
                cur = p;
                proof {
                    fuel = (fuel - 1) as nat;
                }
            },
            None => {
                return None;
            },
        }
    }
}

fn skip_wrappers(design: &Design, id: NodeId) -> (r: Option<NodeId>)
    requires
        rooted(design.doc),
    ensures
        r == past_wrappers(design.doc, id, design.doc.nodes@.len()),
{
    let mut cur: NodeId = id;
    let ghost mut fuel: nat = design.doc.nodes@.len();
    assert(climbs(design.doc, id, fuel));
    loop
        invariant
            climbs(design.doc, cur, fuel),
            past_wrappers(design.doc, id, design.doc.nodes@.len()) == past_wrappers(
                design.doc,
                cur,
                fuel,
            ),
        decreases fuel,
    {
        let wraps: bool = match kind_of(design, cur) {
            Some(NodeKind::Comb)
            | Some(NodeKind::Latch)
            | Some(NodeKind::Assign)
            | Some(NodeKind::GenBlock) => true,
            _ => false,
        };
        if !wraps {
            return Some(cur);
        }
        match parent_of(design, cur) {
            Some(p) => {
                cur = p;
                proof {
                    fuel = (fuel - 1) as nat;
                }
            },
            None => {
                return None;
            },
        }
    }
}

/// The box that a node belongs to and the scope of that box.
pub fn cone_box_of(
    design: &Design,
    node: NodeId,
    projection: Projection,
    cache: &mut ScopeCache,
) -> (r: Option<(NodeId, NodeId)>)
    requires
        design.wf(),
        hierarchical(design.doc),
        old(cache).wf(design.doc, projection),
    ensures
        final(cache).wf(design.doc, projection),
        r == box_around(design.doc, node, projection),
{
    if projection == Projection::GateLevel && is_gate(design, node) {
        let bx: NodeId = if is_foldable_not(design, node) {
            match not_reader(design, node) {
                Some(b) => b,
                None => {
                    return None;
                },
            }
        } else {
            node
        };
        if let Some(p) = parent_of(design, bx) {
            if let Some(s) = skip_wrappers(design, p) {
                if cache.has_box(design, s, bx) {
                    return Some((bx, s));
                }
            }
        }
    }
    box_over(design, node, cache, Ghost(projection))
}

// --- Pins ---------------------------------------------------------------------

/// The first of `cands`, from position `from`, that lies in `bx` and anchors on one of
/// its pins; the pin, or `bx`.
pub open spec fn pin_among(
    d: Document,
    scope: u32,
    projection: Projection,
    bx: u32,
    cands: Seq<u32>,
    from: int,
) -> u32
    decreases cands.len() - from,
{
    if from < 0 || from >= cands.len() {
        bx
    } else {
        let c = cands[from];
        let pin = anchored_pin(d, anchors_of(d, scope, projection), c, bx);
        if lies_in(d, c, bx, d.nodes@.len()) && pin != bx {
            pin
        } else {
            pin_among(d, scope, projection, bx, cands, from + 1)
        }
    }
}

/// The nodes that may name the pin of an edge on an instance: the node inside it, the
/// ends of the edge, and what shares the node's path.
pub open spec fn pin_candidates(d: Document, inner: u32, e: Edge) -> Seq<u32> {
    seq![inner, e.port, e.endpoint] + match node_at(d, inner) {
        Some(n) => at_path(d, n.path@),
        None => Seq::empty(),
    }
}

/// The pin of box `bx` that an edge lands on, keyed as the box keys its pins.
pub open spec fn pin_for(
    d: Document,
    scope: u32,
    projection: Projection,
    bx: u32,
    inner: u32,
    e: Edge,
    p: Pins,
) -> (u32, Pins) {
    match kind_at(d, bx) {
        Some(NodeKind::Instance) | Some(NodeKind::Interface) => (
            pin_among(d, scope, projection, bx, pin_candidates(d, inner, e), 0),
            p,
        ),
        k => {
            let sig = if k is Some && gate_kind(k->0) {
                if e.port == bx && e.dir == Dir::Out {
                    bx
                } else {
                    folded(d, e.endpoint).0
                }
            } else {
                e.endpoint
            };
            (pin_id(p, bx, sig), with_pin(p, bx, sig))
        },
    }
}

fn instance_pin(
    design: &Design,
    cache: &mut ScopeCache,
    scope: NodeId,
    bx: NodeId,
    inner: NodeId,
    e: &Edge,
    Ghost(projection): Ghost<Projection>,
) -> (r: NodeId)
    requires
        design.wf(),
        hierarchical(design.doc),
        old(cache).wf(design.doc, projection),
    ensures
        final(cache).wf(design.doc, projection),
        r == pin_among(
            design.doc,
            scope,
            projection,
            bx,
            pin_candidates(design.doc, inner, *e),
            0,
        ),
{
    let mut cands: Vec<NodeId> = Vec::new();
    cands.push(inner);
    cands.push(e.port);
    cands.push(e.endpoint);
    assert(cands@ =~= seq![inner, e.port, e.endpoint]);
    if let Some(n) = design.node(inner) {
        append_ids(&mut cands, design.nodes_at_path(n.path.as_str()));
    }
    assert(cands@ =~= pin_candidates(design.doc, inner, *e));
    cache.prepare(design, scope);
    let mut i: usize = 0;
    while i < cands.len()
        invariant
            i <= cands@.len(),
            rooted(design.doc),
            cands@ == pin_candidates(design.doc, inner, *e),
            cache.wf(design.doc, projection),
            cache.anchors@.contains_key(scope),
            pin_among(design.doc, scope, projection, bx, cands@, 0) == pin_among(
                design.doc,
                scope,
                projection,
                bx,
                cands@,
                i as int,
            ),
        decreases cands@.len() - i,
    {
        if within_box(design, cands[i], bx) {
            if let Some(a) = cache.anchors.get(&scope) {
                let pin: NodeId = a.pin_in_box(design, cands[i], bx);
                if pin != bx {
                    return pin;
                }
            }
        }
        i += 1;
    }
    bx
}

/// The pin of box `bx` that an edge lands on.
pub fn cone_pin_for(
    design: &Design,
    cache: &mut ScopeCache,
    scope: NodeId,
    bx: NodeId,
    inner: NodeId,
    e: &Edge,
    pins: &mut PinAlloc,
    Ghost(projection): Ghost<Projection>,
) -> (r: NodeId)
    requires
        design.wf(),
        hierarchical(design.doc),
        old(cache).wf(design.doc, projection),
        old(pins).wf(),
    ensures
        final(cache).wf(design.doc, projection),
        final(pins).wf(),
        (r, final(pins)@) == pin_for(design.doc, scope, projection, bx, inner, *e, old(pins)@),
{
    match kind_of(design, bx) {
        Some(NodeKind::Instance) | Some(NodeKind::Interface) => instance_pin(
            design,
            cache,
            scope,
            bx,
            inner,
            e,
            Ghost(projection),
        ),
        k => {
            let gate: bool = match k {
                Some(x) => is_gate_kind(x),
                None => false,
            };
            let sig: NodeId = if gate {
                if e.port == bx && e.dir == Dir::Out {
                    bx
                } else {
                    fold_inverter(design, e.endpoint).0
                }
            } else {
                e.endpoint
            };
            pins.pin(bx, sig)
        },
    }
}

} // verus!
