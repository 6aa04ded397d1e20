//! The walk of a trace: from a frontier of signals, hop by hop, to the boxes they
//! connect, drawing each box, pin and wire once.

use crate::model::{
    edge_at, incident, kind_at, node_at, touching, Design, Dir, Document, Edge, NodeId, NodeKind,
};
use crate::order::lemma_take_contains;
use crate::schematic::boxes::{
    cone_box_node, drawn, edges_touching, make_signal_stub, opt_node, stub_box,
};
use crate::schematic::hierarchy::hierarchical;
use crate::schematic::kinds::{
    gate_at, has_kind, inline_at, is_drawn_inline, is_gate, is_kind, kind_of,
};
use crate::schematic::pins::{PinAlloc, Pins};
use crate::schematic::reach::{
    box_around, cone_box_of, cone_pin_for, edge_drives, far_end, followed, follows, group_at,
    is_signal, leaves, lemma_group, pin_for, signal_at, signal_group, ScopeCache,
};
use crate::schematic::scope::{has_pin, lists_pin};
use crate::schematic::types::{
    group_views, node_views, port_views, NodeV, PortV, Projection, SchNode, SchPort, Side,
};
use crate::schematic::wires::{join_signal, joined_all, next_id, Anchor, Wires, WiresV};
use crate::text::{clone_opt, owned};
use std::collections::{HashMap, HashSet};
use vstd::prelude::*;
use vstd::string::*;

verus! {

broadcast use {
    group_views,
    vstd::string::group_string_axioms,
    vstd::std_specs::hash::group_hash_axioms,
};

/// What a trace has drawn and visited.
#[verifier::ext_equal]
pub struct WalkV {
    pub pins: Pins,
    pub nodes: Seq<NodeV>,
    /// The boxes drawn.
    pub emitted: Set<u32>,
    /// The signals drawn as one-pin stand-ins.
    pub stubs: Set<u32>,
    /// The pins drawn.
    pub emitted_pins: Set<u32>,
    pub wires: WiresV,
    pub truncated: bool,
    /// Dropped connections, by the pin that reports them.
    pub more: Map<u32, u32>,
    /// The nodes that were on a frontier.
    pub visited: Set<u32>,
    /// The frontier of the next hop.
    pub next: Seq<u32>,
    /// The anchors of the steps' own seeds.
    pub seeds: Set<u32>,
    /// The seeds that are boxes, with their scopes.
    pub box_seeds: Map<u32, u32>,
}

/// The budget and direction of one step.
pub struct StepV {
    pub projection: Projection,
    /// Boxes that the whole trace may draw.
    pub boxes: usize,
    /// The node that the step starts at.
    pub seed: u32,
    pub dir: Dir,
    /// Followed connections kept per signal and hop.
    pub cap: usize,
    pub root: Seq<char>,
}

/// The signal that a hop stands on.
pub struct SignalV {
    /// The nodes that are this signal.
    pub members: Seq<u32>,
    /// The first of them.
    pub rep: u32,
    /// The scope of the box that is this "signal", where the seed is a box.
    pub seed_scope: Option<u32>,
}

/// What the edges of one signal have gathered.
#[verifier::ext_equal]
pub struct GatheredV {
    pub drivers: Seq<Anchor>,
    pub loads: Seq<Anchor>,
    /// The far pins, in order.
    pub pins: Seq<u32>,
    pub kept: nat,
    pub dropped: u32,
}

/// The ids of pins.
pub open spec fn pin_ids(ports: Seq<PortV>) -> Set<u32> {
    Set::new(|x: u32| has_pin(ports, x))
}

/// The walk with a node added to the canvas.
pub open spec fn added(w: WalkV, b: NodeV) -> WalkV {
    WalkV {
        nodes: w.nodes.push(b),
        emitted_pins: w.emitted_pins.union(pin_ids(b.ports)),
        ..w
    }
}

/// The path that labels inside a scope are relative to.
pub open spec fn scope_path(d: Document, scope: u32, root: Seq<char>) -> Seq<char> {
    match node_at(d, scope) {
        Some(n) => n.path@,
        None => root,
    }
}

/// The walk after asking that a node be on the next frontier: it is put there once,
/// and not where it belongs to the signal walked.
pub open spec fn enqueued(g: SignalV, id: u32, w: WalkV) -> WalkV {
    if g.members.contains(id) || w.visited.contains(id) {
        w
    } else {
        WalkV { visited: w.visited.insert(id), next: w.next.push(id), ..w }
    }
}

/// The walk after asking for the first `n` of `ids`.
pub open spec fn enqueued_all(g: SignalV, ids: Seq<u32>, n: nat, w: WalkV) -> WalkV
    decreases n,
{
    if n == 0 {
        w
    } else {
        enqueued(g, ids[n - 1], enqueued_all(g, ids, (n - 1) as nat, w))
    }
}

/// Whether the far end of a box's edge is drawn inside a box, so that no walk goes
/// through it: a tie, a folded inverter, or a parameter on a gate's operand.
pub open spec fn tied_in(d: Document, projection: Projection, be: Edge, sig: u32) -> bool {
    inline_at(d, sig, projection) || (projection == Projection::GateLevel && gate_at(d, be.port)
        && has_kind(d, sig, NodeKind::Param))
}

/// The walk after asking for the far ends of the first `n` edges of box `bx`.
pub open spec fn through_box(
    d: Document,
    projection: Projection,
    g: SignalV,
    bx: u32,
    n: nat,
    w: WalkV,
) -> WalkV
    decreases n,
{
    if n == 0 {
        w
    } else {
        let v = through_box(d, projection, g, bx, (n - 1) as nat, w);
        let be = edge_at(d, incident(d, bx)[n - 1]);
        let sig = far_end(be, bx);
        if tied_in(d, projection, be, sig) {
            v
        } else {
            enqueued(g, sig, v)
        }
    }
}

/// What the far end of an edge resolved to.
pub struct FarV {
    /// The edge is given up.
    pub stop: bool,
    /// It is given up for want of budget.
    pub counted: bool,
    /// The box to draw for it.
    pub fresh: Option<NodeV>,
    /// The box whose pin the wire lands on.
    pub bx: Option<u32>,
    pub pin: Option<u32>,
    /// A box owns the far end, whether or not it shows it.
    pub owned: bool,
}

/// A far end that nothing is known of.
pub open spec fn no_far() -> FarV {
    FarV { stop: false, counted: false, fresh: None, bx: None, pin: None, owned: false }
}

/// The far end of an edge on the box around it: a pin that the box shows, on a box that
/// is drawn, or that is to be drawn and fits the budget.
pub open spec fn on_box(d: Document, s: StepV, other: u32, e: Edge, w: WalkV) -> (FarV, WalkV) {
    match box_around(d, other, s.projection) {
        None => (no_far(), w),
        Some((bx, scope)) => {
            let known = w.emitted.contains(bx) || w.stubs.contains(bx);
            if !known && w.nodes.len() >= s.boxes {
                (
                    FarV { stop: true, counted: true, owned: true, ..no_far() },
                    WalkV { truncated: true, ..w },
                )
            } else {
                let (fresh, p) = if known {
                    (None, w.pins)
                } else {
                    drawn(d, bx, scope_path(d, scope, s.root), w.pins)
                };
                if !known && fresh is None {
                    (FarV { stop: true, owned: true, ..no_far() }, WalkV { pins: p, ..w })
                } else {
                    let (pin, q) = pin_for(d, scope, s.projection, bx, other, e, p);
                    let shown = w.emitted_pins.contains(pin) || (fresh is Some && has_pin(
                        fresh->0.ports,
                        pin,
                    ));
                    (
                        if shown {
                            FarV { fresh, bx: Some(bx), pin: Some(pin), owned: true, ..no_far() }
                        } else {
                            FarV { owned: true, ..no_far() }
                        },
                        WalkV { pins: q, ..w },
                    )
                }
            }
        },
    }
}

/// Whether a signal may be drawn as a stand-in: it is not drawn yet, and it is neither
/// drawn inside a box nor a primitive.
pub open spec fn may_stand(d: Document, projection: Projection, id: u32, w: WalkV) -> bool {
    !w.stubs.contains(id) && !inline_at(d, id, projection) && !gate_at(d, id)
}

/// The walk with a stand-in for a signal.
pub open spec fn stood_up(d: Document, id: u32, side: Side, w: WalkV) -> WalkV {
    match stub_box(d, id, side) {
        Some(b) => WalkV { stubs: w.stubs.insert(id), ..added(w, b) },
        None => w,
    }
}

/// A stand-in for a signal that no box on the canvas shows, keyed on its group.
pub open spec fn free_anchor(d: Document, projection: Projection, node: u32, side: Side, w: WalkV)
    -> (Option<u32>, WalkV) {
    if !signal_at(d, node) {
        (None, w)
    } else {
        let far = group_at(d, node)[0];
        let v = if may_stand(d, projection, far, w) && !w.emitted.contains(far) {
            stood_up(d, far, side, w)
        } else {
            w
        };
        (
            if v.stubs.contains(far) {
                Some(far)
            } else {
                None
            },
            v,
        )
    }
}

/// Whether the far end of an edge is already on the canvas.
pub open spec fn on_canvas(d: Document, s: StepV, other: u32, w: WalkV) -> bool {
    match box_around(d, other, s.projection) {
        Some((bx, _)) => w.emitted.contains(bx),
        None => w.stubs.contains(group_at(d, other)[0]),
    }
}

/// The walk after wiring one edge of a box seed, pin to pin.
pub open spec fn seed_wired(
    d: Document,
    s: StepV,
    g: SignalV,
    scope: u32,
    near: u32,
    e: Edge,
    pin: u32,
    w: WalkV,
) -> WalkV {
    let (np, p) = pin_for(d, scope, s.projection, g.rep, near, e, w.pins);
    let v = WalkV { pins: p, ..w };
    if w.emitted_pins.contains(np) {
        let (dp, lp) = if leaves(e, near) {
            (np, pin)
        } else {
            (pin, np)
        };
        WalkV {
            wires: joined_all(
                node_at(d, g.rep),
                s.root,
                seq![(dp, e.select)],
                seq![(lp, e.select)],
                1,
                v.wires,
            ),
            ..v
        }
    } else {
        v
    }
}

/// The walk after an edge led to `other` on box `bx`: through a module wall it goes on
/// at the port that the edge landed on, and it goes on at the box's other signals.
pub open spec fn past_box(
    d: Document,
    s: StepV,
    g: SignalV,
    bx: u32,
    other: u32,
    w: WalkV,
) -> WalkV {
    let v = if other != bx && (has_kind(d, bx, NodeKind::Instance) || has_kind(
        d,
        bx,
        NodeKind::Interface,
    )) {
        enqueued_all(g, group_at(d, other), group_at(d, other).len(), w)
    } else {
        w
    };
    through_box(d, s.projection, g, bx, incident(d, bx).len(), v)
}

/// What an edge adds once its far pin is known.
pub open spec fn edge_taken(
    d: Document,
    s: StepV,
    g: SignalV,
    near: u32,
    e: Edge,
    f: FarV,
    pin: u32,
    a: GatheredV,
    w: WalkV,
) -> (GatheredV, WalkV) {
    let other = far_end(e, near);
    let fol = followed(e, near, s.dir);
    let w1 = match f.fresh {
        Some(b) => match f.bx {
            Some(bx) => WalkV { emitted: w.emitted.insert(bx), ..added(w, b) },
            None => added(w, b),
        },
        None => w,
    };
    let end = (pin, e.select);
    let b = GatheredV {
        kept: if fol {
            a.kept + 1
        } else {
            a.kept
        },
        pins: a.pins.push(pin),
        drivers: if leaves(e, near) {
            a.drivers
        } else {
            a.drivers.push(end)
        },
        loads: if leaves(e, near) {
            a.loads.push(end)
        } else {
            a.loads
        },
        dropped: a.dropped,
    };
    let w2 = match g.seed_scope {
        Some(scope) => seed_wired(d, s, g, scope, near, e, pin, w1),
        None => w1,
    };
    let w3 = if !fol {
        w2
    } else {
        match f.bx {
            Some(bx) => past_box(d, s, g, bx, other, w2),
            None => enqueued(g, other, w2),
        }
    };
    (b, w3)
}

/// What one edge adds. Beyond the fan-out cap it is counted as dropped; against the
/// direction it is wired only to what is drawn already.
pub open spec fn edge_step(
    d: Document,
    s: StepV,
    g: SignalV,
    near: u32,
    e: Edge,
    a: GatheredV,
    w: WalkV,
) -> (GatheredV, WalkV) {
    let fol = followed(e, near, s.dir);
    let other = far_end(e, near);
    if fol && a.kept >= s.cap {
        (GatheredV { dropped: next_id(a.dropped), ..a }, w)
    } else if !fol && !on_canvas(d, s, other, w) {
        (a, w)
    } else {
        let (f, w1) = on_box(d, s, other, e, w);
        if f.stop {
            (
                if f.counted {
                    GatheredV { dropped: next_id(a.dropped), ..a }
                } else {
                    a
                },
                w1,
            )
        } else {
            let side = if leaves(e, near) {
                Side::West
            } else {
                Side::East
            };
            let (pin, w2) = match f.pin {
                Some(p) => (Some(p), w1),
                None => free_anchor(d, s.projection, other, side, w1),
            };
            match pin {
                Some(p) => edge_taken(d, s, g, near, e, f, p, a, w2),
                None => (
                    a,
                    if f.owned {
                        w2
                    } else {
                        enqueued(g, other, w2)
                    },
                ),
            }
        }
    }
}

/// The end of an edge that is this signal.
pub open spec fn near_end(g: SignalV, e: Edge) -> u32 {
    if g.members.contains(e.port) {
        e.port
    } else {
        e.endpoint
    }
}

/// What the first `n` of a signal's edges add.
pub open spec fn edges_step(
    d: Document,
    s: StepV,
    g: SignalV,
    at: Seq<u32>,
    n: nat,
    w: WalkV,
) -> (GatheredV, WalkV)
    decreases n,
{
    if n == 0 {
        (
            GatheredV {
                drivers: Seq::empty(),
                loads: Seq::empty(),
                pins: Seq::empty(),
                kept: 0,
                dropped: 0,
            },
            w,
        )
    } else {
        let (a, v) = edges_step(d, s, g, at, (n - 1) as nat, w);
        let e = edge_at(d, at[n - 1]);
        edge_step(d, s, g, near_end(g, e), e, a, v)
    }
}

/// Whether the signal has far ends on one side only.
pub open spec fn one_sided(a: GatheredV) -> bool {
    (a.drivers.len() == 0) != (a.loads.len() == 0)
}

/// Whether a signal gets a stand-in of its own: it is one-sided, or it is a port met
/// by its backing net, or it is a seed; and no box is drawn for it.
pub open spec fn wants_stub(d: Document, s: StepV, g: SignalV, a: GatheredV, w: WalkV) -> bool {
    &&& one_sided(a) || g.members.len() > 1 || w.seeds.contains(g.rep)
    &&& forall|k: int|
        0 <= k < g.members.len() ==> !w.emitted.contains(#[trigger] g.members[k])
    &&& !inline_at(d, g.rep, s.projection)
    &&& !gate_at(d, g.rep)
}

/// Whether a stand-in may be drawn: one for a signal and one for what a step starts at
/// always, as they cost nothing; any other counts as a box.
pub open spec fn stub_fits(d: Document, s: StepV, id: u32, w: WalkV) -> bool {
    kind_at(d, id) is None || signal_at(d, id) || id == s.seed || w.nodes.len() < s.boxes
}

/// The stand-in of a signal after its edges were walked.
pub open spec fn stub_step(d: Document, s: StepV, g: SignalV, a: GatheredV, w: WalkV) -> (
    Option<u32>,
    WalkV,
) {
    if wants_stub(d, s, g, a, w) {
        let v = if w.stubs.contains(g.rep) {
            w
        } else if !stub_fits(d, s, g.rep, w) {
            WalkV { truncated: true, ..w }
        } else {
            stood_up(
                d,
                g.rep,
                if a.drivers.len() == 0 {
                    Side::East
                } else {
                    Side::West
                },
                w,
            )
        };
        (
            if v.stubs.contains(g.rep) {
                Some(g.rep)
            } else {
                None
            },
            v,
        )
    } else {
        (None, w)
    }
}

/// The report with `n` more dropped connections on a pin.
pub open spec fn reported(more: Map<u32, u32>, pin: u32, n: u32) -> Map<u32, u32> {
    more.insert(
        pin,
        (((if more.contains_key(pin) {
            more[pin] as int
        } else {
            0
        }) + n) % 0x1_0000_0000) as u32,
    )
}

/// The report with `n` more dropped connections on each of the first `k` pins.
pub open spec fn reported_all(more: Map<u32, u32>, pins: Seq<u32>, n: u32, k: nat) -> Map<u32, u32>
    decreases k,
{
    if k == 0 {
        more
    } else {
        reported(reported_all(more, pins, n, (k - 1) as nat), pins[k - 1], n)
    }
}

/// The walk after reporting what a cap dropped: on the signal's stand-in, or on every
/// pin that the hop reached.
pub open spec fn report_step(stub: Option<u32>, a: GatheredV, w: WalkV) -> WalkV {
    if a.dropped > 0 {
        WalkV {
            truncated: true,
            more: match stub {
                Some(p) => reported(w.more, p, a.dropped),
                None => reported_all(w.more, a.pins, a.dropped, a.pins.len()),
            },
            ..w
        }
    } else {
        w
    }
}

/// The wires of a signal: drivers to loads; through the stand-in where both sides meet
/// at it; to the stand-in where one side is missing.
pub open spec fn join_step(
    d: Document,
    s: StepV,
    g: SignalV,
    stub: Option<u32>,
    a: GatheredV,
    w: WiresV,
) -> WiresV {
    let sig = node_at(d, g.rep);
    match stub {
        Some(p) => {
            let mid = seq![(p, None)];
            if one_sided(a) {
                if a.drivers.len() == 0 {
                    joined_all(sig, s.root, mid, a.loads, 1, w)
                } else {
                    joined_all(sig, s.root, a.drivers, mid, a.drivers.len(), w)
                }
            } else if a.drivers.len() > 0 && a.loads.len() > 0 {
                joined_all(
                    sig,
                    s.root,
                    mid,
                    a.loads,
                    1,
                    joined_all(sig, s.root, a.drivers, mid, a.drivers.len(), w),
                )
            } else {
                w
            }
        },
        None => joined_all(sig, s.root, a.drivers, a.loads, a.drivers.len(), w),
    }
}

/// The walk of one signal.
pub open spec fn signal_step(d: Document, s: StepV, g: SignalV, w: WalkV) -> WalkV {
    let at = touching(d.edges@, g.members.to_set());
    let (a, w1) = edges_step(d, s, g, at, at.len(), w);
    let (stub, w2) = stub_step(d, s, g, a, w1);
    let w3 = report_step(stub, a, w2);
    if g.seed_scope is Some {
        w3
    } else {
        WalkV { wires: join_step(d, s, g, stub, a, w3.wires), ..w3 }
    }
}

/// The signal of a frontier entry.
pub open spec fn signal_of(d: Document, sig: u32, w: WalkV) -> SignalV {
    let members = group_at(d, sig);
    SignalV {
        members,
        rep: members[0],
        seed_scope: if w.box_seeds.contains_key(members[0]) {
            Some(w.box_seeds[members[0]])
        } else {
            None
        },
    }
}

/// One hop over the first `n` frontier entries; entries that are one signal are walked
/// once.
pub open spec fn hop(d: Document, s: StepV, frontier: Seq<u32>, n: nat, w: WalkV) -> (
    Set<u32>,
    WalkV,
)
    decreases n,
{
    if n == 0 {
        (Set::empty(), WalkV { next: Seq::empty(), ..w })
    } else {
        let (done, v) = hop(d, s, frontier, (n - 1) as nat, w);
        let g = signal_of(d, frontier[n - 1], v);
        if done.contains(g.rep) {
            (done, v)
        } else {
            (
                done.insert(g.rep),
                signal_step(
                    d,
                    s,
                    g,
                    WalkV { visited: v.visited.union(g.members.to_set()), ..v },
                ),
            )
        }
    }
}

/// At most `k` hops from a frontier, until one reaches nothing new.
pub open spec fn hops(d: Document, s: StepV, frontier: Seq<u32>, k: nat, w: WalkV) -> WalkV
    decreases k,
{
    if k == 0 {
        w
    } else {
        let v = hop(d, s, frontier, frontier.len(), w).1;
        if v.next.len() == 0 {
            v
        } else {
            hops(d, s, v.next, (k - 1) as nat, v)
        }
    }
}

// --- Walking ------------------------------------------------------------------

/// What a trace has drawn and visited.
pub struct Walk {
    pub pins: PinAlloc,
    pub nodes: Vec<SchNode>,
    pub emitted: HashSet<NodeId>,
    pub stubs: HashSet<NodeId>,
    pub emitted_pins: HashSet<NodeId>,
    pub wires: Wires,
    pub truncated: bool,
    pub more: HashMap<NodeId, u32>,
    pub visited: HashSet<NodeId>,
    pub next: Vec<NodeId>,
    pub seeds: HashSet<NodeId>,
    pub box_seeds: HashMap<NodeId, NodeId>,
    pub scopes: ScopeCache,
}

impl View for Walk {
    type V = WalkV;

    open spec fn view(&self) -> WalkV {
        WalkV {
            pins: self.pins@,
            nodes: node_views(self.nodes@),
            emitted: self.emitted@,
            stubs: self.stubs@,
            emitted_pins: self.emitted_pins@,
            wires: self.wires@,
            truncated: self.truncated,
            more: self.more@,
            visited: self.visited@,
            next: self.next@,
            seeds: self.seeds@,
            box_seeds: self.box_seeds@,
        }
    }
}

impl Walk {
    pub open spec fn wf(&self, d: Document, projection: Projection) -> bool {
        &&& self.pins.wf()
        &&& self.wires.wf()
        &&& self.scopes.wf(d, projection)
    }
}

/// The budget and direction of one step.
pub struct Step<'a> {
    pub projection: Projection,
    pub boxes: usize,
    pub seed: NodeId,
    pub dir: Dir,
    pub cap: usize,
    pub root: &'a str,
}

impl<'a> View for Step<'a> {
    type V = StepV;

    open spec fn view(&self) -> StepV {
        StepV {
            projection: self.projection,
            boxes: self.boxes,
            seed: self.seed,
            dir: self.dir,
            cap: self.cap,
            root: self.root@,
        }
    }
}

/// The signal that a hop stands on.
pub struct Signal {
    pub members: Vec<NodeId>,
    pub rep: NodeId,
    pub seed_scope: Option<NodeId>,
}

impl View for Signal {
    type V = SignalV;

    open spec fn view(&self) -> SignalV {
        SignalV { members: self.members@, rep: self.rep, seed_scope: self.seed_scope }
    }
}

/// What the edges of one signal have gathered.
pub struct Gathered {
    pub drivers: Vec<Anchor>,
    pub loads: Vec<Anchor>,
    pub pins: Vec<NodeId>,
    pub kept: usize,
    pub dropped: u32,
}

impl View for Gathered {
    type V = GatheredV;

    open spec fn view(&self) -> GatheredV {
        GatheredV {
            drivers: self.drivers@,
            loads: self.loads@,
            pins: self.pins@,
            kept: self.kept as nat,
            dropped: self.dropped,
        }
    }
}

/// What the far end of an edge resolved to.
pub struct Far {
    pub stop: bool,
    pub counted: bool,
    pub fresh: Option<SchNode>,
    pub bx: Option<NodeId>,
    pub pin: Option<NodeId>,
    pub owned: bool,
}

impl View for Far {
    type V = FarV;

    open spec fn view(&self) -> FarV {
        FarV {
            stop: self.stop,
            counted: self.counted,
            fresh: opt_node(self.fresh),
            bx: self.bx,
            pin: self.pin,
            owned: self.owned,
        }
    }
}

/// Whether `ids` lists `id`.
pub fn lists(ids: &Vec<NodeId>, id: NodeId) -> (r: bool)
    ensures
        r == ids@.contains(id),
{
    let mut i: usize = 0;
    while i < ids.len()
        invariant
            i <= ids@.len(),
            forall|k: int| 0 <= k < i ==> ids@[k] != id,
        decreases ids@.len() - i,
    {
        if ids[i] == id {
            assert(ids@[i as int] == id);
            return true;
        }
        i += 1;
    }
    false
}

fn note_pins(set: &mut HashSet<NodeId>, ports: &Vec<SchPort>)
    ensures
        final(set)@ == old(set)@.union(pin_ids(port_views(ports@))),
{
    let ghost before = set@;
    let ghost pv = port_views(ports@);
    let mut i: usize = 0;
    assert(set@ =~= before.union(pin_ids(pv.take(0))));
    while i < ports.len()
        invariant
            i <= ports@.len(),
            pv == port_views(ports@),
            set@ == before.union(pin_ids(pv.take(i as int))),
        decreases ports@.len() - i,
    {
        set.insert(ports[i].id);
        proof {
            let a = pv.take(i as int);
            let b = pv.take(i + 1);
            assert(pv[i as int] == ports@[i as int]@);
            assert forall|x: u32| has_pin(b, x) <==> (has_pin(a, x) || x == pv[i as int].id) by {
                if has_pin(a, x) {
                    let k = choose|k: int| 0 <= k < a.len() && (#[trigger] a[k]).id == x;
                    assert(b[k].id == x);
                }
                if x == pv[i as int].id {
                    assert(b[i as int].id == x);
                }
                if has_pin(b, x) {
                    let k = choose|k: int| 0 <= k < b.len() && (#[trigger] b[k]).id == x;
                    if k < i {
                        assert(a[k].id == x);
                    }
                }
            }
            assert(set@ =~= before.union(pin_ids(b)));
        }
        i += 1;
    }
    assert(pv.take(i as int) =~= pv);
}

/// Adds a node to the canvas.
pub fn add_node(w: &mut Walk, node: SchNode)
    ensures
        final(w)@ == added(old(w)@, node@),
        final(w).pins == old(w).pins,
        final(w).wires == old(w).wires,
        final(w).scopes == old(w).scopes,
{
    note_pins(&mut w.emitted_pins, &node.ports);
    w.nodes.push(node);
}

fn enqueue(g: &Signal, id: NodeId, w: &mut Walk)
    ensures
        final(w)@ == enqueued(g@, id, old(w)@),
        final(w).pins == old(w).pins,
        final(w).wires == old(w).wires,
        final(w).scopes == old(w).scopes,
{
    if !lists(&g.members, id) && !w.visited.contains(&id) {
        w.visited.insert(id);
        w.next.push(id);
    }
}

fn pass_box(
    design: &Design,
    s: &Step,
    g: &Signal,
    bx: NodeId,
    other: NodeId,
    w: &mut Walk,
)
    requires
        design.wf(),
    ensures
        final(w)@ == past_box(design.doc, s@, g@, bx, other, old(w)@),
        final(w).pins == old(w).pins,
        final(w).wires == old(w).wires,
        final(w).scopes == old(w).scopes,
{
    if other != bx && (is_kind(design, bx, NodeKind::Instance) || is_kind(
        design,
        bx,
        NodeKind::Interface,
    )) {
        let group: Vec<NodeId> = signal_group(design, other);
        let ghost w0 = *w;
        let mut i: usize = 0;
        while i < group.len()
            invariant
                i <= group@.len(),
                w@ == enqueued_all(g@, group@, i as nat, w0@),
                w.pins == w0.pins,
                w.wires == w0.wires,
                w.scopes == w0.scopes,
            decreases group@.len() - i,
        {
            enqueue(g, group[i], w);
            i += 1;
        }
    }
    let at: &[u32] = design.edge_indices_of(bx);
    let ghost w1 = *w;
    let mut i: usize = 0;
    while i < at.len()
        invariant
            i <= at@.len(),
            design.wf(),
            at@ == incident(design.doc, bx),
            forall|k: int| 0 <= k < at@.len() ==> #[trigger] at@[k] < design.doc.edges@.len(),
            w@ == through_box(design.doc, s.projection, g@, bx, i as nat, w1@),
            w.pins == w1.pins,
            w.wires == w1.wires,
            w.scopes == w1.scopes,
        decreases at@.len() - i,
    {
        let be: &Edge = &design.doc.edges[at[i] as usize];
        let sig: NodeId = if be.port == bx {
            be.endpoint
        } else {
            be.port
        };
        let tied: bool = is_drawn_inline(design, sig, s.projection) || (s.projection
            == Projection::GateLevel && is_gate(design, be.port) && is_kind(
            design,
            sig,
            NodeKind::Param,
        ));
        if !tied {
            enqueue(g, sig, w);
        }
        i += 1;
    }
}

fn path_for_scope<'a>(design: &'a Design, scope: NodeId, root: &'a str) -> (r: &'a str)
    ensures
        r@ == scope_path(design.doc, scope, root@),
{
    match design.node(scope) {
        Some(n) => n.path.as_str(),
        None => root,
    }
}

fn resolve_box(design: &Design, s: &Step, other: NodeId, e: &Edge, w: &mut Walk) -> (r: Far)
    requires
        design.wf(),
        hierarchical(design.doc),
        old(w).wf(design.doc, s.projection),
    ensures
        final(w).wf(design.doc, s.projection),
        (r@, final(w)@) == on_box(design.doc, s@, other, *e, old(w)@),
{
    let mut f: Far = Far {
        stop: false,
        counted: false,
        fresh: None,
        bx: None,
        pin: None,
        owned: false,
    };
    match cone_box_of(design, other, s.projection, &mut w.scopes) {
        None => f,
        Some((bx, scope)) => {
            f.owned = true;
            let known: bool = w.emitted.contains(&bx) || w.stubs.contains(&bx);
            let mut fresh: Option<SchNode> = None;
            if !known {
                if w.nodes.len() >= s.boxes {
                    w.truncated = true;
                    f.stop = true;
                    f.counted = true;
                    return f;
                }
                fresh =
                cone_box_node(design, bx, path_for_scope(design, scope, s.root), &mut w.pins);
                if fresh.is_none() {
                    f.stop = true;
                    return f;
                }
            }
            let pin: NodeId = cone_pin_for(
                design,
                &mut w.scopes,
                scope,
                bx,
                other,
                e,
                &mut w.pins,
                Ghost(s.projection),
            );
            let shown: bool = w.emitted_pins.contains(&pin) || match &fresh {
                Some(n) => lists_pin(&n.ports, pin),
                None => false,
            };
            if shown {
                f.fresh = fresh;
                f.bx = Some(bx);
                f.pin = Some(pin);
            }
            f
        },
    }
}

/// Draws a stand-in for a signal.
pub fn stand_up(design: &Design, id: NodeId, side: Side, w: &mut Walk)
    ensures
        final(w)@ == stood_up(design.doc, id, side, old(w)@),
        final(w).pins == old(w).pins,
        final(w).wires == old(w).wires,
        final(w).scopes == old(w).scopes,
{
    if let Some(n) = make_signal_stub(design, id, side) {
        add_node(w, n);
        w.stubs.insert(id);
    }
}

/// A stand-in for a signal that no box on the canvas shows.
fn free_net_anchor(
    design: &Design,
    projection: Projection,
    node: NodeId,
    side: Side,
    w: &mut Walk,
) -> (r: Option<NodeId>)
    requires
        design.wf(),
    ensures
        (r, final(w)@) == free_anchor(design.doc, projection, node, side, old(w)@),
        final(w).pins == old(w).pins,
        final(w).wires == old(w).wires,
        final(w).scopes == old(w).scopes,
{
    if !is_signal(design, node) {
        return None;
    }
    let group: Vec<NodeId> = signal_group(design, node);
    proof {
        lemma_group(design.doc, node);
    }
    let far: NodeId = group[0];
    if !w.stubs.contains(&far) && !w.emitted.contains(&far) && !is_drawn_inline(
        design,
        far,
        projection,
    ) && !is_gate(design, far) {
        stand_up(design, far, side, w);
    }
    if w.stubs.contains(&far) {
        Some(far)
    } else {
        None
    }
}

fn is_on_canvas(design: &Design, s: &Step, other: NodeId, w: &mut Walk) -> (r: bool)
    requires
        design.wf(),
        hierarchical(design.doc),
        old(w).wf(design.doc, s.projection),
    ensures
        final(w).wf(design.doc, s.projection),
        final(w)@ == old(w)@,
        r == on_canvas(design.doc, s@, other, old(w)@),
{
    match cone_box_of(design, other, s.projection, &mut w.scopes) {
        Some((bx, _)) => w.emitted.contains(&bx),
        None => {
            let group: Vec<NodeId> = signal_group(design, other);
            proof {
                lemma_group(design.doc, other);
            }
            w.stubs.contains(&group[0])
        },
    }
}

fn wire_seed(
    design: &Design,
    s: &Step,
    g: &Signal,
    scope: NodeId,
    near: NodeId,
    e: &Edge,
    pin: NodeId,
    w: &mut Walk,
)
    requires
        design.wf(),
        hierarchical(design.doc),
        old(w).wf(design.doc, s.projection),
    ensures
        final(w).wf(design.doc, s.projection),
        final(w)@ == seed_wired(design.doc, s@, g@, scope, near, *e, pin, old(w)@),
{
    let np: NodeId = cone_pin_for(
        design,
        &mut w.scopes,
        scope,
        g.rep,
        near,
        e,
        &mut w.pins,
        Ghost(s.projection),
    );
    if w.emitted_pins.contains(&np) {
        let (dp, lp) = if edge_drives(e, near) {
            (pin, np)
        } else {
            (np, pin)
        };
        let mut drivers: Vec<Anchor> = Vec::new();
        drivers.push((dp, clone_opt(&e.select)));
        let mut loads: Vec<Anchor> = Vec::new();
        loads.push((lp, clone_opt(&e.select)));
        assert(drivers@ =~= seq![(dp, e.select)]);
        assert(loads@ =~= seq![(lp, e.select)]);
        join_signal(
            design.node(g.rep),
            s.root,
            drivers.as_slice(),
            loads.as_slice(),
            &mut w.wires,
        );
    }
}

fn take_edge(
    design: &Design,
    s: &Step,
    g: &Signal,
    near: NodeId,
    e: &Edge,
    f: Far,
    pin: NodeId,
    a: &mut Gathered,
    w: &mut Walk,
)
    requires
        design.wf(),
        hierarchical(design.doc),
        old(a).kept < usize::MAX,
        old(w).wf(design.doc, s.projection),
    ensures
        final(w).wf(design.doc, s.projection),
        (final(a)@, final(w)@) == edge_taken(
            design.doc,
            s@,
            g@,
            near,
            *e,
            f@,
            pin,
            old(a)@,
            old(w)@,
        ),
{
    let other: NodeId = if e.port == near {
        e.endpoint
    } else {
        e.port
    };
    let fol: bool = follows(e, near, s.dir);
    let bx: Option<NodeId> = f.bx;
    if let Some(n) = f.fresh {
        add_node(w, n);
        if let Some(b) = bx {
            w.emitted.insert(b);
        }
    }
    if fol {
        a.kept = a.kept + 1;
    }
    a.pins.push(pin);
    if edge_drives(e, near) {
        a.drivers.push((pin, clone_opt(&e.select)));
    } else {
        a.loads.push((pin, clone_opt(&e.select)));
    }
    if let Some(scope) = g.seed_scope {
        wire_seed(design, s, g, scope, near, e, pin, w);
    }
    if fol {
        match bx {
            Some(b) => pass_box(design, s, g, b, other, w),
            None => enqueue(g, other, w),
        }
    }
}

fn walk_edge(
    design: &Design,
    s: &Step,
    g: &Signal,
    near: NodeId,
    e: &Edge,
    a: &mut Gathered,
    w: &mut Walk,
)
    requires
        design.wf(),
        hierarchical(design.doc),
        old(a).kept < usize::MAX,
        old(w).wf(design.doc, s.projection),
    ensures
        final(w).wf(design.doc, s.projection),
        final(a).kept <= old(a).kept + 1,
        (final(a)@, final(w)@) == edge_step(design.doc, s@, g@, near, *e, old(a)@, old(w)@),
{
    let fol: bool = follows(e, near, s.dir);
    let other: NodeId = if e.port == near {
        e.endpoint
    } else {
        e.port
    };
    if fol && a.kept >= s.cap {
        a.dropped = a.dropped.wrapping_add(1);
        return;
    }
    if !fol && !is_on_canvas(design, s, other, w) {
        return;
    }
    let f: Far = resolve_box(design, s, other, e, w);
    if f.stop {
        if f.counted {
            a.dropped = a.dropped.wrapping_add(1);
        }
        return;
    }
    let side: Side = if edge_drives(e, near) {
        Side::East
    } else {
        Side::West
    };
    let pin: Option<NodeId> = match f.pin {
        Some(p) => Some(p),
        None => free_net_anchor(design, s.projection, other, side, w),
    };
    match pin {
        Some(p) => take_edge(design, s, g, near, e, f, p, a, w),
        None => {
            if !f.owned {
                enqueue(g, other, w);
            }
        },
    }
}

fn report(more: &mut HashMap<NodeId, u32>, pin: NodeId, n: u32)
    ensures
        final(more)@ == reported(old(more)@, pin, n),
{
    let had: u32 = match more.get(&pin) {
        Some(c) => *c,
        None => 0,
    };
    more.insert(pin, had.wrapping_add(n));
}

fn place_stub(design: &Design, s: &Step, g: &Signal, a: &Gathered, w: &mut Walk) -> (r: Option<
    NodeId,
>)
    requires
        design.wf(),
    ensures
        (r, final(w)@) == stub_step(design.doc, s@, g@, a@, old(w)@),
        final(w).pins == old(w).pins,
        final(w).wires == old(w).wires,
        final(w).scopes == old(w).scopes,
{
    let lone: bool = (a.drivers.len() == 0) != (a.loads.len() == 0);
    let mut i: usize = 0;
    let mut boxed: bool = false;
    while i < g.members.len()
        invariant
            i <= g.members@.len(),
            boxed == exists|k: int| 0 <= k < i && w.emitted@.contains(#[trigger] g.members@[k]),
        decreases g.members@.len() - i,
    {
        if w.emitted.contains(&g.members[i]) {
            assert(w.emitted@.contains(g.members@[i as int]));
            boxed = true;
        }
        i += 1;
    }
    if (lone || g.members.len() > 1 || w.seeds.contains(&g.rep)) && !boxed && !is_drawn_inline(
        design,
        g.rep,
        s.projection,
    ) && !is_gate(design, g.rep) {
        assert(wants_stub(design.doc, s@, g@, a@, w@));
        let side: Side = if a.drivers.len() == 0 {
            Side::East
        } else {
            Side::West
        };
        if !w.stubs.contains(&g.rep) {
            if kind_of(design, g.rep).is_none() || is_signal(design, g.rep) || g.rep == s.seed
                || w.nodes.len() < s.boxes {
                stand_up(design, g.rep, side, w);
            } else {
                w.truncated = true;
            }
        }
        if w.stubs.contains(&g.rep) {
            return Some(g.rep);
        }
        return None;
    }
    proof {
        if boxed {
            let k = choose|k: int|
                0 <= k < g.members@.len() && w.emitted@.contains(#[trigger] g.members@[k]);
            assert(w@.emitted.contains(g@.members[k]));
        }
    }
    None
}

fn report_dropped(stub: Option<NodeId>, a: &Gathered, w: &mut Walk)
    ensures
        final(w)@ == report_step(stub, a@, old(w)@),
        final(w).pins == old(w).pins,
        final(w).wires == old(w).wires,
        final(w).scopes == old(w).scopes,
{
    if a.dropped > 0 {
        w.truncated = true;
        match stub {
            Some(p) => report(&mut w.more, p, a.dropped),
            None => {
                let ghost w0 = *w;
                let mut i: usize = 0;
                while i < a.pins.len()
                    invariant
                        i <= a.pins@.len(),
                        w@ == (WalkV {
                            more: reported_all(w0@.more, a.pins@, a.dropped, i as nat),
                            ..w0@
                        }),
                        w.pins == w0.pins,
                        w.wires == w0.wires,
                        w.scopes == w0.scopes,
                    decreases a.pins@.len() - i,
                {
                    report(&mut w.more, a.pins[i], a.dropped);
                    i += 1;
                }
            },
        }
    }
}

fn join_walked(
    design: &Design,
    s: &Step,
    g: &Signal,
    stub: Option<NodeId>,
    a: &Gathered,
    w: &mut Wires,
)
    requires
        old(w).wf(),
    ensures
        final(w).wf(),
        final(w)@ == join_step(design.doc, s@, g@, stub, a@, old(w)@),
{
    let sig = design.node(g.rep);
    match stub {
        Some(p) => {
            let mut mid: Vec<Anchor> = Vec::new();
            mid.push((p, None));
            assert(mid@ =~= seq![(p, None)]);
            let no_drivers: bool = a.drivers.len() == 0;
            let no_loads: bool = a.loads.len() == 0;
            if !no_drivers {
                join_signal(sig, s.root, a.drivers.as_slice(), mid.as_slice(), w);
            }
            if !no_loads {
                join_signal(sig, s.root, mid.as_slice(), a.loads.as_slice(), w);
            }
        },
        None => {
            join_signal(sig, s.root, a.drivers.as_slice(), a.loads.as_slice(), w);
        },
    }
}

fn walk_signal(design: &Design, s: &Step, g: &Signal, w: &mut Walk)
    requires
        design.wf(),
        hierarchical(design.doc),
        old(w).wf(design.doc, s.projection),
    ensures
        final(w).wf(design.doc, s.projection),
        final(w)@ == signal_step(design.doc, s@, g@, old(w)@),
{
    let mut a: Gathered = Gathered {
        drivers: Vec::new(),
        loads: Vec::new(),
        pins: Vec::new(),
        kept: 0,
        dropped: 0,
    };
    let at: Vec<u32> = edges_touching(design, &g.members);
    let ghost w0 = w@;
    let mut i: usize = 0;
    while i < at.len()
        invariant
            i <= at@.len(),
            design.wf(),
            hierarchical(design.doc),
            forall|k: int| 0 <= k < at@.len() ==> #[trigger] at@[k] < design.doc.edges@.len(),
            a.kept <= i,
            w.wf(design.doc, s.projection),
            (a@, w@) == edges_step(design.doc, s@, g@, at@, i as nat, w0),
        decreases at@.len() - i,
    {
        let e: &Edge = &design.doc.edges[at[i] as usize];
        let near: NodeId = if lists(&g.members, e.port) {
            e.port
        } else {
            e.endpoint
        };
        walk_edge(design, s, g, near, e, &mut a, w);
        i += 1;
    }
    let stub: Option<NodeId> = place_stub(design, s, g, &a, w);
    report_dropped(stub, &a, w);
    if g.seed_scope.is_none() {
        join_walked(design, s, g, stub, &a, &mut w.wires);
    }
}

fn visit(w: &mut Walk, ids: &Vec<NodeId>)
    ensures
        final(w)@ == (WalkV { visited: old(w)@.visited.union(ids@.to_set()), ..old(w)@ }),
        final(w).pins == old(w).pins,
        final(w).wires == old(w).wires,
        final(w).scopes == old(w).scopes,
{
    let ghost w0 = *w;
    let mut i: usize = 0;
    assert(w.visited@ =~= w0.visited@.union(ids@.take(0).to_set()));
    while i < ids.len()
        invariant
            i <= ids@.len(),
            w@ == (WalkV { visited: w0@.visited.union(ids@.take(i as int).to_set()), ..w0@ }),
            w.pins == w0.pins,
            w.wires == w0.wires,
            w.scopes == w0.scopes,
        decreases ids@.len() - i,
    {
        w.visited.insert(ids[i]);
        proof {
            lemma_take_contains(ids@, i as int);
            assert(w.visited@ =~= w0@.visited.union(ids@.take(i + 1).to_set()));
        }
        i += 1;
    }
    assert(ids@.take(i as int) =~= ids@);
}

/// Marks the nodes of a frontier as visited.
pub fn visit_all(w: &mut Walk, ids: &Vec<NodeId>)
    ensures
        final(w)@ == (WalkV { visited: old(w)@.visited.union(ids@.to_set()), ..old(w)@ }),
        final(w).pins == old(w).pins,
        final(w).wires == old(w).wires,
        final(w).scopes == old(w).scopes,
{
    visit(w, ids)
}

fn walk_hop(design: &Design, s: &Step, frontier: &Vec<NodeId>, w: &mut Walk)
    requires
        design.wf(),
        hierarchical(design.doc),
        old(w).wf(design.doc, s.projection),
    ensures
        final(w).wf(design.doc, s.projection),
        final(w)@ == hop(design.doc, s@, frontier@, frontier@.len(), old(w)@).1,
{
    let ghost w0 = w@;
    let mut done: HashSet<NodeId> = HashSet::new();
    w.next = Vec::new();
    let mut i: usize = 0;
    while i < frontier.len()
        invariant
            i <= frontier@.len(),
            design.wf(),
            hierarchical(design.doc),
            w.wf(design.doc, s.projection),
            (done@, w@) == hop(design.doc, s@, frontier@, i as nat, w0),
        decreases frontier@.len() - i,
    {
        let members: Vec<NodeId> = signal_group(design, frontier[i]);
        proof {
            lemma_group(design.doc, frontier@[i as int]);
        }
        let rep: NodeId = members[0];
        let ghost done0 = done@;
        if done.insert(rep) {
            let seed_scope: Option<NodeId> = match w.box_seeds.get(&rep) {
                Some(x) => Some(*x),
                None => None,
            };
            visit(w, &members);
            let g: Signal = Signal { members, rep, seed_scope };
            walk_signal(design, s, &g, w);
        } else {
            assert(done@ =~= done0);
        }
        i += 1;
    }
}

/// Walks at most `depth` hops from a frontier.
pub fn walk_hops(design: &Design, s: &Step, frontier: Vec<NodeId>, depth: usize, w: &mut Walk)
    requires
        design.wf(),
        hierarchical(design.doc),
        old(w).wf(design.doc, s.projection),
    ensures
        final(w).wf(design.doc, s.projection),
        final(w)@ == hops(design.doc, s@, frontier@, depth as nat, old(w)@),
{
    let ghost goal = hops(design.doc, s@, frontier@, depth as nat, w@);
    let mut front: Vec<NodeId> = frontier;
    let mut left: usize = depth;
    while left > 0
        invariant_except_break
            goal == hops(design.doc, s@, front@, left as nat, w@),
        invariant
            design.wf(),
            hierarchical(design.doc),
            w.wf(design.doc, s.projection),
        ensures
            goal == w@,
        decreases left,
    {
        walk_hop(design, s, &front, w);
        if w.next.len() == 0 {
            break;
        }
        front = copied(&w.next);
        left -= 1;
    }
}

fn copied(ids: &Vec<NodeId>) -> (r: Vec<NodeId>)
    ensures
        r@ == ids@,
{
    let mut out: Vec<NodeId> = Vec::new();
    crate::schematic::kinds::append_ids(&mut out, ids.as_slice());
    assert(out@ =~= ids@);
    out
}

} // verus!
