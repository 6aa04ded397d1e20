//! What every walk of a trace keeps: boxes are drawn once, and wires join different pins
//! of drawn boxes, each pair once.

use crate::model::{edge_at, incident, node_at, touching, Document, Edge, Node};
use crate::schematic::boxes::{drawn, stub_box};
use crate::schematic::pins::pair_of;
use crate::schematic::reach::{far_end, group_at, leaves, lemma_group, pin_for};
use crate::schematic::scope::has_pin;
use crate::schematic::trace::{anchored_seeds, box_seeded, budget, seed_box, step_walk, steps_walk};
use crate::schematic::types::{ConeLimits, NodeV, Projection, Side, TraceStep};
use crate::schematic::walk::{
    added, edge_step, edge_taken, edges_step, enqueued, enqueued_all, free_anchor, hop, hops,
    join_step, near_end, on_box, past_box, report_step, scope_path, seed_wired, signal_of,
    signal_step, stood_up, stub_step, through_box, wants_stub, FarV, GatheredV, SignalV, StepV,
    WalkV,
};
use crate::schematic::wires::{joined_all, joined_to, Anchor, WiresV};
use vstd::prelude::*;

verus! {

// --- Wires --------------------------------------------------------------------

/// Whether wires join different pins out of `shown`, and no two wires the same two pins.
pub open spec fn tidy(w: WiresV, shown: Set<u32>) -> bool {
    &&& forall|i: int|
        0 <= i < w.edges.len() ==> (#[trigger] w.edges[i]).source != w.edges[i].target
            && shown.contains(w.edges[i].source) && shown.contains(w.edges[i].target)
            && w.seen.contains(pair_of(w.edges[i].source, w.edges[i].target))
    &&& forall|i: int, j: int|
        0 <= i < j < w.edges.len() ==> pair_of(
            (#[trigger] w.edges[i]).source,
            w.edges[i].target,
        ) != pair_of((#[trigger] w.edges[j]).source, w.edges[j].target)
}

/// Whether the pins of all ends are in `shown`.
pub open spec fn ends_shown(ends: Seq<Anchor>, shown: Set<u32>) -> bool {
    forall|k: int| 0 <= k < ends.len() ==> shown.contains((#[trigger] ends[k]).0)
}

proof fn lemma_joined_to(
    sig: Option<Node>,
    scope: Seq<char>,
    dr: Anchor,
    loads: Seq<Anchor>,
    n: nat,
    w: WiresV,
    shown: Set<u32>,
)
    requires
        n <= loads.len(),
        tidy(w, shown),
        shown.contains(dr.0),
        ends_shown(loads, shown),
    ensures
        tidy(joined_to(sig, scope, dr, loads, n, w), shown),
    decreases n,
{
    if n > 0 {
        lemma_joined_to(sig, scope, dr, loads, (n - 1) as nat, w, shown);
        assert(shown.contains(loads[n - 1].0));
    }
}

/// Joining drawn pins keeps wires tidy.
pub proof fn lemma_joined_all(
    sig: Option<Node>,
    scope: Seq<char>,
    drivers: Seq<Anchor>,
    loads: Seq<Anchor>,
    n: nat,
    w: WiresV,
    shown: Set<u32>,
)
    requires
        n <= drivers.len(),
        tidy(w, shown),
        ends_shown(drivers, shown),
        ends_shown(loads, shown),
    ensures
        tidy(joined_all(sig, scope, drivers, loads, n, w), shown),
    decreases n,
{
    if n > 0 {
        lemma_joined_all(sig, scope, drivers, loads, (n - 1) as nat, w, shown);
        assert(shown.contains(drivers[n - 1].0));
        lemma_joined_to(
            sig,
            scope,
            drivers[n - 1],
            loads,
            loads.len(),
            joined_all(sig, scope, drivers, loads, (n - 1) as nat, w),
            shown,
        );
    }
}

proof fn lemma_tidy_grows(w: WiresV, shown: Set<u32>, more: Set<u32>)
    requires
        tidy(w, shown),
        shown.subset_of(more),
    ensures
        tidy(w, more),
{
}

// --- The canvas of a walk -----------------------------------------------------

/// Whether a box on the canvas has a pin.
pub open spec fn pin_shown(nodes: Seq<NodeV>, x: u32) -> bool {
    exists|k: int| 0 <= k < nodes.len() && has_pin((#[trigger] nodes[k]).ports, x)
}

/// Whether boxes have different ids.
pub open spec fn ids_differ(nodes: Seq<NodeV>) -> bool {
    forall|i: int, j: int|
        0 <= i < j < nodes.len() ==> (#[trigger] nodes[i]).id != (#[trigger] nodes[j]).id
}

/// Whether a box is one pin that is named by the box's own id.
pub open spec fn one_pin(n: NodeV) -> bool {
    n.ports.len() == 1 && n.ports[0].id == n.id
}

/// Whether the canvas of a walk is in order: its boxes are distinct and are those that the
/// walk counts as drawn, a stand-in is one pin, the pins that the walk counts as drawn are
/// those of its boxes, and the wires are tidy.
pub open spec fn sound(w: WalkV) -> bool {
    &&& ids_differ(w.nodes)
    &&& forall|k: int|
        0 <= k < w.nodes.len() ==> (w.emitted.contains((#[trigger] w.nodes[k]).id)
            || w.stubs.contains(w.nodes[k].id))
    &&& forall|k: int|
        0 <= k < w.nodes.len() && w.stubs.contains((#[trigger] w.nodes[k]).id) ==> one_pin(
            w.nodes[k],
        )
    &&& forall|x: u32| #[trigger]
        w.stubs.contains(x) ==> exists|k: int|
            0 <= k < w.nodes.len() && (#[trigger] w.nodes[k]).id == x
    &&& forall|x: u32| #[trigger] w.emitted_pins.contains(x) <==> pin_shown(w.nodes, x)
    &&& tidy(w.wires, w.emitted_pins)
}

/// Whether two walks have the same canvas.
pub open spec fn same_canvas(w: WalkV, v: WalkV) -> bool {
    &&& w.nodes == v.nodes
    &&& w.emitted == v.emitted
    &&& w.stubs == v.stubs
    &&& w.emitted_pins == v.emitted_pins
    &&& w.wires == v.wires
}

pub(crate) proof fn lemma_stub_pin(w: WalkV, x: u32)
    requires
        sound(w),
        w.stubs.contains(x),
    ensures
        w.emitted_pins.contains(x),
{
    let k = choose|k: int| 0 <= k < w.nodes.len() && (#[trigger] w.nodes[k]).id == x;
    assert(one_pin(w.nodes[k]));
    assert(w.nodes[k].ports[0].id == x);
    assert(has_pin(w.nodes[k].ports, x));
    assert(pin_shown(w.nodes, x));
}

proof fn lemma_added_pins(w: WalkV, b: NodeV)
    requires
        forall|x: u32| #[trigger] w.emitted_pins.contains(x) <==> pin_shown(w.nodes, x),
    ensures
        forall|x: u32| #[trigger]
            added(w, b).emitted_pins.contains(x) <==> pin_shown(added(w, b).nodes, x),
        w.emitted_pins.subset_of(added(w, b).emitted_pins),
        forall|x: u32| has_pin(b.ports, x) ==> #[trigger] added(w, b).emitted_pins.contains(x),
{
    let v = added(w, b);
    assert forall|x: u32| #[trigger] v.emitted_pins.contains(x) <==> pin_shown(v.nodes, x) by {
        if pin_shown(w.nodes, x) {
            let k = choose|k: int|
                0 <= k < w.nodes.len() && has_pin((#[trigger] w.nodes[k]).ports, x);
            assert(has_pin(v.nodes[k].ports, x));
        }
        if has_pin(b.ports, x) {
            assert(has_pin(v.nodes[w.nodes.len() as int].ports, x));
        }
        if pin_shown(v.nodes, x) {
            let k = choose|k: int|
                0 <= k < v.nodes.len() && has_pin((#[trigger] v.nodes[k]).ports, x);
            if k < w.nodes.len() {
                assert(has_pin(w.nodes[k].ports, x));
            }
        }
    }
}

/// Drawing a box that is not drawn yet keeps the canvas in order.
proof fn lemma_box_added(w: WalkV, b: NodeV)
    requires
        sound(w),
        !w.emitted.contains(b.id),
        !w.stubs.contains(b.id),
    ensures
        ({
            let v = WalkV { emitted: w.emitted.insert(b.id), ..added(w, b) };
            &&& sound(v)
            &&& w.emitted_pins.subset_of(v.emitted_pins)
            &&& forall|x: u32| has_pin(b.ports, x) ==> #[trigger] v.emitted_pins.contains(x)
        }),
{
    let v = WalkV { emitted: w.emitted.insert(b.id), ..added(w, b) };
    lemma_added_pins(w, b);
    lemma_tidy_grows(w.wires, w.emitted_pins, v.emitted_pins);
    assert forall|x: u32| #[trigger] v.stubs.contains(x) implies exists|k: int|
        0 <= k < v.nodes.len() && (#[trigger] v.nodes[k]).id == x by {
        assert(w.stubs.contains(x));
        let k = choose|k: int| 0 <= k < w.nodes.len() && (#[trigger] w.nodes[k]).id == x;
        assert(v.nodes[k].id == x);
    }
}

/// A stand-in that is not drawn yet keeps the canvas in order.
proof fn lemma_stub_added(d: Document, id: u32, side: Side, w: WalkV)
    requires
        sound(w),
        !w.emitted.contains(id),
        !w.stubs.contains(id),
    ensures
        sound(stood_up(d, id, side, w)),
        w.emitted_pins.subset_of(stood_up(d, id, side, w).emitted_pins),
{
    match stub_box(d, id, side) {
        Some(b) => {
            let v = stood_up(d, id, side, w);
            lemma_added_pins(w, b);
            lemma_tidy_grows(w.wires, w.emitted_pins, v.emitted_pins);
            assert(v.nodes[w.nodes.len() as int].id == id);
            assert(one_pin(b));
            assert forall|x: u32| #[trigger] v.stubs.contains(x) implies exists|k: int|
                0 <= k < v.nodes.len() && (#[trigger] v.nodes[k]).id == x by {
                if x != id {
                    assert(w.stubs.contains(x));
                    let k = choose|k: int| 0 <= k < w.nodes.len() && (#[trigger] w.nodes[k]).id == x;
                    assert(v.nodes[k].id == x);
                }
            }
            assert forall|k: int|
                0 <= k < v.nodes.len() && v.stubs.contains((#[trigger] v.nodes[k]).id) implies one_pin(
                v.nodes[k],
            ) by {
                if k < w.nodes.len() {
                    assert(v.nodes[k] == w.nodes[k]);
                    assert(w.emitted.contains(w.nodes[k].id) || w.stubs.contains(w.nodes[k].id));
                }
            }
        },
        None => {},
    }
}

proof fn lemma_same_canvas(w: WalkV, v: WalkV)
    requires
        sound(w),
        same_canvas(w, v),
    ensures
        sound(v),
{
}

proof fn lemma_enqueued_all(g: SignalV, ids: Seq<u32>, n: nat, w: WalkV)
    ensures
        same_canvas(w, enqueued_all(g, ids, n, w)),
    decreases n,
{
    if n > 0 {
        lemma_enqueued_all(g, ids, (n - 1) as nat, w);
    }
}

proof fn lemma_through_box(d: Document, p: Projection, g: SignalV, bx: u32, n: nat, w: WalkV)
    ensures
        same_canvas(w, through_box(d, p, g, bx, n, w)),
    decreases n,
{
    if n > 0 {
        lemma_through_box(d, p, g, bx, (n - 1) as nat, w);
    }
}

proof fn lemma_past_box(d: Document, s: StepV, g: SignalV, bx: u32, other: u32, w: WalkV)
    ensures
        same_canvas(w, past_box(d, s, g, bx, other, w)),
{
    lemma_enqueued_all(g, group_at(d, other), group_at(d, other).len(), w);
    lemma_through_box(d, s.projection, g, bx, incident(d, bx).len(), w);
    lemma_through_box(
        d,
        s.projection,
        g,
        bx,
        incident(d, bx).len(),
        enqueued_all(g, group_at(d, other), group_at(d, other).len(), w),
    );
}

/// What is drawn for a node has its id.
pub proof fn lemma_drawn_id(d: Document, bx: u32, scope: Seq<char>, p: Seq<(u32, u32)>)
    ensures
        drawn(d, bx, scope, p).0 is Some ==> drawn(d, bx, scope, p).0->0.id == bx && drawn(
            d,
            bx,
            scope,
            p,
        ).0->0.parent is None,
{
}

/// Whether a far end is what a walk can take: its box is new, and its pin is on it or drawn.
spec fn far_fits(f: FarV, w: WalkV) -> bool {
    &&& f.fresh is Some ==> f.bx == Some(f.fresh->0.id) && !w.emitted.contains(f.fresh->0.id)
        && !w.stubs.contains(f.fresh->0.id) && f.pin is Some
    &&& f.pin is Some ==> w.emitted_pins.contains(f.pin->0) || (f.fresh is Some && has_pin(
        f.fresh->0.ports,
        f.pin->0,
    ))
}

proof fn lemma_on_box(d: Document, s: StepV, other: u32, e: Edge, w: WalkV)
    ensures
        same_canvas(w, on_box(d, s, other, e, w).1),
        far_fits(on_box(d, s, other, e, w).0, w),
{
    match crate::schematic::reach::box_around(d, other, s.projection) {
        Some((bx, scope)) => {
            lemma_drawn_id(d, bx, scope_path(d, scope, s.root), w.pins);
        },
        None => {},
    }
}

proof fn lemma_free_anchor(d: Document, p: Projection, node: u32, side: Side, w: WalkV)
    requires
        sound(w),
    ensures
        sound(free_anchor(d, p, node, side, w).1),
        w.emitted_pins.subset_of(free_anchor(d, p, node, side, w).1.emitted_pins),
        free_anchor(d, p, node, side, w).0 is Some ==> free_anchor(
            d,
            p,
            node,
            side,
            w,
        ).1.emitted_pins.contains(free_anchor(d, p, node, side, w).0->0),
{
    let far = group_at(d, node)[0];
    let (r, v) = free_anchor(d, p, node, side, w);
    if !w.stubs.contains(far) && !w.emitted.contains(far) {
        lemma_stub_added(d, far, side, w);
    }
    if r is Some {
        lemma_stub_pin(v, far);
    }
}

/// Whether the ends that were gathered are drawn.
pub open spec fn gathered_shown(a: GatheredV, shown: Set<u32>) -> bool {
    ends_shown(a.drivers, shown) && ends_shown(a.loads, shown)
}

proof fn lemma_seed_wired(
    d: Document,
    s: StepV,
    g: SignalV,
    scope: u32,
    near: u32,
    e: Edge,
    pin: u32,
    w: WalkV,
)
    requires
        sound(w),
        w.emitted_pins.contains(pin),
    ensures
        sound(seed_wired(d, s, g, scope, near, e, pin, w)),
        seed_wired(d, s, g, scope, near, e, pin, w).emitted_pins == w.emitted_pins,
{
    let (np, p) = pin_for(d, scope, s.projection, g.rep, near, e, w.pins);
    if w.emitted_pins.contains(np) {
        let (dp, lp) = if leaves(e, near) {
            (np, pin)
        } else {
            (pin, np)
        };
        lemma_joined_all(
            node_at(d, g.rep),
            s.root,
            seq![(dp, e.select)],
            seq![(lp, e.select)],
            1,
            w.wires,
            w.emitted_pins,
        );
    }
}

proof fn lemma_edge_taken(
    d: Document,
    s: StepV,
    g: SignalV,
    near: u32,
    e: Edge,
    f: FarV,
    pin: u32,
    a: GatheredV,
    w: WalkV,
)
    requires
        sound(w),
        far_fits(f, w),
        gathered_shown(a, w.emitted_pins),
        f.pin is Some ==> f.pin == Some(pin),
        f.pin is None ==> w.emitted_pins.contains(pin),
    ensures
        ({
            let (b, v) = edge_taken(d, s, g, near, e, f, pin, a, w);
            &&& sound(v)
            &&& gathered_shown(b, v.emitted_pins)
            &&& w.emitted_pins.subset_of(v.emitted_pins)
        }),
{
    let w1 = match f.fresh {
        Some(b) => match f.bx {
            Some(bx) => WalkV { emitted: w.emitted.insert(bx), ..added(w, b) },
            None => added(w, b),
        },
        None => w,
    };
    match f.fresh {
        Some(b) => {
            lemma_box_added(w, b);
        },
        None => {},
    }
    assert(sound(w1));
    assert(w.emitted_pins.subset_of(w1.emitted_pins));
    assert(w1.emitted_pins.contains(pin));
    let w2 = match g.seed_scope {
        Some(scope) => seed_wired(d, s, g, scope, near, e, pin, w1),
        None => w1,
    };
    match g.seed_scope {
        Some(scope) => {
            lemma_seed_wired(d, s, g, scope, near, e, pin, w1);
        },
        None => {},
    }
    let other = far_end(e, near);
    match f.bx {
        Some(bx) => {
            lemma_past_box(d, s, g, bx, other, w2);
        },
        None => {},
    }
    let (b, v) = edge_taken(d, s, g, near, e, f, pin, a, w);
    assert(same_canvas(w2, v));
    assert(gathered_shown(b, v.emitted_pins)) by {
        assert forall|k: int| 0 <= k < b.drivers.len() implies v.emitted_pins.contains(
            (#[trigger] b.drivers[k]).0,
        ) by {
            if k < a.drivers.len() {
                assert(w.emitted_pins.contains(a.drivers[k].0));
            }
        }
        assert forall|k: int| 0 <= k < b.loads.len() implies v.emitted_pins.contains(
            (#[trigger] b.loads[k]).0,
        ) by {
            if k < a.loads.len() {
                assert(w.emitted_pins.contains(a.loads[k].0));
            }
        }
    }
}

proof fn lemma_gathered_grows(a: GatheredV, shown: Set<u32>, more: Set<u32>)
    requires
        gathered_shown(a, shown),
        shown.subset_of(more),
    ensures
        gathered_shown(a, more),
{
}

proof fn lemma_edge_step(
    d: Document,
    s: StepV,
    g: SignalV,
    near: u32,
    e: Edge,
    a: GatheredV,
    w: WalkV,
)
    requires
        sound(w),
        gathered_shown(a, w.emitted_pins),
    ensures
        ({
            let (b, v) = edge_step(d, s, g, near, e, a, w);
            &&& sound(v)
            &&& gathered_shown(b, v.emitted_pins)
        }),
{
    let other = far_end(e, near);
    let (f, w1) = on_box(d, s, other, e, w);
    lemma_on_box(d, s, other, e, w);
    lemma_same_canvas(w, w1);
    if !f.stop {
        let side = if leaves(e, near) {
            Side::West
        } else {
            Side::East
        };
        match f.pin {
            Some(p) => {
                lemma_edge_taken(d, s, g, near, e, f, p, a, w1);
            },
            None => {
                lemma_free_anchor(d, s.projection, other, side, w1);
                let (pin, w2) = free_anchor(d, s.projection, other, side, w1);
                lemma_gathered_grows(a, w1.emitted_pins, w2.emitted_pins);
                match pin {
                    Some(p) => {
                        lemma_edge_taken(d, s, g, near, e, f, p, a, w2);
                    },
                    None => {
                        lemma_same_canvas(w2, enqueued(g, other, w2));
                    },
                }
            },
        }
    }
}

pub(crate) proof fn lemma_edges_step(d: Document, s: StepV, g: SignalV, at: Seq<u32>, n: nat, w: WalkV)
    requires
        sound(w),
    ensures
        sound(edges_step(d, s, g, at, n, w).1),
        gathered_shown(
            edges_step(d, s, g, at, n, w).0,
            edges_step(d, s, g, at, n, w).1.emitted_pins,
        ),
    decreases n,
{
    if n > 0 {
        lemma_edges_step(d, s, g, at, (n - 1) as nat, w);
        let (a, v) = edges_step(d, s, g, at, (n - 1) as nat, w);
        let e = edge_at(d, at[n - 1]);
        lemma_edge_step(d, s, g, near_end(g, e), e, a, v);
    }
}

proof fn lemma_stub_step(d: Document, s: StepV, g: SignalV, a: GatheredV, w: WalkV)
    requires
        sound(w),
        g.members.len() > 0,
        g.rep == g.members[0],
    ensures
        sound(stub_step(d, s, g, a, w).1),
        w.emitted_pins.subset_of(stub_step(d, s, g, a, w).1.emitted_pins),
        stub_step(d, s, g, a, w).0 is Some ==> stub_step(d, s, g, a, w).1.emitted_pins.contains(
            stub_step(d, s, g, a, w).0->0,
        ),
{
    if wants_stub(d, s, g, a, w) {
        assert(!w.emitted.contains(g.members[0]));
        if !w.stubs.contains(g.rep) {
            lemma_stub_added(
                d,
                g.rep,
                if a.drivers.len() == 0 {
                    Side::East
                } else {
                    Side::West
                },
                w,
            );
        }
        let (r, v) = stub_step(d, s, g, a, w);
        if r is Some {
            lemma_stub_pin(v, g.rep);
        }
    }
}

proof fn lemma_join_step(
    d: Document,
    s: StepV,
    g: SignalV,
    stub: Option<u32>,
    a: GatheredV,
    w: WiresV,
    shown: Set<u32>,
)
    requires
        tidy(w, shown),
        gathered_shown(a, shown),
        stub is Some ==> shown.contains(stub->0),
    ensures
        tidy(join_step(d, s, g, stub, a, w), shown),
{
    let sig = node_at(d, g.rep);
    match stub {
        Some(p) => {
            let mid: Seq<Anchor> = seq![(p, None)];
            assert(ends_shown(mid, shown));
            lemma_joined_all(sig, s.root, mid, a.loads, 1, w, shown);
            lemma_joined_all(sig, s.root, a.drivers, mid, a.drivers.len(), w, shown);
            lemma_joined_all(
                sig,
                s.root,
                mid,
                a.loads,
                1,
                joined_all(sig, s.root, a.drivers, mid, a.drivers.len(), w),
                shown,
            );
        },
        None => {
            lemma_joined_all(sig, s.root, a.drivers, a.loads, a.drivers.len(), w, shown);
        },
    }
}

pub(crate) proof fn lemma_signal_step(d: Document, s: StepV, g: SignalV, w: WalkV)
    requires
        sound(w),
        g.members.len() > 0,
        g.rep == g.members[0],
    ensures
        sound(signal_step(d, s, g, w)),
{
    let at = touching(d.edges@, g.members.to_set());
    lemma_edges_step(d, s, g, at, at.len(), w);
    let (a, w1) = edges_step(d, s, g, at, at.len(), w);
    lemma_stub_step(d, s, g, a, w1);
    let (stub, w2) = stub_step(d, s, g, a, w1);
    let w3 = report_step(stub, a, w2);
    lemma_same_canvas(w2, w3);
    lemma_gathered_grows(a, w1.emitted_pins, w3.emitted_pins);
    lemma_join_step(d, s, g, stub, a, w3.wires, w3.emitted_pins);
}

pub(crate) proof fn lemma_hop(d: Document, s: StepV, frontier: Seq<u32>, n: nat, w: WalkV)
    requires
        sound(w),
    ensures
        sound(hop(d, s, frontier, n, w).1),
    decreases n,
{
    if n == 0 {
        lemma_same_canvas(w, WalkV { next: Seq::empty(), ..w });
    } else {
        lemma_hop(d, s, frontier, (n - 1) as nat, w);
        let (done, v) = hop(d, s, frontier, (n - 1) as nat, w);
        let g = signal_of(d, frontier[n - 1], v);
        lemma_group(d, frontier[n - 1]);
        let u = WalkV { visited: v.visited.union(g.members.to_set()), ..v };
        lemma_same_canvas(v, u);
        lemma_signal_step(d, s, g, u);
    }
}

pub(crate) proof fn lemma_hops(d: Document, s: StepV, frontier: Seq<u32>, k: nat, w: WalkV)
    requires
        sound(w),
    ensures
        sound(hops(d, s, frontier, k, w)),
    decreases k,
{
    if k > 0 {
        lemma_hop(d, s, frontier, frontier.len(), w);
        let v = hop(d, s, frontier, frontier.len(), w).1;
        lemma_hops(d, s, v.next, (k - 1) as nat, v);
    }
}

proof fn lemma_box_seeded(d: Document, s: StepV, bx: u32, scope: u32, w: WalkV)
    requires
        sound(w),
    ensures
        sound(box_seeded(d, s, bx, scope, w)),
{
    let v = WalkV { box_seeds: w.box_seeds.insert(bx, scope), ..w };
    lemma_same_canvas(w, v);
    if !v.emitted.contains(bx) && !v.stubs.contains(bx) {
        let (b, p) = drawn(d, bx, scope_path(d, scope, s.root), v.pins);
        lemma_drawn_id(d, bx, scope_path(d, scope, s.root), v.pins);
        let q = WalkV { pins: p, ..v };
        lemma_same_canvas(v, q);
        match b {
            Some(n) => {
                lemma_box_added(q, n);
                let u = WalkV { emitted: q.emitted.insert(bx), ..added(q, n) };
                lemma_same_canvas(u, WalkV { seeds: u.seeds.insert(bx), ..u });
            },
            None => {
                lemma_same_canvas(q, WalkV { seeds: q.seeds.insert(bx), ..q });
            },
        }
    } else {
        lemma_same_canvas(v, WalkV { seeds: v.seeds.insert(bx), ..v });
    }
}

proof fn lemma_step_walk(
    d: Document,
    step: TraceStep,
    limits: ConeLimits,
    projection: Projection,
    root: Seq<char>,
    w: WalkV,
)
    requires
        sound(w),
    ensures
        sound(step_walk(d, step, limits, projection, root, w)),
{
    let s = budget(step, limits, projection, root);
    let (frontier, v) = match seed_box(d, step.seed, projection) {
        Some(scope) => (seq![step.seed], box_seeded(d, s, step.seed, scope, w)),
        None => (crate::schematic::reach::seeds_at(d, step.seed, step.dir), w),
    };
    match seed_box(d, step.seed, projection) {
        Some(scope) => {
            lemma_box_seeded(d, s, step.seed, scope, w);
        },
        None => {},
    }
    let u = WalkV {
        visited: v.visited.union(frontier.to_set()),
        seeds: anchored_seeds(d, frontier, frontier.len(), v.seeds),
        ..v
    };
    lemma_same_canvas(v, u);
    lemma_hops(
        d,
        s,
        frontier,
        if step.depth > 0 {
            step.depth as nat
        } else {
            1
        },
        u,
    );
}

/// However many requests a trace has, its canvas stays in order.
pub proof fn law_walks_stay_sound(
    d: Document,
    steps: Seq<TraceStep>,
    limits: ConeLimits,
    projection: Projection,
    root: Seq<char>,
    n: nat,
)
    requires
        n <= steps.len(),
    ensures
        sound(steps_walk(d, steps, limits, projection, root, n)),
    decreases n,
{
    if n > 0 {
        law_walks_stay_sound(d, steps, limits, projection, root, (n - 1) as nat);
        lemma_step_walk(
            d,
            steps[n - 1],
            limits,
            projection,
            root,
            steps_walk(d, steps, limits, projection, root, (n - 1) as nat),
        );
    }
}

} // verus!
