//! Where traces go: along every edge that was asked for, and along no other.

use crate::model::{at_path, children_at, edge_at, node_at, touching, Dir};
use crate::model::{Document, Edge, NodeKind};
use crate::model_laws::{
    law_groups_list_their_edges, law_nodes_list_their_edges, law_paths_list_their_nodes,
};
use crate::order::{ascending, lemma_ascending};
use crate::schematic::box_laws::{
    extends, is_logic, is_primitive, law_instances_have_a_pin_for_each_port,
    law_logic_has_a_pin_for_each_edge, law_primitives_have_inputs_and_a_result, lemma_drawn_extends,
    lemma_pin_kept, lemma_with_pin,
};
use crate::schematic::boxes::drawn;
use crate::schematic::budget_laws::{
    lemma_anchored, lemma_boxed, lemma_boxed_kind, lemma_boxes_are_no_signals, lemma_rep, listed,
};
use crate::schematic::hierarchy::lies_in;
use crate::schematic::join_laws::{all_drawn, joins, lemma_joined_all};
use crate::schematic::kinds::{boxes_in, boxes_of, folded};
use crate::schematic::level_laws::lemma_box_around;
use crate::schematic::pins::{lemma_slot, pair_of, pin_id, Pins, LOGIC_PIN_BASE};
use crate::schematic::reach::{
    box_around, box_up, far_end, followed, group_at, leaves, pin_for, seeds_at, siblings, signal_at,
};
use crate::schematic::scope::has_pin;
use crate::schematic::trace::{
    anchored_seeds, apart, blank, box_seeded, budget, contained, counted, filled, finished,
    has_box, pruned, seed_box, showing, step_walk, steps_walk, trace_root, traced, unhooked,
    wanted, with_containers, with_parents, ContainedV,
};
use crate::schematic::trace_laws::counts;
use crate::schematic::types::{ConeLimits, EdgeV, NodeV, PortV, Projection, Side, TraceStep};
use crate::schematic::walk::{
    added, edge_step, edge_taken, edges_step, enqueued_all, free_anchor, hop, hops, join_step,
    near_end, on_box, past_box, report_step, scope_path, seed_wired, signal_of, signal_step,
    stub_step, through_box, FarV, GatheredV, SignalV, StepV, WalkV,
};
use crate::schematic::walk_laws::{law_walks_stay_sound, sound};
use crate::schematic::wires::WiresV;
use vstd::prelude::*;

verus! {

// --- What is asked for --------------------------------------------------------

/// Whether a node is a port, a net or a variable.
pub open spec fn is_wire(d: Document, id: u32) -> bool {
    id < d.nodes@.len() && match d.nodes@[id as int].kind {
        NodeKind::Port | NodeKind::Net | NodeKind::Var => true,
        _ => false,
    }
}

/// Whether nodes have their positions as ids.
pub open spec fn in_order(d: Document) -> bool {
    forall|i: int| 0 <= i < d.nodes@.len() ==> (#[trigger] d.nodes@[i]).id == i
}

/// Whether an edge runs between two nodes.
pub open spec fn runs_between(e: Edge, a: u32, b: u32) -> bool {
    (e.port == a && e.endpoint == b) || (e.port == b && e.endpoint == a)
}

/// Whether an edge is asked for from its `near` end: by a fan-out where it carries a value
/// away from that end, by a fan-in where it brings one, and in any case where both ways are
/// asked for.
pub open spec fn asked(e: Edge, near: u32, dir: Dir) -> bool {
    match dir {
        Dir::Inout => true,
        Dir::Out => (e.port == near) == (e.dir == Dir::Out),
        Dir::In => (e.port == near) != (e.dir == Dir::Out),
    }
}

// --- Complete boxes -----------------------------------------------------------

/// Whether pins are all that a box of the node has: one for each edge of logic, one for each
/// input of a primitive and one for its result, and one for each port of an instance.
spec fn full(d: Document, bx: u32, ports: Seq<PortV>, p: Pins) -> bool {
    &&& is_logic(d, bx) && d.nodes@[bx as int].kind != NodeKind::Memory ==> forall|i: int|
        0 <= i < d.edges@.len() && (#[trigger] d.edges@[i]).port == bx ==> p.contains(
            (bx, d.edges@[i].endpoint),
        ) && has_pin(ports, pin_id(p, bx, d.edges@[i].endpoint))
    &&& is_primitive(d, bx) ==> forall|i: int|
        0 <= i < d.edges@.len() && (#[trigger] d.edges@[i]).port == bx ==> p.contains((bx, bx))
            && has_pin(ports, pin_id(p, bx, bx)) && (d.edges@[i].dir != Dir::Out ==> p.contains(
            (bx, folded(d, d.edges@[i].endpoint).0),
        ) && has_pin(ports, pin_id(p, bx, folded(d, d.edges@[i].endpoint).0)))
    &&& bx < d.nodes@.len() && d.nodes@[bx as int].kind == NodeKind::Instance ==> forall|c: u32|
        #[trigger] d.nodes@[bx as int].children@.contains(c) && c < d.nodes@.len()
            && d.nodes@[c as int].kind == NodeKind::Port ==> has_pin(ports, c)
}

proof fn lemma_drawn_full(d: Document, bx: u32, scope: Seq<char>, p: Pins)
    requires
        p.no_duplicates(),
        d.edges@.len() <= 0x1_0000_0000,
        drawn(d, bx, scope, p).0 is Some,
    ensures
        full(d, bx, drawn(d, bx, scope, p).0->0.ports, drawn(d, bx, scope, p).1),
        extends(p, drawn(d, bx, scope, p).1),
{
    let (b, q) = drawn(d, bx, scope, p);
    let ports = b->0.ports;
    lemma_drawn_extends(d, bx, scope, p);
    if is_logic(d, bx) && d.nodes@[bx as int].kind != NodeKind::Memory {
        assert forall|i: int|
            0 <= i < d.edges@.len() && (#[trigger] d.edges@[i]).port == bx implies q.contains(
            (bx, d.edges@[i].endpoint),
        ) && has_pin(ports, pin_id(q, bx, d.edges@[i].endpoint)) by {
            law_logic_has_a_pin_for_each_edge(d, bx, scope, p, i);
        }
    }
    if is_primitive(d, bx) {
        assert forall|i: int|
            0 <= i < d.edges@.len() && (#[trigger] d.edges@[i]).port == bx implies q.contains(
            (bx, bx),
        ) && has_pin(ports, pin_id(q, bx, bx)) && (d.edges@[i].dir != Dir::Out ==> q.contains(
            (bx, folded(d, d.edges@[i].endpoint).0),
        ) && has_pin(ports, pin_id(q, bx, folded(d, d.edges@[i].endpoint).0))) by {
            law_primitives_have_inputs_and_a_result(d, bx, scope, p, i);
            assert(ports[ports.len() - 1].id == pin_id(q, bx, bx));
        }
    }
    if bx < d.nodes@.len() && d.nodes@[bx as int].kind == NodeKind::Instance {
        assert forall|c: u32|
            #[trigger] d.nodes@[bx as int].children@.contains(c) && c < d.nodes@.len()
                && d.nodes@[c as int].kind == NodeKind::Port implies has_pin(ports, c) by {
            law_instances_have_a_pin_for_each_port(d, bx, scope, p, c);
        }
    }
}

proof fn lemma_full_kept(d: Document, bx: u32, ports: Seq<PortV>, p: Pins, q: Pins)
    requires
        full(d, bx, ports, p),
        p.no_duplicates(),
        extends(p, q),
    ensures
        full(d, bx, ports, q),
{
    assert forall|s: u32| p.contains((bx, s)) implies q.contains((bx, s)) && pin_id(q, bx, s)
        == #[trigger] pin_id(p, bx, s) by {
        lemma_pin_kept(p, q, bx, s);
    }
    if is_logic(d, bx) && d.nodes@[bx as int].kind != NodeKind::Memory {
        assert forall|i: int|
            0 <= i < d.edges@.len() && (#[trigger] d.edges@[i]).port == bx implies q.contains(
            (bx, d.edges@[i].endpoint),
        ) && has_pin(ports, pin_id(q, bx, d.edges@[i].endpoint)) by {
            assert(pin_id(q, bx, d.edges@[i].endpoint) == pin_id(p, bx, d.edges@[i].endpoint));
        }
    }
    if is_primitive(d, bx) {
        assert forall|i: int|
            0 <= i < d.edges@.len() && (#[trigger] d.edges@[i]).port == bx implies q.contains(
            (bx, bx),
        ) && has_pin(ports, pin_id(q, bx, bx)) && (d.edges@[i].dir != Dir::Out ==> q.contains(
            (bx, folded(d, d.edges@[i].endpoint).0),
        ) && has_pin(ports, pin_id(q, bx, folded(d, d.edges@[i].endpoint).0))) by {
            let sig = folded(d, d.edges@[i].endpoint).0;
            assert(pin_id(q, bx, bx) == pin_id(p, bx, bx));
            assert(d.edges@[i].dir != Dir::Out ==> pin_id(q, bx, sig) == pin_id(p, bx, sig));
        }
    }
}

// --- Walks that go on ---------------------------------------------------------

/// Whether a box is on the canvas with all of its pins.
spec fn stands(d: Document, nodes: Seq<NodeV>, bx: u32, p: Pins) -> bool {
    exists|k: int|
        0 <= k < nodes.len() && (#[trigger] nodes[k]).id == bx && full(d, bx, nodes[k].ports, p)
}

/// Whether the boxes that a walk counts as drawn are on the canvas with all of their pins,
/// are no signals and no stand-ins, and each pair of pins that counts as joined has a wire.
spec fn whole(d: Document, w: WalkV) -> bool {
    &&& w.pins.no_duplicates()
    &&& forall|x: u32| #[trigger]
        w.emitted.contains(x) ==> stands(d, w.nodes, x, w.pins) && !signal_at(d, x)
            && !w.stubs.contains(x)
    &&& all_drawn(w.wires)
}

/// Whether one walk goes on from another: it loses nothing.
spec fn grows(w: WalkV, v: WalkV) -> bool {
    &&& extends(w.pins, v.pins)
    &&& w.nodes.len() <= v.nodes.len()
    &&& forall|k: int| 0 <= k < w.nodes.len() ==> #[trigger] v.nodes[k] == w.nodes[k]
    &&& w.emitted.subset_of(v.emitted)
    &&& w.stubs.subset_of(v.stubs)
    &&& w.wires.seen.subset_of(v.wires.seen)
    &&& w.truncated ==> v.truncated
    &&& w.seeds.subset_of(v.seeds)
}

/// Whether one walk goes on from another within a request, and stays whole.
spec fn goes_on(d: Document, w: WalkV, v: WalkV) -> bool {
    &&& grows(w, v)
    &&& whole(d, v)
    &&& v.seeds == w.seeds
    &&& v.box_seeds == w.box_seeds
}

proof fn lemma_grows(u: WalkV, v: WalkV, w: WalkV)
    requires
        grows(u, v),
        grows(v, w),
    ensures
        grows(u, w),
{
    assert forall|k: int| 0 <= k < u.nodes.len() implies #[trigger] w.nodes[k] == u.nodes[k] by {
        assert(v.nodes[k] == u.nodes[k]);
    }
    assert forall|k: int| 0 <= k < u.pins.len() implies #[trigger] w.pins[k] == u.pins[k] by {
        assert(v.pins[k] == u.pins[k]);
    }
}

proof fn lemma_stands_kept(d: Document, w: WalkV, v: WalkV, bx: u32)
    requires
        stands(d, w.nodes, bx, w.pins),
        w.pins.no_duplicates(),
        grows(w, v),
    ensures
        stands(d, v.nodes, bx, v.pins),
{
    let k = choose|k: int|
        0 <= k < w.nodes.len() && (#[trigger] w.nodes[k]).id == bx && full(
            d,
            bx,
            w.nodes[k].ports,
            w.pins,
        );
    assert(v.nodes[k] == w.nodes[k]);
    lemma_full_kept(d, bx, w.nodes[k].ports, w.pins, v.pins);
}

/// A walk that goes on with the same boxes stays whole.
proof fn lemma_same_boxes(d: Document, w: WalkV, v: WalkV)
    requires
        whole(d, w),
        grows(w, v),
        v.emitted == w.emitted,
        v.stubs == w.stubs,
        all_drawn(v.wires),
    ensures
        whole(d, v),
{
    assert forall|x: u32| #[trigger] v.emitted.contains(x) implies stands(d, v.nodes, x, v.pins)
        && !signal_at(d, x) && !v.stubs.contains(x) by {
        lemma_stands_kept(d, w, v, x);
    }
}

proof fn lemma_enqueued_all(g: SignalV, ids: Seq<u32>, n: nat, w: WalkV)
    ensures
        enqueued_all(g, ids, n, w) == (WalkV {
            visited: enqueued_all(g, ids, n, w).visited,
            next: enqueued_all(g, ids, n, w).next,
            ..w
        }),
    decreases n,
{
    if n > 0 {
        lemma_enqueued_all(g, ids, (n - 1) as nat, w);
    }
}

proof fn lemma_through_box(d: Document, p: Projection, g: SignalV, bx: u32, n: nat, w: WalkV)
    ensures
        through_box(d, p, g, bx, n, w) == (WalkV {
            visited: through_box(d, p, g, bx, n, w).visited,
            next: through_box(d, p, g, bx, n, w).next,
            ..w
        }),
    decreases n,
{
    if n > 0 {
        lemma_through_box(d, p, g, bx, (n - 1) as nat, w);
    }
}

pub(crate) proof fn lemma_past_box(d: Document, s: StepV, g: SignalV, bx: u32, other: u32, w: WalkV)
    ensures
        past_box(d, s, g, bx, other, w) == (WalkV {
            visited: past_box(d, s, g, bx, other, w).visited,
            next: past_box(d, s, g, bx, other, w).next,
            ..w
        }),
{
    let all = group_at(d, other);
    let n = crate::model::incident(d, bx).len();
    lemma_enqueued_all(g, all, all.len(), w);
    lemma_through_box(d, s.projection, g, bx, n, w);
    lemma_through_box(d, s.projection, g, bx, n, enqueued_all(g, all, all.len(), w));
}

/// What a far end on a box is known to be.
spec fn far_known(d: Document, f: FarV, w: WalkV) -> bool {
    f.fresh is Some ==> f.bx is Some && f.pin is Some && f.fresh->0.id == f.bx->0 && full(
        d,
        f.bx->0,
        f.fresh->0.ports,
        w.pins,
    ) && !signal_at(d, f.bx->0) && !w.stubs.contains(f.bx->0)
}

proof fn lemma_pin_for(
    d: Document,
    scope: u32,
    projection: Projection,
    bx: u32,
    inner: u32,
    e: Edge,
    p: Pins,
)
    requires
        p.no_duplicates(),
    ensures
        extends(p, pin_for(d, scope, projection, bx, inner, e, p).1),
{
    lemma_with_pin(p, bx, e.endpoint);
    lemma_with_pin(p, bx, bx);
    lemma_with_pin(p, bx, folded(d, e.endpoint).0);
}

proof fn lemma_on_box(d: Document, s: StepV, other: u32, e: Edge, w: WalkV)
    requires
        whole(d, w),
        d.edges@.len() <= 0x1_0000_0000,
    ensures
        goes_on(d, w, on_box(d, s, other, e, w).1),
        on_box(d, s, other, e, w).1.stubs == w.stubs,
        on_box(d, s, other, e, w).1.emitted == w.emitted,
        on_box(d, s, other, e, w).1.nodes == w.nodes,
        far_known(d, on_box(d, s, other, e, w).0, on_box(d, s, other, e, w).1),
{
    match box_around(d, other, s.projection) {
        Some((bx, scope)) => {
            lemma_box_around(d, other, s.projection);
            lemma_boxed(d, s.projection, bx);
            let path = scope_path(d, scope, s.root);
            let (b, p) = drawn(d, bx, path, w.pins);
            lemma_drawn_extends(d, bx, path, w.pins);
            lemma_pin_for(d, scope, s.projection, bx, other, e, w.pins);
            lemma_pin_for(d, scope, s.projection, bx, other, e, p);
            if b is Some {
                lemma_drawn_full(d, bx, path, w.pins);
                crate::schematic::walk_laws::lemma_drawn_id(d, bx, path, w.pins);
                lemma_full_kept(
                    d,
                    bx,
                    b->0.ports,
                    p,
                    pin_for(d, scope, s.projection, bx, other, e, p).1,
                );
            }
        },
        None => {},
    }
    let v = on_box(d, s, other, e, w).1;
    assert(extends(w.pins, v.pins));
    lemma_same_boxes(d, w, v);
}

proof fn lemma_free_anchor(d: Document, p: Projection, node: u32, side: Side, w: WalkV)
    requires
        whole(d, w),
    ensures
        goes_on(d, w, free_anchor(d, p, node, side, w).1),
        forall|x: u32| #[trigger]
            free_anchor(d, p, node, side, w).1.stubs.contains(x) ==> w.stubs.contains(x)
                || signal_at(d, x),
        free_anchor(d, p, node, side, w).1.emitted == w.emitted,
{
    let v = free_anchor(d, p, node, side, w).1;
    if signal_at(d, node) {
        let far = group_at(d, node)[0];
        lemma_rep(d, node);
        assert forall|x: u32| #[trigger] v.emitted.contains(x) implies stands(
            d,
            v.nodes,
            x,
            v.pins,
        ) && !signal_at(d, x) && !v.stubs.contains(x) by {
            lemma_stands_kept(d, w, v, x);
        }
    }
}

proof fn lemma_wired_all(
    sig: Option<crate::model::Node>,
    scope: Seq<char>,
    ds: Seq<crate::schematic::wires::Anchor>,
    ls: Seq<crate::schematic::wires::Anchor>,
    n: nat,
    w: WiresV,
)
    requires
        n <= ds.len(),
        all_drawn(w),
    ensures
        all_drawn(crate::schematic::wires::joined_all(sig, scope, ds, ls, n, w)),
        w.seen.subset_of(crate::schematic::wires::joined_all(sig, scope, ds, ls, n, w).seen),
{
    lemma_joined_all(sig, scope, ds, ls, n, w);
}

proof fn lemma_seed_wired(
    d: Document,
    s: StepV,
    g: SignalV,
    scope: u32,
    near: u32,
    e: Edge,
    pin: u32,
    w: WalkV,
)
    requires
        whole(d, w),
    ensures
        goes_on(d, w, seed_wired(d, s, g, scope, near, e, pin, w)),
        seed_wired(d, s, g, scope, near, e, pin, w).emitted == w.emitted,
        seed_wired(d, s, g, scope, near, e, pin, w).stubs == w.stubs,
        seed_wired(d, s, g, scope, near, e, pin, w).nodes == w.nodes,
{
    let (np, p) = pin_for(d, scope, s.projection, g.rep, near, e, w.pins);
    lemma_pin_for(d, scope, s.projection, g.rep, near, e, w.pins);
    let (dp, lp) = if leaves(e, near) {
        (np, pin)
    } else {
        (pin, np)
    };
    lemma_wired_all(
        node_at(d, g.rep),
        s.root,
        seq![(dp, e.select)],
        seq![(lp, e.select)],
        1,
        w.wires,
    );
    lemma_same_boxes(d, w, seed_wired(d, s, g, scope, near, e, pin, w));
}

proof fn lemma_edge_taken(
    d: Document,
    s: StepV,
    g: SignalV,
    near: u32,
    e: Edge,
    f: FarV,
    pin: u32,
    a: GatheredV,
    w: WalkV,
)
    requires
        whole(d, w),
        far_known(d, f, w),
    ensures
        ({
            let (b, v) = edge_taken(d, s, g, near, e, f, pin, a, w);
            &&& goes_on(d, w, v)
            &&& v.stubs == w.stubs
            &&& v.emitted == if f.fresh is Some {
                w.emitted.insert(f.bx->0)
            } else {
                w.emitted
            }
            &&& v.nodes == if f.fresh is Some {
                w.nodes.push(f.fresh->0)
            } else {
                w.nodes
            }
        }),
{
    let other = far_end(e, near);
    let w1 = match f.fresh {
        Some(b) => match f.bx {
            Some(bx) => WalkV { emitted: w.emitted.insert(bx), ..added(w, b) },
            None => added(w, b),
        },
        None => w,
    };
    assert(grows(w, w1));
    assert forall|x: u32| #[trigger] w1.emitted.contains(x) implies stands(
        d,
        w1.nodes,
        x,
        w1.pins,
    ) && !signal_at(d, x) && !w1.stubs.contains(x) by {
        if w.emitted.contains(x) {
            lemma_stands_kept(d, w, w1, x);
        } else {
            assert(w1.nodes[w.nodes.len() as int] == f.fresh->0);
        }
    }
    assert(whole(d, w1));
    let w2 = match g.seed_scope {
        Some(scope) => seed_wired(d, s, g, scope, near, e, pin, w1),
        None => w1,
    };
    match g.seed_scope {
        Some(scope) => {
            lemma_seed_wired(d, s, g, scope, near, e, pin, w1);
            lemma_grows(w, w1, w2);
        },
        None => {},
    }
    if followed(e, near, s.dir) {
        match f.bx {
            Some(bx) => {
                lemma_past_box(d, s, g, bx, other, w2);
            },
            None => {},
        }
    }
    let v = edge_taken(d, s, g, near, e, f, pin, a, w).1;
    assert(grows(w2, v));
    lemma_grows(w, w2, v);
    lemma_same_boxes(d, w2, v);
}

// --- Landing ------------------------------------------------------------------

/// Whether a box on the canvas bears a pin.
pub open spec fn bears_pin(nodes: Seq<NodeV>, bx: u32, pin: u32) -> bool {
    exists|k: int|
        0 <= k < nodes.len() && (#[trigger] nodes[k]).id == bx && has_pin(nodes[k].ports, pin)
}

proof fn lemma_bears_kept(w: WalkV, v: WalkV, bx: u32, pin: u32)
    requires
        bears_pin(w.nodes, bx, pin),
        grows(w, v),
    ensures
        bears_pin(v.nodes, bx, pin),
{
    let k = choose|k: int|
        0 <= k < w.nodes.len() && (#[trigger] w.nodes[k]).id == bx && has_pin(
            w.nodes[k].ports,
            pin,
        );
    assert(v.nodes[k] == w.nodes[k]);
}

/// Whether a pin is among the ends that a signal has gathered.
spec fn gathered(a: GatheredV, pin: u32) -> bool {
    ||| exists|k: int| 0 <= k < a.drivers.len() && (#[trigger] a.drivers[k]).0 == pin
    ||| exists|k: int| 0 <= k < a.loads.len() && (#[trigger] a.loads[k]).0 == pin
}

/// Whether an edge leads from a signal to a box that has a pin for it: to logic or to a
/// primitive whose edge it is, or to a port of an instance.
spec fn leads(d: Document, projection: Projection, e: Edge, other: u32, bx: u32) -> bool {
    &&& box_around(d, other, projection) is Some
    &&& (box_around(d, other, projection)->0).0 == bx
    &&& {
        ||| is_logic(d, bx) && d.nodes@[bx as int].kind != NodeKind::Memory && other == bx
            && e.port == bx
        ||| is_primitive(d, bx) && other == bx && e.port == bx
        ||| bx < d.nodes@.len() && d.nodes@[bx as int].kind == NodeKind::Instance && other
            < d.nodes@.len() && d.nodes@[other as int].kind == NodeKind::Port
            && d.nodes@[other as int].parent == Some(bx)
            && d.nodes@[bx as int].children@.contains(other)
    }
}

/// Whether a box is drawn with a pin that was gathered.
spec fn landed(a: GatheredV, w: WalkV, bx: u32) -> bool {
    w.emitted.contains(bx) && exists|pin: u32| #[trigger]
        bears_pin(w.nodes, bx, pin) && gathered(a, pin)
}

proof fn lemma_full_pin(
    d: Document,
    scope: u32,
    projection: Projection,
    bx: u32,
    other: u32,
    i: int,
    ports: Seq<PortV>,
    p: Pins,
)
    requires
        0 <= i < d.edges@.len(),
        leads(d, projection, d.edges@[i], other, bx),
        full(d, bx, ports, p),
        p.no_duplicates(),
    ensures
        has_pin(ports, pin_for(d, scope, projection, bx, other, d.edges@[i], p).0),
{
    let e = d.edges@[i];
    if d.nodes@[bx as int].kind == NodeKind::Instance {
        reveal_with_fuel(lies_in, 2);
        assert(d.nodes@.len() > 0);
        assert(lies_in(d, other, bx, d.nodes@.len()));
        assert(crate::schematic::reach::pin_candidates(d, other, e)[0] == other);
        assert(other != bx);
    } else if is_logic(d, bx) {
        assert(p.contains((bx, e.endpoint)));
    } else {
        assert(p.contains((bx, bx)));
    }
}

/// Whether an edge of a box leads to a node that is not drawn inside a box.
spec fn beyond_box(d: Document, projection: Projection, bx: u32, y: u32) -> bool {
    exists|k: int|
        #![trigger crate::model::incident(d, bx)[k]]
        0 <= k < crate::model::incident(d, bx).len() && far_end(
            edge_at(d, crate::model::incident(d, bx)[k]),
            bx,
        ) == y && !crate::schematic::walk::tied_in(
            d,
            projection,
            edge_at(d, crate::model::incident(d, bx)[k]),
            y,
        )
}

/// Whether a walk has gone on to all that the edges of a box lead to.
spec fn behind(d: Document, projection: Projection, g: SignalV, bx: u32, w: WalkV) -> bool {
    forall|y: u32| #[trigger]
        beyond_box(d, projection, bx, y) ==> w.visited.contains(y) || g.members.contains(y)
}

/// Whether what a walk has visited is of `base` or still ahead.
spec fn onward(base: Set<u32>, w: WalkV) -> bool {
    forall|y: u32| #[trigger] w.visited.contains(y) ==> base.contains(y) || w.next.contains(y)
}

/// Whether one walk is ahead of another: it has visited as much, and has what is new ahead.
spec fn ahead(base: Set<u32>, w: WalkV, v: WalkV) -> bool {
    w.visited.subset_of(v.visited) && (onward(base, w) ==> onward(base, v))
}

proof fn lemma_enqueued_ahead(g: SignalV, id: u32, base: Set<u32>, w: WalkV)
    ensures
        ahead(base, w, crate::schematic::walk::enqueued(g, id, w)),
        crate::schematic::walk::enqueued(g, id, w).visited.contains(id) || g.members.contains(id),
{
    let v = crate::schematic::walk::enqueued(g, id, w);
    if onward(base, w) {
        assert forall|y: u32| #[trigger] v.visited.contains(y) implies base.contains(y)
            || v.next.contains(y) by {
            if w.visited.contains(y) && w.next.contains(y) {
                let k = choose|k: int| 0 <= k < w.next.len() && w.next[k] == y;
                assert(v.next[k] == y);
            } else if !w.visited.contains(y) {
                assert(v.next[w.next.len() as int] == y);
            }
        }
    }
}

proof fn lemma_all_ahead(g: SignalV, ids: Seq<u32>, n: nat, base: Set<u32>, w: WalkV)
    ensures
        ahead(base, w, enqueued_all(g, ids, n, w)),
    decreases n,
{
    if n > 0 {
        lemma_all_ahead(g, ids, (n - 1) as nat, base, w);
        lemma_enqueued_ahead(g, ids[n - 1], base, enqueued_all(g, ids, (n - 1) as nat, w));
    }
}

proof fn lemma_through_ahead(
    d: Document,
    p: Projection,
    g: SignalV,
    bx: u32,
    n: nat,
    base: Set<u32>,
    w: WalkV,
)
    requires
        n <= crate::model::incident(d, bx).len(),
    ensures
        ahead(base, w, through_box(d, p, g, bx, n, w)),
        forall|k: int|
            #![trigger crate::model::incident(d, bx)[k]]
            0 <= k < n && !crate::schematic::walk::tied_in(
                d,
                p,
                edge_at(d, crate::model::incident(d, bx)[k]),
                far_end(edge_at(d, crate::model::incident(d, bx)[k]), bx),
            ) ==> through_box(d, p, g, bx, n, w).visited.contains(
                far_end(edge_at(d, crate::model::incident(d, bx)[k]), bx),
            ) || g.members.contains(far_end(edge_at(d, crate::model::incident(d, bx)[k]), bx)),
    decreases n,
{
    if n > 0 {
        lemma_through_ahead(d, p, g, bx, (n - 1) as nat, base, w);
        let v = through_box(d, p, g, bx, (n - 1) as nat, w);
        let sig = far_end(edge_at(d, crate::model::incident(d, bx)[n - 1]), bx);
        lemma_enqueued_ahead(g, sig, base, v);
    }
}

proof fn lemma_past_ahead(
    d: Document,
    s: StepV,
    g: SignalV,
    bx: u32,
    other: u32,
    base: Set<u32>,
    w: WalkV,
)
    ensures
        ahead(base, w, past_box(d, s, g, bx, other, w)),
        behind(d, s.projection, g, bx, past_box(d, s, g, bx, other, w)),
{
    let all = group_at(d, other);
    let n = crate::model::incident(d, bx).len();
    let u = enqueued_all(g, all, all.len(), w);
    lemma_all_ahead(g, all, all.len(), base, w);
    lemma_through_ahead(d, s.projection, g, bx, n, base, w);
    lemma_through_ahead(d, s.projection, g, bx, n, base, u);
}

proof fn lemma_taken_ahead(
    d: Document,
    s: StepV,
    g: SignalV,
    near: u32,
    e: Edge,
    f: FarV,
    pin: u32,
    a: GatheredV,
    base: Set<u32>,
    w: WalkV,
)
    ensures
        ahead(base, w, edge_taken(d, s, g, near, e, f, pin, a, w).1),
        f.bx is Some && followed(e, near, s.dir) ==> behind(
            d,
            s.projection,
            g,
            f.bx->0,
            edge_taken(d, s, g, near, e, f, pin, a, w).1,
        ),
{
    let other = far_end(e, near);
    let w1 = match f.fresh {
        Some(b) => match f.bx {
            Some(bx) => WalkV { emitted: w.emitted.insert(bx), ..added(w, b) },
            None => added(w, b),
        },
        None => w,
    };
    let w2 = match g.seed_scope {
        Some(scope) => seed_wired(d, s, g, scope, near, e, pin, w1),
        None => w1,
    };
    assert(w2.visited == w.visited && w2.next == w.next);
    assert(ahead(base, w, w2));
    if followed(e, near, s.dir) {
        match f.bx {
            Some(bx) => {
                lemma_past_ahead(d, s, g, bx, other, base, w2);
            },
            None => {
                lemma_enqueued_ahead(g, other, base, w2);
            },
        }
    }
}

proof fn lemma_edge_ahead(
    d: Document,
    s: StepV,
    g: SignalV,
    near: u32,
    e: Edge,
    a: GatheredV,
    base: Set<u32>,
    w: WalkV,
)
    ensures
        ahead(base, w, edge_step(d, s, g, near, e, a, w).1),
{
    let other = far_end(e, near);
    let (f, w1) = on_box(d, s, other, e, w);
    assert(w1.visited == w.visited && w1.next == w.next);
    let side = if leaves(e, near) {
        Side::West
    } else {
        Side::East
    };
    match f.pin {
        Some(p) => {
            lemma_taken_ahead(d, s, g, near, e, f, p, a, base, w1);
        },
        None => {
            let (pin, w2) = free_anchor(d, s.projection, other, side, w1);
            assert(w2.visited == w.visited && w2.next == w.next);
            match pin {
                Some(p) => {
                    lemma_taken_ahead(d, s, g, near, e, f, p, a, base, w2);
                },
                None => {
                    lemma_enqueued_ahead(g, other, base, w2);
                },
            }
        },
    }
}

proof fn lemma_edges_ahead(
    d: Document,
    s: StepV,
    g: SignalV,
    at: Seq<u32>,
    n: nat,
    base: Set<u32>,
    w: WalkV,
)
    ensures
        ahead(base, w, edges_step(d, s, g, at, n, w).1),
    decreases n,
{
    if n > 0 {
        lemma_edges_ahead(d, s, g, at, (n - 1) as nat, base, w);
        let (a, v) = edges_step(d, s, g, at, (n - 1) as nat, w);
        let e = edge_at(d, at[n - 1]);
        lemma_edge_ahead(d, s, g, near_end(g, e), e, a, base, v);
    }
}

proof fn lemma_signal_ahead(d: Document, s: StepV, g: SignalV, base: Set<u32>, w: WalkV)
    ensures
        ahead(base, w, signal_step(d, s, g, w)),
{
    let at = touching(d.edges@, g.members.to_set());
    lemma_edges_ahead(d, s, g, at, at.len(), base, w);
    let (a, w1) = edges_step(d, s, g, at, at.len(), w);
    let w2 = stub_step(d, s, g, a, w1).1;
    assert(w2.visited == w1.visited && w2.next == w1.next);
    let v = signal_step(d, s, g, w);
    assert(v.visited == w1.visited && v.next == w1.next);
}

proof fn lemma_lands(
    d: Document,
    s: StepV,
    g: SignalV,
    near: u32,
    i: int,
    bx: u32,
    a: GatheredV,
    w: WalkV,
)
    requires
        whole(d, w),
        sound(w),
        0 <= i < d.edges@.len() <= 0xffff_ffff,
        leads(d, s.projection, d.edges@[i], far_end(d.edges@[i], near), bx),
        followed(d.edges@[i], near, s.dir),
        !w.stubs.contains(bx),
    ensures
        ({
            let (b, v) = edge_step(d, s, g, near, d.edges@[i], a, w);
            v.truncated || b.dropped == crate::schematic::wires::next_id(a.dropped) || (landed(
                b,
                v,
                bx,
            ) && behind(d, s.projection, g, bx, v))
        }),
{
    let e = d.edges@[i];
    let other = far_end(e, near);
    let (bx0, scope) = box_around(d, other, s.projection)->0;
    let known = w.emitted.contains(bx);
    if a.kept < s.cap && (known || w.nodes.len() < s.boxes) {
        let path = scope_path(d, scope, s.root);
        lemma_box_around(d, other, s.projection);
        lemma_boxed_kind(d, s.projection, bx);
        lemma_on_box(d, s, other, e, w);
        let (f, w1) = on_box(d, s, other, e, w);
        if known {
            let k = choose|k: int|
                0 <= k < w.nodes.len() && (#[trigger] w.nodes[k]).id == bx && full(
                    d,
                    bx,
                    w.nodes[k].ports,
                    w.pins,
                );
            lemma_full_pin(d, scope, s.projection, bx, other, i, w.nodes[k].ports, w.pins);
            let pin = pin_for(d, scope, s.projection, bx, other, e, w.pins).0;
            assert(crate::schematic::walk_laws::pin_shown(w.nodes, pin));
            assert(f.pin == Some(pin));
            assert(bears_pin(w.nodes, bx, pin));
        } else {
            let (fresh, p) = drawn(d, bx, path, w.pins);
            lemma_drawn_full(d, bx, path, w.pins);
            lemma_full_pin(d, scope, s.projection, bx, other, i, fresh->0.ports, p);
            assert(f.pin == Some(pin_for(d, scope, s.projection, bx, other, e, p).0));
        }
        let pin = f.pin->0;
        lemma_edge_taken(d, s, g, near, e, f, pin, a, w1);
        let (b, v) = edge_taken(d, s, g, near, e, f, pin, a, w1);
        assert(edge_step(d, s, g, near, e, a, w) == (b, v));
        if known {
            lemma_bears_kept(w, v, bx, pin);
        } else {
            assert(v.nodes[w.nodes.len() as int] == f.fresh->0);
            assert(bears_pin(v.nodes, bx, pin));
        }
        if leaves(e, near) {
            assert(b.loads[a.loads.len() as int].0 == pin);
        } else {
            assert(b.drivers[a.drivers.len() as int].0 == pin);
        }
        assert(gathered(b, pin));
        lemma_taken_ahead(d, s, g, near, e, f, pin, a, Set::empty(), w1);
        assert(f.bx == Some(bx));
    }
}

/// Whether a signal that no box is drawn around is one of the ends gathered, as a stand-in.
spec fn stood(a: GatheredV, w: WalkV, far: u32) -> bool {
    w.stubs.contains(far) && gathered(a, far)
}

/// Whether an edge leads to `x`: to a box, or, where `free`, to a signal outside all boxes.
spec fn heads(
    d: Document,
    projection: Projection,
    e: Edge,
    other: u32,
    free: bool,
    x: u32,
) -> bool {
    if free {
        signal_at(d, other) && box_around(d, other, projection) is None && x == group_at(
            d,
            other,
        )[0]
    } else {
        leads(d, projection, e, other, x)
    }
}

/// Whether what an edge leads to was drawn and gathered.
spec fn arrived(a: GatheredV, w: WalkV, free: bool, x: u32) -> bool {
    if free {
        stood(a, w, x)
    } else {
        landed(a, w, x)
    }
}

proof fn lemma_arrives(
    d: Document,
    s: StepV,
    g: SignalV,
    near: u32,
    i: int,
    free: bool,
    x: u32,
    a: GatheredV,
    w: WalkV,
)
    requires
        whole(d, w),
        sound(w),
        0 <= i < d.edges@.len() <= 0xffff_ffff,
        heads(d, s.projection, d.edges@[i], far_end(d.edges@[i], near), free, x),
        followed(d.edges@[i], near, s.dir),
        !free ==> !w.stubs.contains(x),
    ensures
        ({
            let (b, v) = edge_step(d, s, g, near, d.edges@[i], a, w);
            v.truncated || b.dropped == crate::schematic::wires::next_id(a.dropped) || arrived(
                b,
                v,
                free,
                x,
            )
        }),
{
    let e = d.edges@[i];
    let other = far_end(e, near);
    if !free {
        lemma_lands(d, s, g, near, i, x, a, w);
    } else if a.kept < s.cap {
        lemma_rep(d, other);
        lemma_on_box(d, s, other, e, w);
        let (f, w1) = on_box(d, s, other, e, w);
        let side = if leaves(e, near) {
            Side::West
        } else {
            Side::East
        };
        let (pin, w2) = free_anchor(d, s.projection, other, side, w1);
        lemma_free_anchor(d, s.projection, other, side, w1);
        assert(!w1.emitted.contains(x));
        assert(pin == Some(x));
        lemma_edge_taken(d, s, g, near, e, f, x, a, w2);
        let (b, v) = edge_taken(d, s, g, near, e, f, x, a, w2);
        assert(edge_step(d, s, g, near, e, a, w) == (b, v));
        if leaves(e, near) {
            assert(b.loads[a.loads.len() as int].0 == x);
        } else {
            assert(b.drivers[a.drivers.len() as int].0 == x);
        }
        assert(gathered(b, x));
    }
}

/// Whether nothing that was gathered is lost.
spec fn gathers(a: GatheredV, b: GatheredV) -> bool {
    &&& a.drivers.len() <= b.drivers.len()
    &&& forall|k: int| 0 <= k < a.drivers.len() ==> #[trigger] b.drivers[k] == a.drivers[k]
    &&& a.loads.len() <= b.loads.len()
    &&& forall|k: int| 0 <= k < a.loads.len() ==> #[trigger] b.loads[k] == a.loads[k]
    &&& b.dropped == a.dropped || b.dropped == crate::schematic::wires::next_id(a.dropped)
}

proof fn lemma_edge(
    d: Document,
    s: StepV,
    g: SignalV,
    near: u32,
    e: Edge,
    a: GatheredV,
    w: WalkV,
)
    requires
        whole(d, w),
        d.edges@.len() <= 0x1_0000_0000,
    ensures
        ({
            let (b, v) = edge_step(d, s, g, near, e, a, w);
            &&& goes_on(d, w, v)
            &&& gathers(a, b)
            &&& forall|x: u32| #[trigger]
                v.stubs.contains(x) ==> w.stubs.contains(x) || signal_at(d, x)
        }),
{
    let other = far_end(e, near);
    lemma_on_box(d, s, other, e, w);
    let (f, w1) = on_box(d, s, other, e, w);
    if !f.stop {
        let side = if leaves(e, near) {
            Side::West
        } else {
            Side::East
        };
        match f.pin {
            Some(p) => {
                lemma_edge_taken(d, s, g, near, e, f, p, a, w1);
                lemma_grows(w, w1, edge_taken(d, s, g, near, e, f, p, a, w1).1);
            },
            None => {
                lemma_free_anchor(d, s.projection, other, side, w1);
                let (pin, w2) = free_anchor(d, s.projection, other, side, w1);
                lemma_grows(w, w1, w2);
                match pin {
                    Some(p) => {
                        lemma_edge_taken(d, s, g, near, e, f, p, a, w2);
                        lemma_grows(w, w2, edge_taken(d, s, g, near, e, f, p, a, w2).1);
                    },
                    None => {
                        let v = crate::schematic::walk::enqueued(g, other, w2);
                        assert(grows(w2, v));
                        lemma_grows(w, w2, v);
                        lemma_same_boxes(d, w2, v);
                    },
                }
            },
        }
    }
}

proof fn lemma_arrived_kept(
    a: GatheredV,
    w: WalkV,
    b: GatheredV,
    v: WalkV,
    free: bool,
    x: u32,
)
    requires
        arrived(a, w, free, x),
        gathers(a, b),
        grows(w, v),
    ensures
        arrived(b, v, free, x),
{
    let pin = if free {
        x
    } else {
        choose|pin: u32| #[trigger] bears_pin(w.nodes, x, pin) && gathered(a, pin)
    };
    if !free {
        lemma_bears_kept(w, v, x, pin);
    }
    if exists|k: int| 0 <= k < a.drivers.len() && (#[trigger] a.drivers[k]).0 == pin {
        let k = choose|k: int| 0 <= k < a.drivers.len() && (#[trigger] a.drivers[k]).0 == pin;
        assert(b.drivers[k] == a.drivers[k]);
    } else {
        let k = choose|k: int| 0 <= k < a.loads.len() && (#[trigger] a.loads[k]).0 == pin;
        assert(b.loads[k] == a.loads[k]);
    }
    assert(gathered(b, pin));
}

proof fn lemma_edges(d: Document, s: StepV, g: SignalV, at: Seq<u32>, n: nat, w: WalkV)
    requires
        n <= at.len(),
        whole(d, w),
        d.edges@.len() <= 0xffff_ffff,
        at.len() <= d.edges@.len(),
    ensures
        ({
            let (a, v) = edges_step(d, s, g, at, n, w);
            &&& goes_on(d, w, v)
            &&& a.dropped <= n
            &&& forall|x: u32| #[trigger]
                v.stubs.contains(x) ==> w.stubs.contains(x) || signal_at(d, x)
        }),
    decreases n,
{
    if n == 0 {
        assert(extends(w.pins, w.pins));
    } else {
        lemma_edges(d, s, g, at, (n - 1) as nat, w);
        let (a, v) = edges_step(d, s, g, at, (n - 1) as nat, w);
        let e = edge_at(d, at[n - 1]);
        lemma_edge(d, s, g, near_end(g, e), e, a, v);
        lemma_grows(w, v, edges_step(d, s, g, at, n, w).1);
    }
}

proof fn lemma_edges_arrive(
    d: Document,
    s: StepV,
    g: SignalV,
    at: Seq<u32>,
    n: nat,
    j: int,
    free: bool,
    x: u32,
    w: WalkV,
)
    requires
        0 <= j < n <= at.len() <= d.edges@.len() <= 0xffff_ffff,
        whole(d, w),
        sound(w),
        at[j] < d.edges@.len(),
        ({
            let e = d.edges@[at[j] as int];
            let near = near_end(g, e);
            heads(d, s.projection, e, far_end(e, near), free, x) && followed(e, near, s.dir)
        }),
        !free ==> !w.stubs.contains(x) && !signal_at(d, x),
    ensures
        ({
            let (a, v) = edges_step(d, s, g, at, n, w);
            v.truncated || a.dropped > 0 || arrived(a, v, free, x)
        }),
    decreases n,
{
    let (a, v) = edges_step(d, s, g, at, (n - 1) as nat, w);
    let e = edge_at(d, at[n - 1]);
    let (b, u) = edges_step(d, s, g, at, n, w);
    lemma_edges(d, s, g, at, (n - 1) as nat, w);
    lemma_edge(d, s, g, near_end(g, e), e, a, v);
    crate::schematic::walk_laws::lemma_edges_step(d, s, g, at, (n - 1) as nat, w);
    if j == n - 1 {
        lemma_arrives(d, s, g, near_end(g, e), at[j] as int, free, x, a, v);
    } else {
        lemma_edges_arrive(d, s, g, at, (n - 1) as nat, j, free, x, w);
        if !v.truncated && a.dropped == 0 {
            lemma_arrived_kept(a, v, b, u, free, x);
        }
    }
}

// --- Signals ------------------------------------------------------------------

proof fn lemma_stub(d: Document, s: StepV, g: SignalV, a: GatheredV, w: WalkV)
    requires
        whole(d, w),
        g.members.len() > 0,
        g.rep == g.members[0],
    ensures
        goes_on(d, w, stub_step(d, s, g, a, w).1),
        forall|x: u32| #[trigger]
            stub_step(d, s, g, a, w).1.stubs.contains(x) ==> w.stubs.contains(x) || x == g.rep,
{
    let v = stub_step(d, s, g, a, w).1;
    assert(extends(w.pins, w.pins));
    assert(grows(w, v));
    assert forall|x: u32| #[trigger] v.emitted.contains(x) implies stands(d, v.nodes, x, v.pins)
        && !signal_at(d, x) && !v.stubs.contains(x) by {
        lemma_stands_kept(d, w, v, x);
        assert(!w.emitted.contains(g.members[0]) || v.stubs == w.stubs);
    }
}

proof fn lemma_join(
    d: Document,
    s: StepV,
    g: SignalV,
    stub: Option<u32>,
    a: GatheredV,
    w: WiresV,
)
    requires
        all_drawn(w),
    ensures
        all_drawn(join_step(d, s, g, stub, a, w)),
        w.seen.subset_of(join_step(d, s, g, stub, a, w).seen),
        stub is Some ==> forall|x: u32|
            #[trigger] gathered(a, x) && x != stub->0 ==> join_step(
                d,
                s,
                g,
                stub,
                a,
                w,
            ).seen.contains(pair_of(stub->0, x)),
{
    let sig = node_at(d, g.rep);
    let r = join_step(d, s, g, stub, a, w);
    match stub {
        Some(p) => {
            let mid: Seq<crate::schematic::wires::Anchor> = seq![(p, None)];
            let dn = a.drivers.len();
            let v = crate::schematic::wires::joined_all(sig, s.root, a.drivers, mid, dn, w);
            lemma_joined_all(sig, s.root, mid, a.loads, 1, w);
            lemma_joined_all(sig, s.root, a.drivers, mid, dn, w);
            lemma_joined_all(sig, s.root, mid, a.loads, 1, v);
            assert forall|x: u32| #[trigger] gathered(a, x) && x != p implies r.seen.contains(
                pair_of(p, x),
            ) by {
                assert(mid[0] == (p, None::<String>));
                if exists|k: int| 0 <= k < a.drivers.len() && (#[trigger] a.drivers[k]).0 == x {
                    let k = choose|k: int|
                        0 <= k < a.drivers.len() && (#[trigger] a.drivers[k]).0 == x;
                    assert(v.seen.contains(pair_of(a.drivers[k].0, mid[0].0)));
                } else {
                    let k = choose|k: int|
                        0 <= k < a.loads.len() && (#[trigger] a.loads[k]).0 == x;
                    assert(a.loads[k].0 == x);
                    assert(mid[0].0 != a.loads[k].0);
                }
            }
        },
        None => {
            lemma_joined_all(sig, s.root, a.drivers, a.loads, a.drivers.len(), w);
        },
    }
}

proof fn lemma_signal(d: Document, s: StepV, g: SignalV, w: WalkV)
    requires
        whole(d, w),
        d.edges@.len() <= 0xffff_ffff,
        g.members.len() > 0,
        g.rep == g.members[0],
    ensures
        goes_on(d, w, signal_step(d, s, g, w)),
        forall|x: u32| #[trigger]
            signal_step(d, s, g, w).stubs.contains(x) ==> w.stubs.contains(x) || signal_at(d, x)
                || x == g.rep,
{
    let at = touching(d.edges@, g.members.to_set());
    lemma_touching(d, g.members.to_set());
    lemma_edges(d, s, g, at, at.len(), w);
    let (a, w1) = edges_step(d, s, g, at, at.len(), w);
    lemma_stub(d, s, g, a, w1);
    let (stub, w2) = stub_step(d, s, g, a, w1);
    let w3 = report_step(stub, a, w2);
    lemma_grows(w, w1, w2);
    assert(extends(w2.pins, w3.pins));
    assert(grows(w2, w3));
    lemma_grows(w, w2, w3);
    lemma_same_boxes(d, w2, w3);
    let v = signal_step(d, s, g, w);
    lemma_join(d, s, g, stub, a, w3.wires);
    assert(grows(w3, v));
    lemma_grows(w, w3, v);
    lemma_same_boxes(d, w3, v);
}

proof fn lemma_touching(d: Document, ids: Set<u32>)
    requires
        d.edges@.len() <= 0xffff_ffff,
    ensures
        touching(d.edges@, ids).len() <= d.edges@.len(),
{
    let of = crate::model::meeting(d.edges@, ids);
    lemma_ascending(of);
    let all = touching(d.edges@, ids);
    all.unique_seq_to_set();
    let most = Set::new(|i: u32| i < d.edges@.len());
    lemma_below(d.edges@.len());
    assert(all.to_set().subset_of(most)) by {
        assert forall|i: u32| all.to_set().contains(i) implies most.contains(i) by {
            law_groups_list_their_edges(d.edges@, ids, i);
        }
    }
    vstd::set_lib::lemma_len_subset(all.to_set(), most);
}

proof fn lemma_below(n: nat)
    requires
        n <= 0xffff_ffff,
    ensures
        Set::new(|i: u32| i < n).finite(),
        Set::new(|i: u32| i < n).len() == n,
    decreases n,
{
    let all = Set::new(|i: u32| i < n);
    if n == 0 {
        assert(all =~= Set::empty());
    } else {
        let less = Set::new(|i: u32| i < n - 1);
        lemma_below((n - 1) as nat);
        assert(Set::new(|i: u32| i < (n - 1) as nat) =~= less);
        assert(all =~= less.insert((n - 1) as u32));
    }
}

/// Whether what an edge leads to is drawn and joined to the stand-in of the signal that the
/// edge leads from.
spec fn reached(w: WalkV, rep: u32, free: bool, x: u32) -> bool {
    w.truncated || if free {
        w.stubs.contains(x) && (x == rep || w.wires.seen.contains(pair_of(rep, x)))
    } else {
        w.emitted.contains(x) && exists|pin: u32| #[trigger]
            bears_pin(w.nodes, x, pin) && (pin == rep || w.wires.seen.contains(pair_of(rep, pin)))
    }
}

proof fn lemma_reached_kept(w: WalkV, v: WalkV, rep: u32, free: bool, x: u32)
    requires
        reached(w, rep, free, x),
        grows(w, v),
    ensures
        reached(v, rep, free, x),
{
    if !w.truncated && !free {
        let pin = choose|pin: u32| #[trigger]
            bears_pin(w.nodes, x, pin) && (pin == rep || w.wires.seen.contains(pair_of(rep, pin)));
        lemma_bears_kept(w, v, x, pin);
    }
}

/// A signal that a request starts at is joined to whatever its edges lead to.
proof fn lemma_signal_reaches(
    d: Document,
    s: StepV,
    g: SignalV,
    i: int,
    free: bool,
    x: u32,
    w: WalkV,
)
    requires
        whole(d, w),
        sound(w),
        0 <= i < d.edges@.len() <= 0xffff_ffff,
        g.members.len() > 0,
        g.rep == g.members[0],
        g.seed_scope is None,
        forall|k: int| 0 <= k < g.members.len() ==> signal_at(d, #[trigger] g.members[k]),
        w.seeds.contains(g.rep),
        g.members.contains(d.edges@[i].port) || g.members.contains(d.edges@[i].endpoint),
        ({
            let e = d.edges@[i];
            let near = near_end(g, e);
            heads(d, s.projection, e, far_end(e, near), free, x) && followed(e, near, s.dir)
        }),
        !free ==> !w.stubs.contains(x) && !signal_at(d, x),
    ensures
        reached(signal_step(d, s, g, w), g.rep, free, x),
{
    let at = touching(d.edges@, g.members.to_set());
    lemma_touching(d, g.members.to_set());
    law_groups_list_their_edges(d.edges@, g.members.to_set(), i as u32);
    let j = choose|j: int| 0 <= j < at.len() && at[j] == i as u32;
    lemma_edges(d, s, g, at, at.len(), w);
    lemma_edges_arrive(d, s, g, at, at.len(), j, free, x, w);
    let (a, w1) = edges_step(d, s, g, at, at.len(), w);
    lemma_stub(d, s, g, a, w1);
    let (stub, w2) = stub_step(d, s, g, a, w1);
    assert forall|k: int| 0 <= k < g.members.len() implies !w1.emitted.contains(
        #[trigger] g.members[k],
    ) by {}
    assert(signal_at(d, g.members[0]));
    assert(stub == Some(g.rep));
    let w3 = report_step(stub, a, w2);
    let v = signal_step(d, s, g, w);
    lemma_join(d, s, g, stub, a, w3.wires);
    assert(grows(w1, v));
    if !w1.truncated && a.dropped == 0 {
        if !free {
            let pin = choose|pin: u32| #[trigger] bears_pin(w1.nodes, x, pin) && gathered(a, pin);
            lemma_bears_kept(w1, v, x, pin);
            assert(gathered(a, pin));
        } else {
            assert(gathered(a, x));
        }
    }
}

proof fn lemma_hop(d: Document, s: StepV, frontier: Seq<u32>, n: nat, w: WalkV)
    requires
        n <= frontier.len(),
        whole(d, w),
        d.edges@.len() <= 0xffff_ffff,
    ensures
        goes_on(d, w, hop(d, s, frontier, n, w).1),
        forall|x: u32| #[trigger]
            hop(d, s, frontier, n, w).1.stubs.contains(x) ==> w.stubs.contains(x) || signal_at(
                d,
                x,
            ) || frontier.contains(x),
    decreases n,
{
    if n == 0 {
        let v = WalkV { next: Seq::empty(), ..w };
        assert(extends(w.pins, v.pins));
        assert(grows(w, v));
        lemma_same_boxes(d, w, v);
    } else {
        lemma_hop(d, s, frontier, (n - 1) as nat, w);
        let (done, v) = hop(d, s, frontier, (n - 1) as nat, w);
        let g = signal_of(d, frontier[n - 1], v);
        if !done.contains(g.rep) {
            crate::schematic::reach::lemma_group(d, frontier[n - 1]);
            let u = WalkV { visited: v.visited.union(g.members.to_set()), ..v };
            assert(extends(v.pins, u.pins));
            assert(grows(v, u));
            lemma_same_boxes(d, v, u);
            lemma_signal(d, s, g, u);
            lemma_grows(w, v, u);
            lemma_grows(w, u, signal_step(d, s, g, u));
            if signal_at(d, frontier[n - 1]) {
                lemma_rep(d, frontier[n - 1]);
            } else {
                assert(g.rep == frontier[n - 1]);
                assert(frontier.contains(g.rep));
            }
        }
    }
}

proof fn lemma_hop_reaches(
    d: Document,
    s: StepV,
    frontier: Seq<u32>,
    n: nat,
    group: Seq<u32>,
    i: int,
    free: bool,
    x: u32,
    w: WalkV,
)
    requires
        n <= frontier.len(),
        whole(d, w),
        sound(w),
        0 <= i < d.edges@.len() <= 0xffff_ffff,
        forall|k: int|
            0 <= k < frontier.len() && signal_at(d, #[trigger] frontier[k]) ==> group_at(
                d,
                frontier[k],
            ) == group,
        group.len() > 0,
        forall|k: int| 0 <= k < group.len() ==> signal_at(d, #[trigger] group[k]),
        !w.box_seeds.contains_key(group[0]),
        w.seeds.contains(group[0]),
        group.contains(d.edges@[i].port) || group.contains(d.edges@[i].endpoint),
        ({
            let e = d.edges@[i];
            let near = if group.contains(e.port) {
                e.port
            } else {
                e.endpoint
            };
            heads(d, s.projection, e, far_end(e, near), free, x) && followed(e, near, s.dir)
        }),
        !free ==> !w.stubs.contains(x) && !signal_at(d, x) && !frontier.contains(x),
    ensures
        hop(d, s, frontier, n, w).0.contains(group[0]) ==> reached(
            hop(d, s, frontier, n, w).1,
            group[0],
            free,
            x,
        ),
        forall|k: int|
            0 <= k < n && signal_at(d, #[trigger] frontier[k]) ==> hop(
                d,
                s,
                frontier,
                n,
                w,
            ).0.contains(group[0]),
    decreases n,
{
    if n > 0 {
        lemma_hop_reaches(d, s, frontier, (n - 1) as nat, group, i, free, x, w);
        lemma_hop(d, s, frontier, (n - 1) as nat, w);
        let (done, v) = hop(d, s, frontier, (n - 1) as nat, w);
        let g = signal_of(d, frontier[n - 1], v);
        crate::schematic::reach::lemma_group(d, frontier[n - 1]);
        if !done.contains(g.rep) {
            let u = WalkV { visited: v.visited.union(g.members.to_set()), ..v };
            assert(extends(v.pins, u.pins));
            assert(grows(v, u));
            lemma_same_boxes(d, v, u);
            lemma_signal(d, s, g, u);
            crate::schematic::walk_laws::lemma_hop(d, s, frontier, (n - 1) as nat, w);
            assert(sound(u));
            if signal_at(d, frontier[n - 1]) {
                assert(g.members == group);
                lemma_signal_reaches(d, s, g, i, free, x, u);
            } else {
                assert(g.rep == frontier[n - 1]);
                assert(signal_at(d, group[0]));
                if done.contains(group[0]) {
                    lemma_grows(v, u, signal_step(d, s, g, u));
                    lemma_reached_kept(v, signal_step(d, s, g, u), group[0], free, x);
                }
            }
        }
    }
}

proof fn lemma_hops(d: Document, s: StepV, frontier: Seq<u32>, k: nat, w: WalkV)
    requires
        whole(d, w),
        d.edges@.len() <= 0xffff_ffff,
    ensures
        goes_on(d, w, hops(d, s, frontier, k, w)),
    decreases k,
{
    if k == 0 {
        assert(extends(w.pins, w.pins));
    } else {
        lemma_hop(d, s, frontier, frontier.len(), w);
        let v = hop(d, s, frontier, frontier.len(), w).1;
        if v.next.len() > 0 {
            lemma_hops(d, s, v.next, (k - 1) as nat, v);
            lemma_grows(w, v, hops(d, s, v.next, (k - 1) as nat, v));
        }
    }
}

// --- Behind a box -------------------------------------------------------------

proof fn lemma_edges_pass(
    d: Document,
    s: StepV,
    g: SignalV,
    at: Seq<u32>,
    n: nat,
    j: int,
    x: u32,
    w: WalkV,
)
    requires
        0 <= j < n <= at.len() <= d.edges@.len() <= 0xffff_ffff,
        whole(d, w),
        sound(w),
        at[j] < d.edges@.len(),
        ({
            let e = d.edges@[at[j] as int];
            let near = near_end(g, e);
            leads(d, s.projection, e, far_end(e, near), x) && followed(e, near, s.dir)
        }),
        !w.stubs.contains(x),
        !signal_at(d, x),
    ensures
        ({
            let (a, v) = edges_step(d, s, g, at, n, w);
            v.truncated || a.dropped > 0 || behind(d, s.projection, g, x, v)
        }),
    decreases n,
{
    let (a, v) = edges_step(d, s, g, at, (n - 1) as nat, w);
    let e = edge_at(d, at[n - 1]);
    let (b, u) = edges_step(d, s, g, at, n, w);
    lemma_edges(d, s, g, at, (n - 1) as nat, w);
    lemma_edge(d, s, g, near_end(g, e), e, a, v);
    lemma_edge_ahead(d, s, g, near_end(g, e), e, a, Set::empty(), v);
    crate::schematic::walk_laws::lemma_edges_step(d, s, g, at, (n - 1) as nat, w);
    if j == n - 1 {
        lemma_lands(d, s, g, near_end(g, e), at[j] as int, x, a, v);
    } else {
        lemma_edges_pass(d, s, g, at, (n - 1) as nat, j, x, w);
    }
}

proof fn lemma_signal_passes(d: Document, s: StepV, g: SignalV, i: int, x: u32, w: WalkV)
    requires
        whole(d, w),
        sound(w),
        0 <= i < d.edges@.len() <= 0xffff_ffff,
        g.members.len() > 0,
        g.rep == g.members[0],
        g.members.contains(d.edges@[i].port) || g.members.contains(d.edges@[i].endpoint),
        ({
            let e = d.edges@[i];
            let near = near_end(g, e);
            leads(d, s.projection, e, far_end(e, near), x) && followed(e, near, s.dir)
        }),
        !w.stubs.contains(x),
        !signal_at(d, x),
    ensures
        signal_step(d, s, g, w).truncated || behind(
            d,
            s.projection,
            g,
            x,
            signal_step(d, s, g, w),
        ),
{
    let at = touching(d.edges@, g.members.to_set());
    lemma_touching(d, g.members.to_set());
    law_groups_list_their_edges(d.edges@, g.members.to_set(), i as u32);
    let j = choose|j: int| 0 <= j < at.len() && at[j] == i as u32;
    lemma_edges_pass(d, s, g, at, at.len(), j, x, w);
    lemma_edges(d, s, g, at, at.len(), w);
    let (a, w1) = edges_step(d, s, g, at, at.len(), w);
    lemma_stub(d, s, g, a, w1);
    let w2 = stub_step(d, s, g, a, w1).1;
    assert(w2.visited == w1.visited);
    let v = signal_step(d, s, g, w);
    assert(v.visited == w1.visited);
    assert(w1.truncated ==> v.truncated);
}

proof fn lemma_hop_passes(
    d: Document,
    s: StepV,
    frontier: Seq<u32>,
    n: nat,
    group: Seq<u32>,
    i: int,
    x: u32,
    base: Set<u32>,
    w: WalkV,
)
    requires
        n <= frontier.len(),
        whole(d, w),
        sound(w),
        0 <= i < d.edges@.len() <= 0xffff_ffff,
        forall|k: int|
            0 <= k < frontier.len() && signal_at(d, #[trigger] frontier[k]) ==> group_at(
                d,
                frontier[k],
            ) == group,
        group.len() > 0,
        forall|k: int| 0 <= k < group.len() ==> signal_at(d, #[trigger] group[k]),
        group.contains(d.edges@[i].port) || group.contains(d.edges@[i].endpoint),
        ({
            let e = d.edges@[i];
            let near = if group.contains(e.port) {
                e.port
            } else {
                e.endpoint
            };
            leads(d, s.projection, e, far_end(e, near), x) && followed(e, near, s.dir)
        }),
        !w.stubs.contains(x) && !signal_at(d, x) && !frontier.contains(x),
        forall|k: int, y: u32|
            0 <= k < frontier.len() && #[trigger] group_at(d, frontier[k]).contains(y)
                ==> base.contains(y),
        w.visited.subset_of(base),
    ensures
        ({
            let (done, v) = hop(d, s, frontier, n, w);
            &&& onward(base, v)
            &&& done.contains(group[0]) ==> v.truncated || forall|y: u32| #[trigger]
                beyond_box(d, s.projection, x, y) ==> v.visited.contains(y) || group.contains(y)
            &&& forall|k: int|
                0 <= k < n && signal_at(d, #[trigger] frontier[k]) ==> done.contains(group[0])
        }),
    decreases n,
{
    if n > 0 {
        lemma_hop_passes(d, s, frontier, (n - 1) as nat, group, i, x, base, w);
        lemma_hop(d, s, frontier, (n - 1) as nat, w);
        let (done, v) = hop(d, s, frontier, (n - 1) as nat, w);
        let g = signal_of(d, frontier[n - 1], v);
        crate::schematic::reach::lemma_group(d, frontier[n - 1]);
        assert(g.members == group_at(d, frontier[n - 1]));
        if !done.contains(g.rep) {
            let u = WalkV { visited: v.visited.union(g.members.to_set()), ..v };
            assert(extends(v.pins, u.pins));
            assert(grows(v, u));
            lemma_same_boxes(d, v, u);
            lemma_signal(d, s, g, u);
            assert forall|y: u32| #[trigger] u.visited.contains(y) implies base.contains(y)
                || u.next.contains(y) by {
                if !v.visited.contains(y) {
                    assert(g.members.contains(y));
                }
            }
            lemma_signal_ahead(d, s, g, base, u);
            crate::schematic::walk_laws::lemma_hop(d, s, frontier, (n - 1) as nat, w);
            assert(sound(u));
            if signal_at(d, frontier[n - 1]) {
                assert(g.members == group);
                lemma_signal_passes(d, s, g, i, x, u);
                let end = signal_step(d, s, g, u);
                if !end.truncated {
                    assert forall|y: u32| #[trigger]
                        beyond_box(d, s.projection, x, y) implies end.visited.contains(y)
                        || group.contains(y) by {}
                }
            } else {
                assert(g.rep == frontier[n - 1]);
                assert(signal_at(d, group[0]));
            }
        }
    }
}

/// Whether a signal stands by itself and is joined to the pin that a box has for it.
spec fn hangs(w: WalkV, rep: u32, bx: u32, y: u32) -> bool {
    &&& w.stubs.contains(rep)
    &&& w.pins.no_duplicates()
    &&& w.pins.contains((bx, y))
    &&& bears_pin(w.nodes, bx, pin_id(w.pins, bx, y))
    &&& pin_id(w.pins, bx, y) == rep || w.wires.seen.contains(
        pair_of(rep, pin_id(w.pins, bx, y)),
    )
}

proof fn lemma_hangs_kept(w: WalkV, v: WalkV, rep: u32, bx: u32, y: u32)
    requires
        hangs(w, rep, bx, y),
        grows(w, v),
    ensures
        hangs(v, rep, bx, y),
{
    lemma_pin_kept(w.pins, v.pins, bx, y);
    lemma_bears_kept(w, v, bx, pin_id(w.pins, bx, y));
}

/// Whether edge `j`, of logic, is the only one that touches the nodes of a signal.
spec fn only_edge(d: Document, members: Seq<u32>, j: int, bx: u32) -> bool {
    &&& 0 <= j < d.edges@.len()
    &&& d.edges@[j].port == bx && members.contains(d.edges@[j].endpoint)
    &&& !members.contains(bx)
    &&& forall|k: int|
        0 <= k < d.edges@.len() && (members.contains((#[trigger] d.edges@[k]).port)
            || members.contains(d.edges@[k].endpoint)) ==> k == j
}

proof fn lemma_only_edge(d: Document, g: SignalV, j: int, bx: u32)
    requires
        d.edges@.len() <= 0xffff_ffff,
        only_edge(d, g.members, j, bx),
    ensures
        touching(d.edges@, g.members.to_set()) == seq![j as u32],
{
    let of = crate::model::meeting(d.edges@, g.members.to_set());
    let at = touching(d.edges@, g.members.to_set());
    lemma_ascending(of);
    law_groups_list_their_edges(d.edges@, g.members.to_set(), j as u32);
    assert forall|k: int| 0 <= k < at.len() implies #[trigger] at[k] == j as u32 by {
        assert(at.contains(at[k]));
        law_groups_list_their_edges(d.edges@, g.members.to_set(), at[k]);
        assert(d.edges@[at[k] as int].port == d.edges@[at[k] as int].port);
    }
    if at.len() > 1 {
        assert(at[0] < at[1]);
    }
    assert(at =~= seq![j as u32]);
}

proof fn lemma_signal_hangs(d: Document, s: StepV, g: SignalV, j: int, bx: u32, w: WalkV)
    requires
        whole(d, w),
        sound(w),
        d.edges@.len() <= 0xffff_ffff,
        s.cap > 0,
        g.members.len() > 0,
        g.rep == g.members[0],
        g.seed_scope is None,
        forall|k: int| 0 <= k < g.members.len() ==> signal_at(d, #[trigger] g.members[k]),
        only_edge(d, g.members, j, bx),
        leads(d, s.projection, d.edges@[j], bx, bx),
        is_logic(d, bx),
        w.emitted.contains(bx),
    ensures
        hangs(signal_step(d, s, g, w), g.rep, bx, d.edges@[j].endpoint),
{
    let e = d.edges@[j];
    let at = touching(d.edges@, g.members.to_set());
    lemma_only_edge(d, g, j, bx);
    let near = near_end(g, e);
    let other = far_end(e, near);
    assert(near == e.endpoint && other == bx);
    reveal_with_fuel(edges_step, 2);
    let (bx0, scope) = box_around(d, other, s.projection)->0;
    let a0 = GatheredV {
        drivers: Seq::empty(),
        loads: Seq::empty(),
        pins: Seq::empty(),
        kept: 0,
        dropped: 0,
    };
    assert(edges_step(d, s, g, at, 1, w) == edge_step(d, s, g, near, e, a0, w));
    lemma_on_box(d, s, other, e, w);
    let (f, w1) = on_box(d, s, other, e, w);
    let k = choose|k: int|
        0 <= k < w.nodes.len() && (#[trigger] w.nodes[k]).id == bx && full(
            d,
            bx,
            w.nodes[k].ports,
            w.pins,
        );
    lemma_full_pin(d, scope, s.projection, bx, other, j, w.nodes[k].ports, w.pins);
    let pin = pin_for(d, scope, s.projection, bx, other, e, w.pins).0;
    assert(crate::schematic::walk_laws::pin_shown(w.nodes, pin));
    assert(f.pin == Some(pin) && !f.stop);
    assert(bears_pin(w.nodes, bx, pin));
    let (a, w2) = edge_taken(d, s, g, near, e, f, pin, a0, w1);
    lemma_edge_taken(d, s, g, near, e, f, pin, a0, w1);
    assert(edge_step(d, s, g, near, e, a0, w) == (a, w2));
    if leaves(e, near) {
        assert(a.loads[0].0 == pin);
    } else {
        assert(a.drivers[0].0 == pin);
    }
    assert(gathered(a, pin));
    assert(crate::schematic::walk::one_sided(a));
    lemma_edges(d, s, g, at, at.len(), w);
    lemma_stub(d, s, g, a, w2);
    let (stub, w3) = stub_step(d, s, g, a, w2);
    assert forall|m: int| 0 <= m < g.members.len() implies !w2.emitted.contains(
        #[trigger] g.members[m],
    ) by {}
    assert(signal_at(d, g.members[0]));
    assert(stub == Some(g.rep));
    let w4 = report_step(stub, a, w3);
    let v = signal_step(d, s, g, w);
    lemma_join(d, s, g, stub, a, w4.wires);
    lemma_signal(d, s, g, w);
    lemma_bears_kept(w, v, bx, pin);
    assert(w.pins.contains((bx, e.endpoint)));
    assert(pin == pin_id(w.pins, bx, e.endpoint));
    lemma_pin_kept(w.pins, v.pins, bx, e.endpoint);
}

proof fn lemma_hop_hangs(
    d: Document,
    s: StepV,
    frontier: Seq<u32>,
    n: nat,
    group: Seq<u32>,
    j: int,
    bx: u32,
    w: WalkV,
)
    requires
        n <= frontier.len(),
        whole(d, w),
        sound(w),
        d.edges@.len() <= 0xffff_ffff,
        s.cap > 0,
        forall|k: int|
            0 <= k < frontier.len() && (#[trigger] group_at(d, frontier[k]))[0] == group[0]
                ==> group_at(d, frontier[k]) == group,
        group.len() > 0,
        forall|k: int| 0 <= k < group.len() ==> signal_at(d, #[trigger] group[k]),
        !w.box_seeds.contains_key(group[0]),
        only_edge(d, group, j, bx),
        leads(d, s.projection, d.edges@[j], bx, bx),
        is_logic(d, bx),
        w.emitted.contains(bx),
    ensures
        ({
            let (done, v) = hop(d, s, frontier, n, w);
            &&& done.contains(group[0]) ==> hangs(v, group[0], bx, d.edges@[j].endpoint)
            &&& forall|k: int|
                0 <= k < n && (#[trigger] group_at(d, frontier[k]))[0] == group[0]
                    ==> done.contains(group[0])
        }),
    decreases n,
{
    if n > 0 {
        lemma_hop_hangs(d, s, frontier, (n - 1) as nat, group, j, bx, w);
        lemma_hop(d, s, frontier, (n - 1) as nat, w);
        let (done, v) = hop(d, s, frontier, (n - 1) as nat, w);
        let g = signal_of(d, frontier[n - 1], v);
        crate::schematic::reach::lemma_group(d, frontier[n - 1]);
        if !done.contains(g.rep) {
            let u = WalkV { visited: v.visited.union(g.members.to_set()), ..v };
            assert(extends(v.pins, u.pins));
            assert(grows(v, u));
            lemma_same_boxes(d, v, u);
            lemma_signal(d, s, g, u);
            crate::schematic::walk_laws::lemma_hop(d, s, frontier, (n - 1) as nat, w);
            assert(sound(u));
            if g.rep == group[0] {
                assert(group_at(d, frontier[n - 1])[0] == group[0]);
                assert(g.members == group);
                lemma_signal_hangs(d, s, g, j, bx, u);
            } else if done.contains(group[0]) {
                lemma_grows(v, u, signal_step(d, s, g, u));
                lemma_hangs_kept(
                    v,
                    signal_step(d, s, g, u),
                    group[0],
                    bx,
                    d.edges@[j].endpoint,
                );
            }
        }
    }
}

// --- Requests -----------------------------------------------------------------

/// What a request starts from: its seed is drawn where it is a box, and marked as a seed.
spec fn started(
    d: Document,
    step: TraceStep,
    limits: ConeLimits,
    projection: Projection,
    root: Seq<char>,
    w: WalkV,
) -> (Seq<u32>, WalkV) {
    let s = budget(step, limits, projection, root);
    let (frontier, v) = match seed_box(d, step.seed, projection) {
        Some(scope) => (seq![step.seed], box_seeded(d, s, step.seed, scope, w)),
        None => (seeds_at(d, step.seed, step.dir), w),
    };
    (
        frontier,
        WalkV {
            visited: v.visited.union(frontier.to_set()),
            seeds: anchored_seeds(d, frontier, frontier.len(), v.seeds),
            ..v
        },
    )
}

proof fn lemma_started(
    d: Document,
    step: TraceStep,
    limits: ConeLimits,
    projection: Projection,
    root: Seq<char>,
    w: WalkV,
)
    requires
        whole(d, w),
        d.edges@.len() <= 0xffff_ffff,
    ensures
        whole(d, started(d, step, limits, projection, root, w).1),
        grows(w, started(d, step, limits, projection, root, w).1),
{
    let s = budget(step, limits, projection, root);
    let (frontier, v) = match seed_box(d, step.seed, projection) {
        Some(scope) => (seq![step.seed], box_seeded(d, s, step.seed, scope, w)),
        None => (seeds_at(d, step.seed, step.dir), w),
    };
    assert(extends(w.pins, w.pins));
    match seed_box(d, step.seed, projection) {
        Some(scope) => {
            let bx = step.seed;
            lemma_box_around(d, bx, projection);
            lemma_boxed(d, projection, bx);
            let path = scope_path(d, scope, s.root);
            lemma_drawn_extends(d, bx, path, w.pins);
            crate::schematic::walk_laws::lemma_drawn_id(d, bx, path, w.pins);
            let (b, p) = drawn(d, bx, path, w.pins);
            if b is Some {
                lemma_drawn_full(d, bx, path, w.pins);
            }
            assert(grows(w, v));
            assert forall|x: u32| #[trigger] v.emitted.contains(x) implies stands(
                d,
                v.nodes,
                x,
                v.pins,
            ) && !signal_at(d, x) && !v.stubs.contains(x) by {
                if w.emitted.contains(x) {
                    lemma_stands_kept(d, w, v, x);
                } else {
                    assert(v.nodes[w.nodes.len() as int] == b->0);
                }
            }
        },
        None => {},
    }
    assert(whole(d, v));
    let u = WalkV {
        visited: v.visited.union(frontier.to_set()),
        seeds: anchored_seeds(d, frontier, frontier.len(), v.seeds),
        ..v
    };
    lemma_anchored(d, frontier, frontier.len(), v.seeds);
    assert(extends(v.pins, u.pins));
    assert(grows(v, u));
    lemma_same_boxes(d, v, u);
    lemma_grows(w, v, u);
}

proof fn lemma_step(
    d: Document,
    step: TraceStep,
    limits: ConeLimits,
    projection: Projection,
    root: Seq<char>,
    w: WalkV,
)
    requires
        whole(d, w),
        d.edges@.len() <= 0xffff_ffff,
    ensures
        whole(d, step_walk(d, step, limits, projection, root, w)),
        grows(w, step_walk(d, step, limits, projection, root, w)),
{
    let s = budget(step, limits, projection, root);
    let (frontier, u) = started(d, step, limits, projection, root, w);
    lemma_started(d, step, limits, projection, root, w);
    let k: nat = if step.depth > 0 {
        step.depth as nat
    } else {
        1
    };
    lemma_hops(d, s, frontier, k, u);
    lemma_grows(w, u, hops(d, s, frontier, k, u));
}

proof fn lemma_steps(
    d: Document,
    steps: Seq<TraceStep>,
    limits: ConeLimits,
    projection: Projection,
    root: Seq<char>,
    m: nat,
    n: nat,
)
    requires
        m <= n <= steps.len(),
        d.edges@.len() <= 0xffff_ffff,
    ensures
        whole(d, steps_walk(d, steps, limits, projection, root, n)),
        grows(
            steps_walk(d, steps, limits, projection, root, m),
            steps_walk(d, steps, limits, projection, root, n),
        ),
    decreases n,
{
    let v = steps_walk(d, steps, limits, projection, root, n);
    if m == n {
        assert(extends(v.pins, v.pins));
        if n > 0 {
            lemma_steps(d, steps, limits, projection, root, (m - 1) as nat, (n - 1) as nat);
            let u = steps_walk(d, steps, limits, projection, root, (n - 1) as nat);
            lemma_step(d, steps[n - 1], limits, projection, root, u);
        }
    } else {
        lemma_steps(d, steps, limits, projection, root, m, (n - 1) as nat);
        let u = steps_walk(d, steps, limits, projection, root, (n - 1) as nat);
        lemma_step(d, steps[n - 1], limits, projection, root, u);
        lemma_grows(steps_walk(d, steps, limits, projection, root, m), u, v);
    }
}

// --- To the finished graph ----------------------------------------------------

/// Whether one of the first `n` boxes bears a pin.
spec fn bears_among(nodes: Seq<NodeV>, bx: u32, pin: u32, n: nat) -> bool {
    exists|k: int|
        0 <= k < n && (#[trigger] nodes[k]).id == bx && has_pin(nodes[k].ports, pin)
}

proof fn lemma_bears_pushed(nodes: Seq<NodeV>, b: NodeV, bx: u32, pin: u32)
    ensures
        bears_pin(nodes, bx, pin) ==> bears_pin(nodes.push(b), bx, pin),
        b.id == bx && has_pin(b.ports, pin) ==> bears_pin(nodes.push(b), bx, pin),
{
    if bears_pin(nodes, bx, pin) {
        let k = choose|k: int|
            0 <= k < nodes.len() && (#[trigger] nodes[k]).id == bx && has_pin(
                nodes[k].ports,
                pin,
            );
        assert(nodes.push(b)[k] == nodes[k]);
    }
    assert(nodes.push(b)[nodes.len() as int] == b);
}

proof fn lemma_tells(seeds: Set<u32>, edges: Seq<EdgeV>, n: NodeV, pin: u32)
    requires
        has_pin(n.ports, pin),
        counts(seeds, edges, pin),
    ensures
        crate::schematic::trace::tells(seeds, edges, n),
{
    let k = choose|k: int| 0 <= k < n.ports.len() && (#[trigger] n.ports[k]).id == pin;
    assert(n.ports[k].id == pin);
}

proof fn lemma_kept_apart(nodes: Seq<NodeV>, stubs: Set<u32>, bx: u32, pin: u32, n: nat)
    requires
        n <= nodes.len(),
        bears_among(nodes, bx, pin, n),
        !stubs.contains(bx),
    ensures
        bears_pin(apart(nodes, stubs, n), bx, pin),
    decreases n,
{
    let r = apart(nodes, stubs, (n - 1) as nat);
    lemma_bears_pushed(r, nodes[n - 1], bx, pin);
    if !(nodes[n - 1].id == bx && has_pin(nodes[n - 1].ports, pin)) {
        assert(bears_among(nodes, bx, pin, (n - 1) as nat));
        lemma_kept_apart(nodes, stubs, bx, pin, (n - 1) as nat);
    }
}

proof fn lemma_kept_showing(
    seeds: Set<u32>,
    cs: Set<u32>,
    edges: Seq<EdgeV>,
    nodes: Seq<NodeV>,
    bx: u32,
    pin: u32,
    n: nat,
)
    requires
        n <= nodes.len(),
        bears_among(nodes, bx, pin, n),
        counts(seeds, edges, pin),
    ensures
        bears_pin(showing(seeds, cs, edges, nodes, n), bx, pin),
    decreases n,
{
    let r = showing(seeds, cs, edges, nodes, (n - 1) as nat);
    lemma_bears_pushed(r, nodes[n - 1], bx, pin);
    if nodes[n - 1].id == bx && has_pin(nodes[n - 1].ports, pin) {
        lemma_tells(seeds, edges, nodes[n - 1], pin);
    } else {
        assert(bears_among(nodes, bx, pin, (n - 1) as nat));
        lemma_kept_showing(seeds, cs, edges, nodes, bx, pin, (n - 1) as nat);
    }
}

proof fn lemma_kept_filled(
    seeds: Set<u32>,
    cs: Set<u32>,
    edges: Seq<EdgeV>,
    nodes: Seq<NodeV>,
    bx: u32,
    pin: u32,
    n: nat,
)
    requires
        n <= nodes.len(),
        bears_among(nodes, bx, pin, n),
        counts(seeds, edges, pin),
    ensures
        bears_pin(filled(seeds, cs, edges, nodes, n), bx, pin),
    decreases n,
{
    let r = filled(seeds, cs, edges, nodes, (n - 1) as nat);
    lemma_bears_pushed(r, nodes[n - 1], bx, pin);
    if nodes[n - 1].id == bx && has_pin(nodes[n - 1].ports, pin) {
        lemma_tells(seeds, edges, nodes[n - 1], pin);
    } else {
        assert(bears_among(nodes, bx, pin, (n - 1) as nat));
        lemma_kept_filled(seeds, cs, edges, nodes, bx, pin, (n - 1) as nat);
    }
}

/// Where boxes and pins keep their ids, a box that bears a pin still does.
proof fn lemma_same_bears(a: Seq<NodeV>, b: Seq<NodeV>, bx: u32, pin: u32)
    requires
        a.len() == b.len(),
        forall|k: int| 0 <= k < a.len() ==> (#[trigger] a[k]).id == b[k].id,
        forall|k: int|
            0 <= k < a.len() ==> (#[trigger] a[k]).ports.len() == b[k].ports.len() && forall|
                j: int,
            |
                0 <= j < a[k].ports.len() ==> (#[trigger] a[k].ports[j]).id == b[k].ports[j].id,
        bears_pin(a, bx, pin),
    ensures
        bears_pin(b, bx, pin),
{
    let k = choose|k: int|
        0 <= k < a.len() && (#[trigger] a[k]).id == bx && has_pin(a[k].ports, pin);
    let j = choose|j: int| 0 <= j < a[k].ports.len() && (#[trigger] a[k].ports[j]).id == pin;
    assert(a[k].ports[j].id == b[k].ports[j].id);
    assert(b[k].ports[j].id == pin);
    assert(has_pin(b[k].ports, pin));
    assert(b[k].id == bx);
}

proof fn lemma_kept_pruned(
    seeds: Set<u32>,
    cs: Set<u32>,
    edges: Seq<EdgeV>,
    nodes: Seq<NodeV>,
    bx: u32,
    pin: u32,
)
    requires
        bears_pin(nodes, bx, pin),
        counts(seeds, edges, pin),
    ensures
        bears_pin(pruned(seeds, cs, edges, nodes), bx, pin),
    decreases nodes.len(),
{
    let f = filled(seeds, cs, edges, nodes, nodes.len());
    assert(bears_among(nodes, bx, pin, nodes.len()));
    lemma_kept_filled(seeds, cs, edges, nodes, bx, pin, nodes.len());
    let r = unhooked(f);
    lemma_same_bears(f, r, bx, pin);
    if r.len() < nodes.len() {
        lemma_kept_pruned(seeds, cs, edges, r, bx, pin);
    }
}

/// A box with a pin that counts stays on the canvas to the end.
proof fn lemma_kept(d: Document, w: WalkV, root: Seq<char>, most: nat, bx: u32, pin: u32)
    requires
        sound(w),
        !w.stubs.contains(bx),
        bears_pin(w.nodes, bx, pin),
        counts(w.seeds, w.wires.edges, pin),
    ensures
        bears_pin(finished(d, w, root, most).nodes, bx, pin),
{
    let want = wanted(d, w.nodes, w.nodes.len());
    crate::schematic::trace_laws::lemma_wanted(d, w.nodes, w.nodes.len());
    crate::schematic::trace_laws::lemma_contained(
        d,
        want,
        want.len(),
        root,
        most,
        ContainedV { nodes: w.nodes, containers: Set::empty(), pins: w.pins, cut: w.truncated },
    );
    let c = with_containers(d, w, root, most);
    assert(bears_pin(c.nodes, bx, pin)) by {
        let k = choose|k: int|
            0 <= k < w.nodes.len() && (#[trigger] w.nodes[k]).id == bx && has_pin(
                w.nodes[k].ports,
                pin,
            );
        assert(c.nodes[k] == w.nodes[k]);
    }
    let a1 = with_parents(d, c.nodes);
    lemma_same_bears(c.nodes, a1, bx, pin);
    assert(bears_among(a1, bx, pin, a1.len()));
    lemma_kept_apart(a1, w.stubs, bx, pin, a1.len());
    let a2 = apart(a1, w.stubs, a1.len());
    let a3 = counted(w.more, a2);
    lemma_same_bears(a2, a3, bx, pin);
    assert(bears_among(a3, bx, pin, a3.len()));
    let edges = w.wires.edges;
    lemma_kept_showing(w.seeds, c.containers, edges, a3, bx, pin, a3.len());
    lemma_kept_pruned(
        w.seeds,
        c.containers,
        edges,
        showing(w.seeds, c.containers, edges, a3, a3.len()),
        bx,
        pin,
    );
}

proof fn lemma_cut(d: Document, want: Seq<u32>, n: nat, root: Seq<char>, most: nat, c0: ContainedV)
    ensures
        c0.cut ==> contained(d, want, n, root, most, c0).cut,
    decreases n,
{
    if n > 0 {
        lemma_cut(d, want, (n - 1) as nat, root, most, c0);
    }
}

// --- The first request --------------------------------------------------------

/// The nodes at the path of a signal, and those of them that are this signal.
pub(crate) proof fn lemma_start(d: Document, seed: u32, dir: Dir, near: u32)
    requires
        in_order(d),
        d.nodes@.len() <= 0x1_0000_0000,
        is_wire(d, seed),
        is_wire(d, near),
        d.nodes@[near as int].path@ == d.nodes@[seed as int].path@,
    ensures
        ({
            let f = seeds_at(d, seed, dir);
            let g = group_at(d, seed);
            &&& listed(d, seed)
            &&& f.contains(seed)
            &&& forall|k: int|
                0 <= k < f.len() ==> #[trigger] f[k] < d.nodes@.len()
                    && d.nodes@[f[k] as int].path@ == d.nodes@[seed as int].path@
            &&& forall|k: int| 0 <= k < f.len() && signal_at(d, #[trigger] f[k]) ==> group_at(
                d,
                f[k],
            ) == g
            &&& g.len() > 0
            &&& g.contains(near)
            &&& forall|x: u32| #[trigger]
                g.contains(x) ==> is_wire(d, x) && d.nodes@[x as int].path@
                    == d.nodes@[seed as int].path@
        }),
{
    let path = d.nodes@[seed as int].path@;
    let ids = at_path(d, path);
    law_paths_list_their_nodes(d, path, seed);
    law_paths_list_their_nodes(d, path, near);
    assert(d.nodes@[seed as int].id == seed);
    assert(d.nodes@[near as int].id == near);
    assert(ids.contains(seed));
    lemma_ascending(ids.to_set());
    let f = seeds_at(d, seed, dir);
    assert(ids.to_set().contains(seed));
    assert(f == ascending(ids.to_set()));
    let of = siblings(d, path);
    assert forall|x: u32| #[trigger] ids.contains(x) implies x < d.nodes@.len()
        && d.nodes@[x as int].path@ == path by {
        law_paths_list_their_nodes(d, path, x);
    }
    assert(of.subset_of(ids.to_set()));
    vstd::set_lib::lemma_len_subset(of, ids.to_set());
    lemma_ascending(of);
    assert(of.contains(near));
    assert(of.contains(seed));
    let g = group_at(d, seed);
    assert(ascending(of).contains(seed));
    assert(g == ascending(of));
    assert forall|k: int| 0 <= k < f.len() implies #[trigger] f[k] < d.nodes@.len()
        && d.nodes@[f[k] as int].path@ == path by {
        assert(f.contains(f[k]));
        assert(ids.to_set().contains(f[k]));
    }
    assert forall|x: u32| #[trigger] g.contains(x) implies is_wire(d, x)
        && d.nodes@[x as int].path@ == path by {
        assert(of.contains(x));
    }
}

proof fn lemma_first(
    d: Document,
    steps: Seq<TraceStep>,
    limits: ConeLimits,
    projection: Projection,
    root: Seq<char>,
    i: int,
    near: u32,
    other: u32,
    free: bool,
    x: u32,
)
    requires
        steps.len() > 0,
        in_order(d),
        d.nodes@.len() <= 0x1_0000_0000,
        is_wire(d, steps[0].seed),
        is_wire(d, near),
        d.nodes@[near as int].path@ == d.nodes@[steps[0].seed as int].path@,
        other < d.nodes@.len(),
        d.nodes@[other as int].path@ != d.nodes@[steps[0].seed as int].path@,
        0 <= i < d.edges@.len() <= 0xffff_ffff,
        runs_between(d.edges@[i], near, other),
        asked(d.edges@[i], near, steps[0].dir),
        heads(d, projection, d.edges@[i], other, free, x),
        !free ==> x < d.nodes@.len() && d.nodes@[x as int].path@
            != d.nodes@[steps[0].seed as int].path@,
    ensures
        reached(
            steps_walk(d, steps, limits, projection, root, 1),
            group_at(d, steps[0].seed)[0],
            free,
            x,
        ),
        steps_walk(d, steps, limits, projection, root, 1).seeds.contains(
            group_at(d, steps[0].seed)[0],
        ),
{
    let step = steps[0];
    let seed = step.seed;
    let s = budget(step, limits, projection, root);
    let w = blank(d);
    reveal_with_fuel(steps_walk, 2);
    lemma_box_around(d, seed, projection);
    if seed_box(d, seed, projection) is Some {
        lemma_boxed(d, projection, seed);
    }
    lemma_start(d, seed, step.dir, near);
    let f = seeds_at(d, seed, step.dir);
    let g = group_at(d, seed);
    let u = WalkV {
        visited: w.visited.union(f.to_set()),
        seeds: anchored_seeds(d, f, f.len(), w.seeds),
        ..w
    };
    lemma_anchored(d, f, f.len(), w.seeds);
    let at = choose|k: int| 0 <= k < f.len() && f[k] == seed;
    assert(u.seeds.contains(group_at(d, f[at])[0]));
    assert(whole(d, u));
    assert(sound(u));
    let e = d.edges@[i];
    assert(!g.contains(other));
    if !free {
        lemma_box_around(d, other, projection);
        lemma_boxed(d, projection, x);
        assert(!f.contains(x)) by {
            if f.contains(x) {
                let k = choose|k: int| 0 <= k < f.len() && f[k] == x;
                assert(d.nodes@[f[k] as int].path@ == d.nodes@[seed as int].path@);
            }
        }
    }
    assert forall|k: int| 0 <= k < g.len() implies signal_at(d, #[trigger] g[k]) by {
        assert(g.contains(g[k]));
    }
    lemma_hop_reaches(d, s, f, f.len(), g, i, free, x, u);
    lemma_hop(d, s, f, f.len(), u);
    let v = hop(d, s, f, f.len(), u).1;
    assert(signal_at(d, f[at]));
    let k: nat = if step.depth > 0 {
        step.depth as nat
    } else {
        1
    };
    let end = hops(d, s, f, k, u);
    if v.next.len() > 0 {
        lemma_hops(d, s, v.next, (k - 1) as nat, v);
        lemma_reached_kept(v, end, g[0], free, x);
    }
    assert(end == steps_walk(d, steps, limits, projection, root, 1));
}

/// What an asked edge of the first seed leads to is drawn and joined to the seed.
proof fn lemma_traced(
    d: Document,
    steps: Seq<TraceStep>,
    limits: ConeLimits,
    projection: Projection,
    i: int,
    near: u32,
    other: u32,
    free: bool,
    x: u32,
)
    requires
        steps.len() > 0,
        in_order(d),
        d.nodes@.len() <= 0x1_0000_0000,
        is_wire(d, steps[0].seed),
        is_wire(d, near),
        d.nodes@[near as int].path@ == d.nodes@[steps[0].seed as int].path@,
        other < d.nodes@.len(),
        d.nodes@[other as int].path@ != d.nodes@[steps[0].seed as int].path@,
        0 <= i < d.edges@.len() <= 0xffff_ffff,
        runs_between(d.edges@[i], near, other),
        asked(d.edges@[i], near, steps[0].dir),
        heads(d, projection, d.edges@[i], other, free, x),
        !free ==> x < d.nodes@.len() && d.nodes@[x as int].path@
            != d.nodes@[steps[0].seed as int].path@,
        !traced(d, steps, limits, projection).truncated,
    ensures
        ({
            let g = traced(d, steps, limits, projection);
            let rep = group_at(d, steps[0].seed)[0];
            if free {
                crate::schematic::walk_laws::pin_shown(g.nodes, x) && (x == rep || joins(
                    g.edges,
                    rep,
                    x,
                ))
            } else {
                exists|pin: u32| #[trigger]
                    bears_pin(g.nodes, x, pin) && (pin == rep || joins(g.edges, rep, pin))
            }
        }),
{
    let root = trace_root(d, steps);
    let rep = group_at(d, steps[0].seed)[0];
    let w = steps_walk(d, steps, limits, projection, root, steps.len());
    let most = limits.boxes as nat;
    lemma_first(d, steps, limits, projection, root, i, near, other, free, x);
    lemma_steps(d, steps, limits, projection, root, 1, steps.len());
    let v = steps_walk(d, steps, limits, projection, root, 1);
    lemma_reached_kept(v, w, rep, free, x);
    law_walks_stay_sound(d, steps, limits, projection, root, steps.len());
    let want = wanted(d, w.nodes, w.nodes.len());
    lemma_cut(
        d,
        want,
        want.len(),
        root,
        most,
        ContainedV { nodes: w.nodes, containers: Set::empty(), pins: w.pins, cut: w.truncated },
    );
    assert(!w.truncated);
    let pin = if free {
        x
    } else {
        choose|pin: u32| #[trigger]
            bears_pin(w.nodes, x, pin) && (pin == rep || w.wires.seen.contains(pair_of(rep, pin)))
    };
    if pin != rep {
        assert(w.wires.seen.contains(pair_of(rep, pin)));
        let k = choose|k: int|
            0 <= k < w.wires.edges.len() && pair_of(
                (#[trigger] w.wires.edges[k]).source,
                w.wires.edges[k].target,
            ) == pair_of(rep, pin);
        assert(w.wires.edges[k].source == pin || w.wires.edges[k].target == pin);
        assert(joins(w.wires.edges, rep, pin));
    }
    assert(counts(w.seeds, w.wires.edges, pin));
    if free {
        crate::schematic::walk_laws::lemma_stub_pin(w, x);
        crate::schematic::trace_laws::lemma_finished(d, w, root, most);
    } else {
        lemma_kept(d, w, root, most, x, pin);
        assert(bears_pin(traced(d, steps, limits, projection).nodes, x, pin));
    }
}

// --- Boxes of a scope ---------------------------------------------------------

/// Whether a node is drawn as a box of the scope that lists it: an instance, an interface, a
/// register or a memory always, and a process, a latch or an assignment where it is not drawn
/// as primitives.
pub open spec fn own_box(d: Document, projection: Projection, id: u32) -> bool {
    id < d.nodes@.len() && match d.nodes@[id as int].kind {
        NodeKind::Instance | NodeKind::Interface | NodeKind::Ff | NodeKind::Memory => true,
        NodeKind::Comb | NodeKind::Latch | NodeKind::Assign => projection
            == Projection::ProcessLevel,
        _ => false,
    }
}

/// Whether two nodes name each other as parent and child.
pub open spec fn nests(d: Document, scope: u32, id: u32) -> bool {
    &&& scope < d.nodes@.len() && d.nodes@[scope as int].children@.contains(id)
    &&& id < d.nodes@.len() && d.nodes@[id as int].parent == Some(scope)
}

pub(crate) proof fn lemma_own_boxes(
    d: Document,
    cs: Seq<u32>,
    n: nat,
    projection: Projection,
    fuel: nat,
    j: int,
)
    requires
        0 <= j < n <= cs.len(),
        own_box(d, projection, cs[j]),
    ensures
        boxes_in(d, cs, n, projection, fuel).contains(cs[j]),
    decreases n,
{
    let r = boxes_in(d, cs, (n - 1) as nat, projection, fuel);
    let all = boxes_in(d, cs, n, projection, fuel);
    if j == n - 1 {
        assert(all[r.len() as int] == cs[j]);
    } else {
        lemma_own_boxes(d, cs, (n - 1) as nat, projection, fuel, j);
        let k = choose|k: int| 0 <= k < r.len() && r[k] == cs[j];
        assert(all[k] == cs[j]);
    }
}

/// A scope shows each of its children that is drawn as a box.
pub proof fn law_scopes_show_their_boxes(
    d: Document,
    scope: u32,
    projection: Projection,
    id: u32,
)
    requires
        nests(d, scope, id),
        own_box(d, projection, id),
    ensures
        boxes_of(d, scope, projection).contains(id),
{
    let cs = children_at(d, scope);
    let j = choose|j: int| 0 <= j < cs.len() && cs[j] == id;
    lemma_own_boxes(d, cs, cs.len(), projection, d.nodes@.len(), j);
}

proof fn lemma_no_box(d: Document, scope: u32, projection: Projection, id: u32)
    requires
        signal_at(d, id),
    ensures
        !boxes_of(d, scope, projection).contains(id),
{
    let cs = children_at(d, scope);
    lemma_boxes_are_no_signals(d, cs, cs.len(), projection, d.nodes@.len());
}

/// A child that is drawn as a box is its own box, and the box around its ports.
pub proof fn law_boxes_hold_their_ports(
    d: Document,
    scope: u32,
    projection: Projection,
    id: u32,
    port: u32,
)
    requires
        nests(d, scope, id),
        own_box(d, projection, id),
    ensures
        box_around(d, id, projection) == Some((id, scope)),
        port < d.nodes@.len() && d.nodes@[port as int].kind == NodeKind::Port
            && d.nodes@[port as int].parent == Some(id) ==> box_around(d, port, projection)
            == Some((id, scope)),
{
    law_scopes_show_their_boxes(d, scope, projection, id);
    reveal_with_fuel(box_up, 3);
    if port < d.nodes@.len() && d.nodes@[port as int].kind == NodeKind::Port {
        lemma_no_box(d, id, projection, port);
    }
}

// --- Laws ---------------------------------------------------------------------

/// A trace follows every edge of its seed that is asked for, whichever way the edge goes where
/// both ways are: unless something was left out, the register, process, latch or assignment
/// that the edge belongs to is drawn, with a pin that is joined to the seed.
pub proof fn law_traces_reach_logic(
    d: Document,
    steps: Seq<TraceStep>,
    limits: ConeLimits,
    projection: Projection,
    i: int,
    near: u32,
    scope: u32,
    bx: u32,
)
    requires
        steps.len() > 0,
        in_order(d),
        d.nodes@.len() <= 0x1_0000_0000,
        !traced(d, steps, limits, projection).truncated,
        is_wire(d, steps[0].seed),
        is_wire(d, near),
        d.nodes@[near as int].path@ == d.nodes@[steps[0].seed as int].path@,
        0 <= i < d.edges@.len() <= 0xffff_ffff,
        d.edges@[i].port == bx,
        d.edges@[i].endpoint == near,
        asked(d.edges@[i], near, steps[0].dir),
        is_logic(d, bx),
        d.nodes@[bx as int].kind != NodeKind::Memory,
        d.nodes@[bx as int].path@ != d.nodes@[near as int].path@,
        nests(d, scope, bx),
        own_box(d, projection, bx),
    ensures
        ({
            let g = traced(d, steps, limits, projection);
            let rep = group_at(d, steps[0].seed)[0];
            exists|pin: u32| #[trigger]
                bears_pin(g.nodes, bx, pin) && (pin == rep || joins(g.edges, rep, pin))
        }),
        has_box(traced(d, steps, limits, projection).nodes, bx),
{
    law_boxes_hold_their_ports(d, scope, projection, bx, bx);
    lemma_traced(d, steps, limits, projection, i, near, bx, false, bx);
}

/// A trace follows every edge of its seed that is asked for, whichever way the edge goes where
/// both ways are: unless something was left out, the instance whose port the edge ends at is
/// drawn, with a pin that is joined to the seed.
pub proof fn law_traces_reach_instances(
    d: Document,
    steps: Seq<TraceStep>,
    limits: ConeLimits,
    projection: Projection,
    i: int,
    near: u32,
    port: u32,
    scope: u32,
    bx: u32,
)
    requires
        steps.len() > 0,
        in_order(d),
        d.nodes@.len() <= 0x1_0000_0000,
        !traced(d, steps, limits, projection).truncated,
        is_wire(d, steps[0].seed),
        is_wire(d, near),
        d.nodes@[near as int].path@ == d.nodes@[steps[0].seed as int].path@,
        0 <= i < d.edges@.len() <= 0xffff_ffff,
        runs_between(d.edges@[i], near, port),
        asked(d.edges@[i], near, steps[0].dir),
        nests(d, bx, port),
        d.nodes@[port as int].kind == NodeKind::Port,
        d.nodes@[port as int].path@ != d.nodes@[near as int].path@,
        nests(d, scope, bx),
        d.nodes@[bx as int].kind == NodeKind::Instance,
        d.nodes@[bx as int].path@ != d.nodes@[near as int].path@,
    ensures
        ({
            let g = traced(d, steps, limits, projection);
            let rep = group_at(d, steps[0].seed)[0];
            exists|pin: u32| #[trigger]
                bears_pin(g.nodes, bx, pin) && (pin == rep || joins(g.edges, rep, pin))
        }),
        has_box(traced(d, steps, limits, projection).nodes, bx),
{
    law_boxes_hold_their_ports(d, scope, projection, bx, port);
    lemma_traced(d, steps, limits, projection, i, near, port, false, bx);
}

/// A trace at gate level follows every edge of its seed that is asked for to the primitive
/// whose edge it is, where that is drawn as a box.
pub proof fn law_traces_reach_primitives(
    d: Document,
    steps: Seq<TraceStep>,
    limits: ConeLimits,
    projection: Projection,
    i: int,
    near: u32,
    bx: u32,
)
    requires
        steps.len() > 0,
        in_order(d),
        d.nodes@.len() <= 0x1_0000_0000,
        !traced(d, steps, limits, projection).truncated,
        is_wire(d, steps[0].seed),
        is_wire(d, near),
        d.nodes@[near as int].path@ == d.nodes@[steps[0].seed as int].path@,
        0 <= i < d.edges@.len() <= 0xffff_ffff,
        d.edges@[i].port == bx,
        d.edges@[i].endpoint == near,
        asked(d.edges@[i], near, steps[0].dir),
        is_primitive(d, bx),
        d.nodes@[bx as int].path@ != d.nodes@[near as int].path@,
        box_around(d, bx, projection) is Some,
        (box_around(d, bx, projection)->0).0 == bx,
    ensures
        ({
            let g = traced(d, steps, limits, projection);
            let rep = group_at(d, steps[0].seed)[0];
            exists|pin: u32| #[trigger]
                bears_pin(g.nodes, bx, pin) && (pin == rep || joins(g.edges, rep, pin))
        }),
        has_box(traced(d, steps, limits, projection).nodes, bx),
{
    lemma_traced(d, steps, limits, projection, i, near, bx, false, bx);
}

/// A trace follows every edge of its seed that is asked for to the signal at its other end,
/// where no box is drawn around that one: the signal is drawn, and joined to the seed.
pub proof fn law_traces_reach_signals(
    d: Document,
    steps: Seq<TraceStep>,
    limits: ConeLimits,
    projection: Projection,
    i: int,
    near: u32,
    other: u32,
)
    requires
        steps.len() > 0,
        in_order(d),
        d.nodes@.len() <= 0x1_0000_0000,
        !traced(d, steps, limits, projection).truncated,
        is_wire(d, steps[0].seed),
        is_wire(d, near),
        d.nodes@[near as int].path@ == d.nodes@[steps[0].seed as int].path@,
        0 <= i < d.edges@.len() <= 0xffff_ffff,
        runs_between(d.edges@[i], near, other),
        asked(d.edges@[i], near, steps[0].dir),
        is_wire(d, other),
        d.nodes@[other as int].path@ != d.nodes@[near as int].path@,
        box_around(d, other, projection) is None,
    ensures
        ({
            let g = traced(d, steps, limits, projection);
            let rep = group_at(d, steps[0].seed)[0];
            let far = group_at(d, other)[0];
            crate::schematic::walk_laws::pin_shown(g.nodes, far) && (far == rep || joins(
                g.edges,
                rep,
                far,
            ))
        }),
{
    lemma_traced(
        d,
        steps,
        limits,
        projection,
        i,
        near,
        other,
        true,
        group_at(d, other)[0],
    );
}

// --- Traces that go on --------------------------------------------------------

proof fn lemma_same_steps(
    d: Document,
    a: Seq<TraceStep>,
    b: Seq<TraceStep>,
    limits: ConeLimits,
    projection: Projection,
    root: Seq<char>,
    n: nat,
)
    requires
        n <= a.len() <= b.len(),
        forall|k: int| 0 <= k < n ==> #[trigger] a[k] == b[k],
    ensures
        steps_walk(d, a, limits, projection, root, n) == steps_walk(
            d,
            b,
            limits,
            projection,
            root,
            n,
        ),
    decreases n,
{
    if n > 0 {
        lemma_same_steps(d, a, b, limits, projection, root, (n - 1) as nat);
        assert(a[n - 1] == b[n - 1]);
    }
}

proof fn lemma_joins_kept(d: Document, w: WalkV, v: WalkV, p: u32, q: u32)
    requires
        sound(w),
        grows(w, v),
        all_drawn(v.wires),
        joins(w.wires.edges, p, q),
    ensures
        joins(v.wires.edges, p, q),
{
    let k = choose|k: int|
        0 <= k < w.wires.edges.len() && (((#[trigger] w.wires.edges[k]).source == p
            && w.wires.edges[k].target == q) || (w.wires.edges[k].source == q
            && w.wires.edges[k].target == p));
    let x = pair_of(w.wires.edges[k].source, w.wires.edges[k].target);
    assert(x == pair_of(p, q));
    assert(v.wires.seen.contains(x));
    let j = choose|j: int|
        0 <= j < v.wires.edges.len() && pair_of(
            (#[trigger] v.wires.edges[j]).source,
            v.wires.edges[j].target,
        ) == x;
    assert(v.wires.edges[j].source == p || v.wires.edges[j].target == p);
}

/// Further requests take nothing away: pins that a trace joins are joined by every trace that
/// goes on from it.
pub proof fn law_further_requests_keep_wires(
    d: Document,
    steps: Seq<TraceStep>,
    more: Seq<TraceStep>,
    limits: ConeLimits,
    projection: Projection,
    p: u32,
    q: u32,
)
    requires
        steps.len() > 0,
        d.edges@.len() <= 0xffff_ffff,
        joins(traced(d, steps, limits, projection).edges, p, q),
    ensures
        joins(traced(d, steps + more, limits, projection).edges, p, q),
{
    let all = steps + more;
    let root = trace_root(d, steps);
    assert(all[0] == steps[0]);
    lemma_same_steps(d, steps, all, limits, projection, root, steps.len());
    lemma_steps(d, all, limits, projection, root, steps.len(), all.len());
    law_walks_stay_sound(d, steps, limits, projection, root, steps.len());
    lemma_joins_kept(
        d,
        steps_walk(d, steps, limits, projection, root, steps.len()),
        steps_walk(d, all, limits, projection, root, all.len()),
        p,
        q,
    );
}

proof fn lemma_deeper(d: Document, s: StepV, frontier: Seq<u32>, k: nat, m: nat, w: WalkV)
    requires
        whole(d, w),
        d.edges@.len() <= 0xffff_ffff,
        k <= m,
    ensures
        grows(hops(d, s, frontier, k, w), hops(d, s, frontier, m, w)),
    decreases k,
{
    if k == 0 {
        lemma_hops(d, s, frontier, m, w);
    } else {
        lemma_hop(d, s, frontier, frontier.len(), w);
        let v = hop(d, s, frontier, frontier.len(), w).1;
        if v.next.len() == 0 {
            assert(extends(v.pins, v.pins));
        } else {
            lemma_deeper(d, s, v.next, (k - 1) as nat, (m - 1) as nat, v);
        }
    }
}

/// A deeper trace takes nothing away: pins that a trace joins are joined by the trace of the
/// same seed that makes more hops.
pub proof fn law_deeper_traces_keep_wires(
    d: Document,
    step: TraceStep,
    deeper: TraceStep,
    limits: ConeLimits,
    projection: Projection,
    p: u32,
    q: u32,
)
    requires
        d.edges@.len() <= 0xffff_ffff,
        deeper == (TraceStep { depth: deeper.depth, ..step }),
        step.depth <= deeper.depth,
        joins(traced(d, seq![step], limits, projection).edges, p, q),
    ensures
        joins(traced(d, seq![deeper], limits, projection).edges, p, q),
{
    let root = trace_root(d, seq![step]);
    let w = blank(d);
    reveal_with_fuel(steps_walk, 2);
    let s = budget(step, limits, projection, root);
    assert(budget(deeper, limits, projection, root) == s);
    let (frontier, v) = match seed_box(d, step.seed, projection) {
        Some(scope) => (seq![step.seed], box_seeded(d, s, step.seed, scope, w)),
        None => (seeds_at(d, step.seed, step.dir), w),
    };
    let u = WalkV {
        visited: v.visited.union(frontier.to_set()),
        seeds: anchored_seeds(d, frontier, frontier.len(), v.seeds),
        ..v
    };
    assert(whole(d, w));
    lemma_started(d, step, limits, projection, root, w);
    let a: nat = if step.depth > 0 {
        step.depth as nat
    } else {
        1
    };
    let b: nat = if deeper.depth > 0 {
        deeper.depth as nat
    } else {
        1
    };
    lemma_deeper(d, s, frontier, a, b, u);
    law_walks_stay_sound(d, seq![step], limits, projection, root, 1);
    lemma_steps(d, seq![deeper], limits, projection, root, 0, 1);
    lemma_joins_kept(
        d,
        steps_walk(d, seq![step], limits, projection, root, 1),
        steps_walk(d, seq![deeper], limits, projection, root, 1),
        p,
        q,
    );
}

// --- Behind the first boxes ---------------------------------------------------

proof fn lemma_same_group(d: Document, x: u32, y: u32)
    requires
        in_order(d),
        d.nodes@.len() <= 0x1_0000_0000,
        is_wire(d, y),
        group_at(d, x)[0] == group_at(d, y)[0],
    ensures
        group_at(d, x) == group_at(d, y),
{
    lemma_start(d, y, Dir::In, y);
    let rep = group_at(d, y)[0];
    assert(group_at(d, y).contains(rep));
    if signal_at(d, x) {
        lemma_start(d, x, Dir::In, x);
        assert(group_at(d, x).contains(group_at(d, x)[0]));
        assert(d.nodes@[x as int].path@ == d.nodes@[y as int].path@);
        lemma_start(d, y, Dir::In, x);
        lemma_start(d, x, Dir::In, y);
    } else {
        assert(group_at(d, x)[0] == x);
    }
}

#[verifier::rlimit(40)]
proof fn lemma_second_hop(
    d: Document,
    steps: Seq<TraceStep>,
    limits: ConeLimits,
    projection: Projection,
    root: Seq<char>,
    i: int,
    near: u32,
    scope: u32,
    bx: u32,
    j: int,
    y: u32,
)
    requires
        steps.len() > 0,
        steps[0].depth >= 2,
        in_order(d),
        d.nodes@.len() <= 0x1_0000_0000,
        !steps_walk(d, steps, limits, projection, root, 1).truncated,
        is_wire(d, steps[0].seed),
        is_wire(d, near),
        d.nodes@[near as int].path@ == d.nodes@[steps[0].seed as int].path@,
        0 <= i < d.edges@.len() <= 0xffff_ffff,
        d.edges@[i].port == bx,
        d.edges@[i].endpoint == near,
        asked(d.edges@[i], near, steps[0].dir),
        is_logic(d, bx),
        d.nodes@[bx as int].kind != NodeKind::Memory,
        d.nodes@[bx as int].path@ != d.nodes@[near as int].path@,
        nests(d, scope, bx),
        own_box(d, projection, bx),
        0 <= j < d.edges@.len(),
        d.edges@[j].port == bx,
        d.edges@[j].endpoint == y,
        is_wire(d, y),
        d.nodes@[y as int].path@ != d.nodes@[near as int].path@,
        forall|k: int, m: u32|
            0 <= k < d.edges@.len() && k != j && #[trigger] is_wire(d, m) && d.nodes@[m as int].path@
                == d.nodes@[y as int].path@ ==> (#[trigger] d.edges@[k]).port != m
                && d.edges@[k].endpoint != m,
    ensures
        hangs(
            steps_walk(d, steps, limits, projection, root, 1),
            group_at(d, y)[0],
            bx,
            y,
        ),
{
    let step = steps[0];
    let seed = step.seed;
    let s = budget(step, limits, projection, root);
    let w = blank(d);
    let rep = group_at(d, y)[0];
    law_boxes_hold_their_ports(d, scope, projection, bx, bx);
    lemma_box_around(d, bx, projection);
    lemma_boxed(d, projection, bx);
    lemma_box_around(d, seed, projection);
    if seed_box(d, seed, projection) is Some {
        lemma_boxed(d, projection, seed);
    }
    lemma_start(d, seed, step.dir, near);
    let f = seeds_at(d, seed, step.dir);
    let g = group_at(d, seed);
    let path = d.nodes@[seed as int].path@;
    let u = WalkV {
        visited: w.visited.union(f.to_set()),
        seeds: anchored_seeds(d, f, f.len(), w.seeds),
        ..w
    };
    lemma_anchored(d, f, f.len(), w.seeds);
    let at = choose|k: int| 0 <= k < f.len() && f[k] == seed;
    assert(u.seeds.contains(group_at(d, f[at])[0]));
    assert(whole(d, u));
    assert(sound(u));
    let base = Set::new(|x: u32| x < d.nodes@.len() && d.nodes@[x as int].path@ == path);
    assert(u.visited.subset_of(base)) by {
        assert forall|x: u32| u.visited.contains(x) implies base.contains(x) by {
            let k = choose|k: int| 0 <= k < f.len() && f[k] == x;
            assert(f[k] < d.nodes@.len());
        }
    }
    assert forall|k: int, x: u32|
        0 <= k < f.len() && #[trigger] group_at(d, f[k]).contains(x) implies base.contains(x) by {
        assert(f[k] < d.nodes@.len());
    }
    assert(!f.contains(bx)) by {
        if f.contains(bx) {
            let k = choose|k: int| 0 <= k < f.len() && f[k] == bx;
            assert(d.nodes@[f[k] as int].path@ == path);
        }
    }
    assert forall|k: int| 0 <= k < g.len() implies signal_at(d, #[trigger] g[k]) by {
        assert(g.contains(g[k]));
    }
    assert(!g.contains(bx));
    lemma_hop_passes(d, s, f, f.len(), g, i, bx, base, u);
    lemma_hop_reaches(d, s, f, f.len(), g, i, false, bx, u);
    lemma_hop(d, s, f, f.len(), u);
    crate::schematic::walk_laws::lemma_hop(d, s, f, f.len(), u);
    let v = hop(d, s, f, f.len(), u).1;
    assert(signal_at(d, f[at]));
    reveal_with_fuel(steps_walk, 2);
    let one = steps_walk(d, steps, limits, projection, root, 1);
    let k: nat = step.depth as nat;
    assert(one == hops(d, s, f, k, u));
    if v.next.len() > 0 {
        lemma_hops(d, s, v.next, (k - 1) as nat, v);
    }
    assert(!v.truncated);
    // The signal is ahead after the first hop.
    law_nodes_list_their_edges(d, bx, j as u32);
    let inc = crate::model::incident(d, bx);
    let jj = choose|jj: int| 0 <= jj < inc.len() && inc[jj] == j as u32;
    assert(far_end(edge_at(d, inc[jj]), bx) == y);
    assert(beyond_box(d, projection, bx, y));
    assert(v.visited.contains(y));
    assert(v.next.contains(y));
    // The second hop draws it.
    lemma_start(d, y, Dir::In, y);
    let gy = group_at(d, y);
    assert(only_edge(d, gy, j, bx)) by {
        assert forall|m: int|
            0 <= m < d.edges@.len() && (gy.contains((#[trigger] d.edges@[m]).port) || gy.contains(
                d.edges@[m].endpoint,
            )) implies m == j by {
            if gy.contains(d.edges@[m].port) {
                assert(is_wire(d, d.edges@[m].port));
            } else {
                assert(is_wire(d, d.edges@[m].endpoint));
            }
        }
    }
    assert forall|m: int|
        0 <= m < v.next.len() && (#[trigger] group_at(d, v.next[m]))[0] == gy[0] implies group_at(
        d,
        v.next[m],
    ) == gy by {
        lemma_same_group(d, v.next[m], y);
    }
    assert forall|m: int| 0 <= m < gy.len() implies signal_at(d, #[trigger] gy[m]) by {
        assert(gy.contains(gy[m]));
    }
    lemma_hop_hangs(d, s, v.next, v.next.len(), gy, j, bx, v);
    lemma_hop(d, s, v.next, v.next.len(), v);
    let v2 = hop(d, s, v.next, v.next.len(), v).1;
    let m = choose|m: int| 0 <= m < v.next.len() && v.next[m] == y;
    assert(group_at(d, v.next[m])[0] == gy[0]);
    assert(hangs(v2, rep, bx, y));
    assert(hops(d, s, v.next, (k - 1) as nat, v) == one);
    if v2.next.len() > 0 {
        lemma_hops(d, s, v2.next, (k - 2) as nat, v2);
        lemma_hangs_kept(v2, one, rep, bx, y);
    }
    assert(hangs(one, rep, bx, y));
}

/// A trace of two hops goes through logic: a signal that only the logic touches, at the other
/// end of another edge of logic that the first seed leads to, is drawn and joined to the logic.
pub proof fn law_traces_go_on_behind_logic(
    d: Document,
    steps: Seq<TraceStep>,
    limits: ConeLimits,
    projection: Projection,
    i: int,
    near: u32,
    scope: u32,
    bx: u32,
    j: int,
    y: u32,
)
    requires
        steps.len() > 0,
        steps[0].depth >= 2,
        in_order(d),
        d.nodes@.len() <= LOGIC_PIN_BASE,
        steps_walk(
            d,
            steps,
            limits,
            projection,
            trace_root(d, steps),
            steps.len(),
        ).pins.len() <= 0xC000_0000,
        !traced(d, steps, limits, projection).truncated,
        is_wire(d, steps[0].seed),
        is_wire(d, near),
        d.nodes@[near as int].path@ == d.nodes@[steps[0].seed as int].path@,
        0 <= i < d.edges@.len() <= 0xffff_ffff,
        d.edges@[i].port == bx,
        d.edges@[i].endpoint == near,
        asked(d.edges@[i], near, steps[0].dir),
        is_logic(d, bx),
        d.nodes@[bx as int].kind != NodeKind::Memory,
        d.nodes@[bx as int].path@ != d.nodes@[near as int].path@,
        nests(d, scope, bx),
        own_box(d, projection, bx),
        0 <= j < d.edges@.len(),
        d.edges@[j].port == bx,
        d.edges@[j].endpoint == y,
        is_wire(d, y),
        d.nodes@[y as int].path@ != d.nodes@[near as int].path@,
        forall|k: int, m: u32|
            0 <= k < d.edges@.len() && k != j && #[trigger] is_wire(d, m) && d.nodes@[m as int].path@
                == d.nodes@[y as int].path@ ==> (#[trigger] d.edges@[k]).port != m
                && d.edges@[k].endpoint != m,
    ensures
        ({
            let g = traced(d, steps, limits, projection);
            let rep = group_at(d, y)[0];
            exists|pin: u32| #[trigger]
                bears_pin(g.nodes, bx, pin) && joins(g.edges, rep, pin)
        }),
{
    let root = trace_root(d, steps);
    let rep = group_at(d, y)[0];
    let one = steps_walk(d, steps, limits, projection, root, 1);
    let w = steps_walk(d, steps, limits, projection, root, steps.len());
    lemma_steps(d, steps, limits, projection, root, 1, steps.len());
    law_walks_stay_sound(d, steps, limits, projection, root, steps.len());
    let want = wanted(d, w.nodes, w.nodes.len());
    lemma_cut(
        d,
        want,
        want.len(),
        root,
        limits.boxes as nat,
        ContainedV { nodes: w.nodes, containers: Set::empty(), pins: w.pins, cut: w.truncated },
    );
    lemma_second_hop(d, steps, limits, projection, root, i, near, scope, bx, j, y);
    lemma_hangs_kept(one, w, rep, bx, y);
    law_boxes_hold_their_ports(d, scope, projection, bx, bx);
    lemma_first(
        d,
        steps,
        limits,
        projection,
        root,
        i,
        near,
        bx,
        false,
        bx,
    );
    lemma_reached_kept(one, w, group_at(d, steps[0].seed)[0], false, bx);
    assert(w.emitted.contains(bx));
    let pin = pin_id(w.pins, bx, y);
    lemma_slot(w.pins, (bx, y));
    lemma_start(d, y, Dir::In, y);
    assert(group_at(d, y).contains(rep));
    assert(pin >= LOGIC_PIN_BASE && rep < d.nodes@.len());
    let e = choose|e: int|
        0 <= e < w.wires.edges.len() && pair_of(
            (#[trigger] w.wires.edges[e]).source,
            w.wires.edges[e].target,
        ) == pair_of(rep, pin);
    assert(w.wires.edges[e].source == pin || w.wires.edges[e].target == pin);
    assert(joins(w.wires.edges, rep, pin));
    lemma_kept(d, w, root, limits.boxes as nat, bx, pin);
    assert(bears_pin(traced(d, steps, limits, projection).nodes, bx, pin));
}

} // verus!
