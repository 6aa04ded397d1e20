//! How the wires of a trace are numbered.

use crate::model::{edge_at, incident, node_at, touching, Document, Edge, Node};
use crate::schematic::pins::offset_id;
use crate::schematic::reach::{far_end, group_at, leaves, pin_for, seeds_at};
use crate::schematic::trace::{
    anchored_seeds, box_seeded, budget, seed_box, step_walk, steps_walk, trace_root, traced,
};
use crate::schematic::types::{ConeLimits, Projection, Side, TraceStep};
use crate::schematic::walk::{
    added, edge_step, edge_taken, edges_step, enqueued_all, free_anchor, hop, hops, join_step,
    near_end, on_box, past_box, report_step, seed_wired, signal_of, signal_step, stub_step,
    through_box, FarV, GatheredV, SignalV, StepV, WalkV,
};
use crate::schematic::wires::{joined_all, joined_to, Anchor, WiresV};
use vstd::prelude::*;

verus! {

/// Whether wires are numbered from `first` on without a gap, and the next one goes on there.
pub open spec fn numbered(w: WiresV, first: u32) -> bool {
    &&& w.next == offset_id(first, w.edges.len())
    &&& forall|k: int|
        0 <= k < w.edges.len() ==> (#[trigger] w.edges[k]).id == offset_id(first, k as nat)
}

proof fn lemma_joined_to(
    sig: Option<Node>,
    scope: Seq<char>,
    dr: Anchor,
    loads: Seq<Anchor>,
    n: nat,
    w: WiresV,
    first: u32,
)
    requires
        numbered(w, first),
    ensures
        numbered(joined_to(sig, scope, dr, loads, n, w), first),
    decreases n,
{
    if n > 0 {
        lemma_joined_to(sig, scope, dr, loads, (n - 1) as nat, w, first);
    }
}

proof fn lemma_joined_all(
    sig: Option<Node>,
    scope: Seq<char>,
    drivers: Seq<Anchor>,
    loads: Seq<Anchor>,
    n: nat,
    w: WiresV,
    first: u32,
)
    requires
        numbered(w, first),
    ensures
        numbered(joined_all(sig, scope, drivers, loads, n, w), first),
    decreases n,
{
    if n > 0 {
        lemma_joined_all(sig, scope, drivers, loads, (n - 1) as nat, w, first);
        lemma_joined_to(
            sig,
            scope,
            drivers[n - 1],
            loads,
            loads.len(),
            joined_all(sig, scope, drivers, loads, (n - 1) as nat, w),
            first,
        );
    }
}

proof fn lemma_enqueued_all(g: SignalV, ids: Seq<u32>, n: nat, w: WalkV)
    ensures
        enqueued_all(g, ids, n, w).wires == w.wires,
    decreases n,
{
    if n > 0 {
        lemma_enqueued_all(g, ids, (n - 1) as nat, w);
    }
}

proof fn lemma_through_box(d: Document, p: Projection, g: SignalV, bx: u32, n: nat, w: WalkV)
    ensures
        through_box(d, p, g, bx, n, w).wires == w.wires,
    decreases n,
{
    if n > 0 {
        lemma_through_box(d, p, g, bx, (n - 1) as nat, w);
    }
}

proof fn lemma_past_box(d: Document, s: StepV, g: SignalV, bx: u32, other: u32, w: WalkV)
    ensures
        past_box(d, s, g, bx, other, w).wires == w.wires,
{
    let all = group_at(d, other);
    lemma_enqueued_all(g, all, all.len(), w);
    lemma_through_box(d, s.projection, g, bx, incident(d, bx).len(), w);
    lemma_through_box(
        d,
        s.projection,
        g,
        bx,
        incident(d, bx).len(),
        enqueued_all(g, all, all.len(), w),
    );
}

proof fn lemma_seed_wired(
    d: Document,
    s: StepV,
    g: SignalV,
    scope: u32,
    near: u32,
    e: Edge,
    pin: u32,
    w: WalkV,
    first: u32,
)
    requires
        numbered(w.wires, first),
    ensures
        numbered(seed_wired(d, s, g, scope, near, e, pin, w).wires, first),
{
    let np = pin_for(d, scope, s.projection, g.rep, near, e, w.pins).0;
    let (dp, lp) = if leaves(e, near) {
        (np, pin)
    } else {
        (pin, np)
    };
    lemma_joined_all(
        node_at(d, g.rep),
        s.root,
        seq![(dp, e.select)],
        seq![(lp, e.select)],
        1,
        w.wires,
        first,
    );
}

proof fn lemma_edge_taken(
    d: Document,
    s: StepV,
    g: SignalV,
    near: u32,
    e: Edge,
    f: FarV,
    pin: u32,
    a: GatheredV,
    w: WalkV,
    first: u32,
)
    requires
        numbered(w.wires, first),
    ensures
        numbered(edge_taken(d, s, g, near, e, f, pin, a, w).1.wires, first),
{
    let w1 = match f.fresh {
        Some(b) => match f.bx {
            Some(bx) => WalkV { emitted: w.emitted.insert(bx), ..added(w, b) },
            None => added(w, b),
        },
        None => w,
    };
    let w2 = match g.seed_scope {
        Some(scope) => seed_wired(d, s, g, scope, near, e, pin, w1),
        None => w1,
    };
    match g.seed_scope {
        Some(scope) => {
            lemma_seed_wired(d, s, g, scope, near, e, pin, w1, first);
        },
        None => {},
    }
    match f.bx {
        Some(bx) => {
            lemma_past_box(d, s, g, bx, far_end(e, near), w2);
        },
        None => {},
    }
}

proof fn lemma_edge(
    d: Document,
    s: StepV,
    g: SignalV,
    near: u32,
    e: Edge,
    a: GatheredV,
    w: WalkV,
    first: u32,
)
    requires
        numbered(w.wires, first),
    ensures
        numbered(edge_step(d, s, g, near, e, a, w).1.wires, first),
{
    let other = far_end(e, near);
    let (f, w1) = on_box(d, s, other, e, w);
    assert(w1.wires == w.wires);
    let side = if leaves(e, near) {
        Side::West
    } else {
        Side::East
    };
    let (pin, w2) = match f.pin {
        Some(p) => (Some(p), w1),
        None => free_anchor(d, s.projection, other, side, w1),
    };
    assert(w2.wires == w.wires);
    match pin {
        Some(p) => {
            lemma_edge_taken(d, s, g, near, e, f, p, a, w2, first);
        },
        None => {},
    }
}

proof fn lemma_edges(
    d: Document,
    s: StepV,
    g: SignalV,
    at: Seq<u32>,
    n: nat,
    w: WalkV,
    first: u32,
)
    requires
        numbered(w.wires, first),
    ensures
        numbered(edges_step(d, s, g, at, n, w).1.wires, first),
    decreases n,
{
    if n > 0 {
        lemma_edges(d, s, g, at, (n - 1) as nat, w, first);
        let (a, v) = edges_step(d, s, g, at, (n - 1) as nat, w);
        let e = edge_at(d, at[n - 1]);
        lemma_edge(d, s, g, near_end(g, e), e, a, v, first);
    }
}

proof fn lemma_join_step(
    d: Document,
    s: StepV,
    g: SignalV,
    stub: Option<u32>,
    a: GatheredV,
    w: WiresV,
    first: u32,
)
    requires
        numbered(w, first),
    ensures
        numbered(join_step(d, s, g, stub, a, w), first),
{
    let sig = node_at(d, g.rep);
    match stub {
        Some(p) => {
            let mid: Seq<Anchor> = seq![(p, None)];
            lemma_joined_all(sig, s.root, mid, a.loads, 1, w, first);
            lemma_joined_all(sig, s.root, a.drivers, mid, a.drivers.len(), w, first);
            lemma_joined_all(
                sig,
                s.root,
                mid,
                a.loads,
                1,
                joined_all(sig, s.root, a.drivers, mid, a.drivers.len(), w),
                first,
            );
        },
        None => {
            lemma_joined_all(sig, s.root, a.drivers, a.loads, a.drivers.len(), w, first);
        },
    }
}

proof fn lemma_signal(d: Document, s: StepV, g: SignalV, w: WalkV, first: u32)
    requires
        numbered(w.wires, first),
    ensures
        numbered(signal_step(d, s, g, w).wires, first),
{
    let at = touching(d.edges@, g.members.to_set());
    lemma_edges(d, s, g, at, at.len(), w, first);
    let (a, w1) = edges_step(d, s, g, at, at.len(), w);
    let (stub, w2) = stub_step(d, s, g, a, w1);
    assert(w2.wires == w1.wires);
    let w3 = report_step(stub, a, w2);
    lemma_join_step(d, s, g, stub, a, w3.wires, first);
}

proof fn lemma_hop(d: Document, s: StepV, frontier: Seq<u32>, n: nat, w: WalkV, first: u32)
    requires
        numbered(w.wires, first),
    ensures
        numbered(hop(d, s, frontier, n, w).1.wires, first),
    decreases n,
{
    if n > 0 {
        lemma_hop(d, s, frontier, (n - 1) as nat, w, first);
        let (done, v) = hop(d, s, frontier, (n - 1) as nat, w);
        let g = signal_of(d, frontier[n - 1], v);
        let u = WalkV { visited: v.visited.union(g.members.to_set()), ..v };
        lemma_signal(d, s, g, u, first);
    }
}

proof fn lemma_hops(d: Document, s: StepV, frontier: Seq<u32>, k: nat, w: WalkV, first: u32)
    requires
        numbered(w.wires, first),
    ensures
        numbered(hops(d, s, frontier, k, w).wires, first),
    decreases k,
{
    if k > 0 {
        lemma_hop(d, s, frontier, frontier.len(), w, first);
        let v = hop(d, s, frontier, frontier.len(), w).1;
        lemma_hops(d, s, v.next, (k - 1) as nat, v, first);
    }
}

proof fn lemma_step(
    d: Document,
    step: TraceStep,
    limits: ConeLimits,
    projection: Projection,
    root: Seq<char>,
    w: WalkV,
    first: u32,
)
    requires
        numbered(w.wires, first),
    ensures
        numbered(step_walk(d, step, limits, projection, root, w).wires, first),
{
    let s = budget(step, limits, projection, root);
    let (frontier, v) = match seed_box(d, step.seed, projection) {
        Some(scope) => (seq![step.seed], box_seeded(d, s, step.seed, scope, w)),
        None => (seeds_at(d, step.seed, step.dir), w),
    };
    let u = WalkV {
        visited: v.visited.union(frontier.to_set()),
        seeds: anchored_seeds(d, frontier, frontier.len(), v.seeds),
        ..v
    };
    assert(u.wires == w.wires);
    lemma_hops(
        d,
        s,
        frontier,
        if step.depth > 0 {
            step.depth as nat
        } else {
            1
        },
        u,
        first,
    );
}

proof fn lemma_steps(
    d: Document,
    steps: Seq<TraceStep>,
    limits: ConeLimits,
    projection: Projection,
    root: Seq<char>,
    n: nat,
)
    requires
        n <= steps.len(),
        d.edges@.len() <= u32::MAX,
    ensures
        numbered(
            steps_walk(d, steps, limits, projection, root, n).wires,
            d.edges@.len() as u32,
        ),
    decreases n,
{
    if n > 0 {
        lemma_steps(d, steps, limits, projection, root, (n - 1) as nat);
        lemma_step(
            d,
            steps[n - 1],
            limits,
            projection,
            root,
            steps_walk(d, steps, limits, projection, root, (n - 1) as nat),
            d.edges@.len() as u32,
        );
    }
}

/// The wires of a trace are numbered one after the other, behind the edges of the design.
/// Past the last number of 32 bits they go on from nought.
pub proof fn law_trace_wires_are_numbered(
    d: Document,
    steps: Seq<TraceStep>,
    limits: ConeLimits,
    projection: Projection,
    i: int,
)
    requires
        d.edges@.len() <= u32::MAX,
        0 <= i < traced(d, steps, limits, projection).edges.len(),
    ensures
        traced(d, steps, limits, projection).edges[i].id == offset_id(
            d.edges@.len() as u32,
            i as nat,
        ),
{
    let root = trace_root(d, steps);
    lemma_steps(d, steps, limits, projection, root, steps.len());
    let w = steps_walk(d, steps, limits, projection, root, steps.len());
    assert(traced(d, steps, limits, projection).edges[i] == w.wires.edges[i]);
}

/// As long as there are numbers, no wire of a trace has the number of another wire or of an
/// edge of the design.
pub proof fn law_trace_wire_numbers_are_new(
    d: Document,
    steps: Seq<TraceStep>,
    limits: ConeLimits,
    projection: Projection,
    i: int,
    j: int,
)
    requires
        0 <= i < j < traced(d, steps, limits, projection).edges.len(),
        d.edges@.len() + traced(d, steps, limits, projection).edges.len() <= u32::MAX,
    ensures
        ({
            let edges = traced(d, steps, limits, projection).edges;
            d.edges@.len() <= edges[i].id < edges[j].id
        }),
{
    law_trace_wires_are_numbered(d, steps, limits, projection, i);
    law_trace_wires_are_numbered(d, steps, limits, projection, j);
}

} // verus!
