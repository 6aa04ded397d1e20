//! What a trace draws at a level of detail, and what it says of what it leaves out.

use crate::model::{
    children_at, edge_at, incident, kind_at, node_at, touching, Document, Edge, Node, NodeKind,
};
use crate::schematic::boxes::{
    box_pins, bundle_pins, child_pins, drawn, logic_pins, operand_pins, stub_box, view_pins,
};
use crate::schematic::hierarchy::container_of;
use crate::schematic::kinds::{
    boxes_in, boxes_of, foldable, gate_at, gates_in, gate_kind, has_kind, inline_at, reader_of,
};
use crate::schematic::pins::Pins;
use crate::schematic::reach::{
    box_around, box_up, far_end, gate_scope, group_at, leaves, seeds_at,
};
use crate::schematic::scope_laws::{lemma_instance_found, lemma_process_boxes_of, ungated};
use crate::schematic::trace::{
    anchored_seeds, apart, box_seeded, budget, contained, counted, filled, finished, has_box,
    outer_path, pruned, seed_box, showing, steps_walk, trace_root, traced, unhooked, wanted,
    wanted_from, with_containers, with_parents, ContainedV,
};
use crate::schematic::types::{ConeLimits, EdgeV, NodeV, PortV, Projection, Side, TraceStep};
use crate::schematic::walk::{
    added, edge_step, edges_step, enqueued_all, free_anchor, hop, hops, near_end, on_box, past_box,
    report_step, scope_path, seed_wired, signal_of, stub_step, through_box, GatheredV, SignalV,
    StepV, WalkV,
};
use vstd::prelude::*;

verus! {

/// Whether a node is one of the boxes of a scope.
pub open spec fn boxed(d: Document, projection: Projection, id: u32) -> bool {
    exists|scope: u32| #[trigger] boxes_of(d, scope, projection).contains(id)
}

/// Whether a box stands for the node that its id names, and that node is a box of a scope at
/// this level, or else neither a primitive nor drawn inside another box.
pub open spec fn placed(d: Document, projection: Projection, n: NodeV) -> bool {
    &&& kind_at(d, n.id) == Some(n.kind)
    &&& boxed(d, projection, n.id) || (!gate_at(d, n.id) && !inline_at(d, n.id, projection))
}

/// Whether all boxes are placed.
pub open spec fn all_placed(d: Document, projection: Projection, nodes: Seq<NodeV>) -> bool {
    forall|k: int| 0 <= k < nodes.len() ==> placed(d, projection, #[trigger] nodes[k])
}

/// Whether no pin reports connections that were left out.
pub open spec fn quiet_pins(ports: Seq<PortV>) -> bool {
    forall|j: int| 0 <= j < ports.len() ==> (#[trigger] ports[j]).more is None
}

spec fn quiet(nodes: Seq<NodeV>) -> bool {
    forall|k: int| 0 <= k < nodes.len() ==> quiet_pins((#[trigger] nodes[k]).ports)
}

/// What every walk keeps: its boxes are placed and report nothing yet, and it counts as cut
/// off where anything is to be reported.
spec fn right(d: Document, projection: Projection, w: WalkV) -> bool {
    &&& all_placed(d, projection, w.nodes)
    &&& quiet(w.nodes)
    &&& forall|x: u32| #[trigger] w.more.contains_key(x) ==> w.truncated
}

// --- Boxes --------------------------------------------------------------------

proof fn lemma_box_up(d: Document, id: u32, projection: Projection, n: nat)
    ensures
        box_up(d, id, projection, n) is Some ==> boxed(
            d,
            projection,
            (box_up(d, id, projection, n)->0).0,
        ),
    decreases n,
{
    match crate::model::parent_at(d, id) {
        Some(p) => {
            if !boxes_of(d, p, projection).contains(id) && n > 0 {
                lemma_box_up(d, p, projection, (n - 1) as nat);
            }
        },
        None => {},
    }
}

pub(crate) proof fn lemma_box_around(d: Document, node: u32, projection: Projection)
    ensures
        box_around(d, node, projection) is Some ==> boxed(
            d,
            projection,
            (box_around(d, node, projection)->0).0,
        ),
{
    lemma_box_up(d, node, projection, d.nodes@.len());
    let bx = if foldable(d, node) {
        reader_of(d, node)
    } else {
        Some(node)
    };
    match bx {
        Some(b) => {
            match gate_scope(d, b, projection) {
                Some(s) => {
                    assert(boxes_of(d, s, projection).contains(b));
                },
                None => {},
            }
        },
        None => {},
    }
}

proof fn lemma_logic_pins(d: Document, bx: u32, n: Node, k: nat, p: Pins)
    ensures
        quiet_pins(logic_pins(d, bx, n, k, p).0),
    decreases k,
{
    if k > 0 {
        lemma_logic_pins(d, bx, n, (k - 1) as nat, p);
    }
}

proof fn lemma_operand_pins(d: Document, gate: u32, k: nat, p: Pins)
    ensures
        quiet_pins(operand_pins(d, gate, k, p).0),
    decreases k,
{
    if k > 0 {
        lemma_operand_pins(d, gate, (k - 1) as nat, p);
    }
}

proof fn lemma_child_pins(d: Document, cs: Seq<u32>, mirror: bool, n: nat)
    ensures
        quiet_pins(child_pins(d, cs, mirror, n)),
    decreases n,
{
    if n > 0 {
        lemma_child_pins(d, cs, mirror, (n - 1) as nat);
    }
}

proof fn lemma_view_pins(d: Document, iface: u32, n: nat)
    ensures
        quiet_pins(view_pins(d, iface, n)),
    decreases n,
{
    if n > 0 {
        lemma_view_pins(d, iface, (n - 1) as nat);
    }
}

proof fn lemma_bundle_pins(d: Document, cs: Seq<u32>, n: nat)
    ensures
        quiet_pins(bundle_pins(d, cs, n)),
    decreases n,
{
    if n > 0 {
        lemma_bundle_pins(d, cs, (n - 1) as nat);
    }
}

proof fn lemma_drawn(d: Document, bx: u32, scope: Seq<char>, p: Pins)
    ensures
        drawn(d, bx, scope, p).0 is Some ==> ({
            let b = drawn(d, bx, scope, p).0->0;
            b.id == bx && kind_at(d, bx) == Some(b.kind) && quiet_pins(b.ports)
        }),
{
    match node_at(d, bx) {
        Some(n) => {
            lemma_logic_pins(d, bx, n, incident(d, bx).len(), p);
            lemma_operand_pins(d, bx, incident(d, bx).len(), p);
            let cs = n.children@;
            let mirror = n.kind == NodeKind::Interface && n.modport is Some;
            lemma_child_pins(d, cs, mirror, cs.len());
            lemma_view_pins(d, bx, children_at(d, bx).len());
            lemma_bundle_pins(d, cs, cs.len());
            assert(quiet_pins(box_pins(d, bx, n)));
        },
        None => {},
    }
}

proof fn lemma_added(d: Document, projection: Projection, w: WalkV, b: NodeV)
    requires
        right(d, projection, w),
        placed(d, projection, b),
        quiet_pins(b.ports),
    ensures
        right(d, projection, added(w, b)),
{
    let v = added(w, b);
    assert forall|k: int| 0 <= k < v.nodes.len() implies placed(
        d,
        projection,
        #[trigger] v.nodes[k],
    ) && quiet_pins(v.nodes[k].ports) by {
        if k < w.nodes.len() {
            assert(v.nodes[k] == w.nodes[k]);
        }
    }
}

// --- Walks --------------------------------------------------------------------

/// Whether two walks have drawn and left out the same.
spec fn alike(w: WalkV, v: WalkV) -> bool {
    w.nodes == v.nodes && w.more == v.more && w.truncated == v.truncated
}

proof fn lemma_enqueued_all(g: SignalV, ids: Seq<u32>, n: nat, w: WalkV)
    ensures
        alike(w, enqueued_all(g, ids, n, w)),
    decreases n,
{
    if n > 0 {
        lemma_enqueued_all(g, ids, (n - 1) as nat, w);
    }
}

proof fn lemma_through_box(d: Document, p: Projection, g: SignalV, bx: u32, n: nat, w: WalkV)
    ensures
        alike(w, through_box(d, p, g, bx, n, w)),
    decreases n,
{
    if n > 0 {
        lemma_through_box(d, p, g, bx, (n - 1) as nat, w);
    }
}

proof fn lemma_past_box(d: Document, s: StepV, g: SignalV, bx: u32, other: u32, w: WalkV)
    ensures
        alike(w, past_box(d, s, g, bx, other, w)),
{
    let all = group_at(d, other);
    lemma_enqueued_all(g, all, all.len(), w);
    lemma_through_box(d, s.projection, g, bx, incident(d, bx).len(), w);
    lemma_through_box(
        d,
        s.projection,
        g,
        bx,
        incident(d, bx).len(),
        enqueued_all(g, all, all.len(), w),
    );
}

proof fn lemma_on_box(d: Document, s: StepV, other: u32, e: Edge, w: WalkV)
    requires
        right(d, s.projection, w),
    ensures
        right(d, s.projection, on_box(d, s, other, e, w).1),
        ({
            let f = on_box(d, s, other, e, w).0;
            f.fresh is Some ==> placed(d, s.projection, f.fresh->0) && quiet_pins(f.fresh->0.ports)
        }),
{
    match box_around(d, other, s.projection) {
        Some((bx, scope)) => {
            lemma_box_around(d, other, s.projection);
            lemma_drawn(d, bx, scope_path(d, scope, s.root), w.pins);
        },
        None => {},
    }
}

proof fn lemma_free_anchor(d: Document, p: Projection, node: u32, side: Side, w: WalkV)
    requires
        right(d, p, w),
    ensures
        right(d, p, free_anchor(d, p, node, side, w).1),
{
    let far = group_at(d, node)[0];
    match stub_box(d, far, side) {
        Some(b) => {
            if !gate_at(d, far) && !inline_at(d, far, p) {
                lemma_added(d, p, w, b);
            }
        },
        None => {},
    }
}

proof fn lemma_edge(
    d: Document,
    s: StepV,
    g: SignalV,
    near: u32,
    e: Edge,
    a: GatheredV,
    w: WalkV,
)
    requires
        right(d, s.projection, w),
    ensures
        right(d, s.projection, edge_step(d, s, g, near, e, a, w).1),
{
    let p = s.projection;
    let other = far_end(e, near);
    let (f, w1) = on_box(d, s, other, e, w);
    lemma_on_box(d, s, other, e, w);
    let side = if leaves(e, near) {
        Side::West
    } else {
        Side::East
    };
    let (pin, w2) = match f.pin {
        Some(x) => (Some(x), w1),
        None => free_anchor(d, p, other, side, w1),
    };
    lemma_free_anchor(d, p, other, side, w1);
    assert(right(d, p, w2));
    if pin is Some {
        match f.fresh {
            Some(b) => {
                lemma_added(d, p, w2, b);
            },
            None => {},
        }
        let x = match f.fresh {
            Some(b) => match f.bx {
                Some(bx) => WalkV { emitted: w2.emitted.insert(bx), ..added(w2, b) },
                None => added(w2, b),
            },
            None => w2,
        };
        assert(right(d, p, x));
        let y = match g.seed_scope {
            Some(scope) => seed_wired(d, s, g, scope, near, e, pin->0, x),
            None => x,
        };
        assert(alike(x, y));
        match f.bx {
            Some(bx) => {
                lemma_past_box(d, s, g, bx, other, y);
            },
            None => {},
        }
    }
}

proof fn lemma_edges(d: Document, s: StepV, g: SignalV, at: Seq<u32>, n: nat, w: WalkV)
    requires
        right(d, s.projection, w),
    ensures
        right(d, s.projection, edges_step(d, s, g, at, n, w).1),
    decreases n,
{
    if n > 0 {
        lemma_edges(d, s, g, at, (n - 1) as nat, w);
        let (a, v) = edges_step(d, s, g, at, (n - 1) as nat, w);
        let e = edge_at(d, at[n - 1]);
        lemma_edge(d, s, g, near_end(g, e), e, a, v);
    }
}

proof fn lemma_hop(d: Document, s: StepV, frontier: Seq<u32>, n: nat, w: WalkV)
    requires
        right(d, s.projection, w),
    ensures
        right(d, s.projection, hop(d, s, frontier, n, w).1),
    decreases n,
{
    if n > 0 {
        lemma_hop(d, s, frontier, (n - 1) as nat, w);
        let (done, v) = hop(d, s, frontier, (n - 1) as nat, w);
        let g = signal_of(d, frontier[n - 1], v);
        let u = WalkV { visited: v.visited.union(g.members.to_set()), ..v };
        assert(alike(v, u));
        let at = touching(d.edges@, g.members.to_set());
        lemma_edges(d, s, g, at, at.len(), u);
        let (a, w1) = edges_step(d, s, g, at, at.len(), u);
        let (stub, w2) = stub_step(d, s, g, a, w1);
        assert(right(d, s.projection, w2)) by {
            let side = if a.drivers.len() == 0 {
                Side::East
            } else {
                Side::West
            };
            match stub_box(d, g.rep, side) {
                Some(b) => {
                    if !gate_at(d, g.rep) && !inline_at(d, g.rep, s.projection) {
                        lemma_added(d, s.projection, w1, b);
                    }
                },
                None => {},
            }
        }
        assert(right(d, s.projection, report_step(stub, a, w2)));
    }
}

proof fn lemma_hops(d: Document, s: StepV, frontier: Seq<u32>, k: nat, w: WalkV)
    requires
        right(d, s.projection, w),
    ensures
        right(d, s.projection, hops(d, s, frontier, k, w)),
    decreases k,
{
    if k > 0 {
        lemma_hop(d, s, frontier, frontier.len(), w);
        let v = hop(d, s, frontier, frontier.len(), w).1;
        lemma_hops(d, s, v.next, (k - 1) as nat, v);
    }
}

proof fn lemma_steps(
    d: Document,
    steps: Seq<TraceStep>,
    limits: ConeLimits,
    projection: Projection,
    root: Seq<char>,
    n: nat,
)
    requires
        n <= steps.len(),
    ensures
        right(d, projection, steps_walk(d, steps, limits, projection, root, n)),
    decreases n,
{
    if n > 0 {
        lemma_steps(d, steps, limits, projection, root, (n - 1) as nat);
        let w = steps_walk(d, steps, limits, projection, root, (n - 1) as nat);
        let step = steps[n - 1];
        let s = budget(step, limits, projection, root);
        let (frontier, v) = match seed_box(d, step.seed, projection) {
            Some(scope) => (seq![step.seed], box_seeded(d, s, step.seed, scope, w)),
            None => (seeds_at(d, step.seed, step.dir), w),
        };
        assert(right(d, projection, v)) by {
            lemma_box_around(d, step.seed, projection);
            match seed_box(d, step.seed, projection) {
                Some(scope) => {
                    let path = scope_path(d, scope, s.root);
                    lemma_drawn(d, step.seed, path, w.pins);
                    let (b, p) = drawn(d, step.seed, path, w.pins);
                    let q = WalkV {
                        box_seeds: w.box_seeds.insert(step.seed, scope),
                        pins: p,
                        ..w
                    };
                    match b {
                        Some(x) => {
                            lemma_added(d, projection, q, x);
                        },
                        None => {},
                    }
                },
                None => {},
            }
        }
        let u = WalkV {
            visited: v.visited.union(frontier.to_set()),
            seeds: anchored_seeds(d, frontier, frontier.len(), v.seeds),
            ..v
        };
        assert(alike(v, u));
        lemma_hops(
            d,
            s,
            frontier,
            if step.depth > 0 {
                step.depth as nat
            } else {
                1
            },
            u,
        );
    }
}

// --- From the walk to the graph -----------------------------------------------

pub open spec fn instances(d: Document, ids: Seq<u32>) -> bool {
    forall|k: int| 0 <= k < ids.len() ==> has_kind(d, #[trigger] ids[k], NodeKind::Instance)
}

proof fn lemma_container(d: Document, id: u32)
    ensures
        container_of(d, id) is Some ==> has_kind(d, container_of(d, id)->0, NodeKind::Instance),
{
    match crate::model::parent_at(d, id) {
        Some(p) => {
            lemma_instance_found(d, p, d.nodes@.len());
        },
        None => {},
    }
}

proof fn lemma_wanted_from(d: Document, nodes: Seq<NodeV>, c: Option<u32>, n: nat, want: Seq<u32>)
    requires
        instances(d, want),
        c is Some ==> has_kind(d, c->0, NodeKind::Instance),
    ensures
        instances(d, wanted_from(d, nodes, c, n, want)),
    decreases n,
{
    match c {
        Some(x) => {
            let more = if !has_box(nodes, x) && !want.contains(x) {
                want.push(x)
            } else {
                want
            };
            assert(instances(d, more));
            if n > 0 {
                lemma_container(d, x);
                lemma_wanted_from(d, nodes, container_of(d, x), (n - 1) as nat, more);
            }
        },
        None => {},
    }
}

pub(crate) proof fn lemma_wanted(d: Document, nodes: Seq<NodeV>, n: nat)
    ensures
        instances(d, wanted(d, nodes, n)),
    decreases n,
{
    if n > 0 {
        lemma_wanted(d, nodes, (n - 1) as nat);
        lemma_container(d, nodes[n - 1].id);
        lemma_wanted_from(
            d,
            nodes,
            container_of(d, nodes[n - 1].id),
            d.nodes@.len(),
            wanted(d, nodes, (n - 1) as nat),
        );
    }
}

proof fn lemma_contained(
    d: Document,
    projection: Projection,
    want: Seq<u32>,
    n: nat,
    root: Seq<char>,
    most: nat,
    c0: ContainedV,
)
    requires
        n <= want.len(),
        instances(d, want),
        all_placed(d, projection, c0.nodes),
        quiet(c0.nodes),
    ensures
        all_placed(d, projection, contained(d, want, n, root, most, c0).nodes),
        quiet(contained(d, want, n, root, most, c0).nodes),
        c0.cut ==> contained(d, want, n, root, most, c0).cut,
    decreases n,
{
    if n > 0 {
        lemma_contained(d, projection, want, (n - 1) as nat, root, most, c0);
        let v = contained(d, want, (n - 1) as nat, root, most, c0);
        let c = want[n - 1];
        assert(has_kind(d, c, NodeKind::Instance));
        lemma_drawn(d, c, outer_path(d, c, root), v.pins);
    }
}

/// Whether the boxes are placed, and no pin reports anything unless `cut`.
spec fn told(d: Document, projection: Projection, nodes: Seq<NodeV>, cut: bool) -> bool {
    all_placed(d, projection, nodes) && (cut || quiet(nodes))
}

proof fn lemma_apart(
    d: Document,
    projection: Projection,
    nodes: Seq<NodeV>,
    stubs: Set<u32>,
    n: nat,
    cut: bool,
)
    requires
        n <= nodes.len(),
        told(d, projection, nodes, cut),
    ensures
        told(d, projection, apart(nodes, stubs, n), cut),
    decreases n,
{
    if n > 0 {
        lemma_apart(d, projection, nodes, stubs, (n - 1) as nat, cut);
        assert(placed(d, projection, nodes[n - 1]));
    }
}

proof fn lemma_showing(
    d: Document,
    projection: Projection,
    seeds: Set<u32>,
    cs: Set<u32>,
    edges: Seq<EdgeV>,
    nodes: Seq<NodeV>,
    n: nat,
    cut: bool,
)
    requires
        n <= nodes.len(),
        told(d, projection, nodes, cut),
    ensures
        told(d, projection, showing(seeds, cs, edges, nodes, n), cut),
    decreases n,
{
    if n > 0 {
        lemma_showing(d, projection, seeds, cs, edges, nodes, (n - 1) as nat, cut);
        assert(placed(d, projection, nodes[n - 1]));
    }
}

proof fn lemma_filled(
    d: Document,
    projection: Projection,
    seeds: Set<u32>,
    cs: Set<u32>,
    edges: Seq<EdgeV>,
    nodes: Seq<NodeV>,
    n: nat,
    cut: bool,
)
    requires
        n <= nodes.len(),
        told(d, projection, nodes, cut),
    ensures
        told(d, projection, filled(seeds, cs, edges, nodes, n), cut),
        filled(seeds, cs, edges, nodes, n).len() <= n,
    decreases n,
{
    if n > 0 {
        lemma_filled(d, projection, seeds, cs, edges, nodes, (n - 1) as nat, cut);
        assert(placed(d, projection, nodes[n - 1]));
    }
}

proof fn lemma_pruned(
    d: Document,
    projection: Projection,
    seeds: Set<u32>,
    cs: Set<u32>,
    edges: Seq<EdgeV>,
    nodes: Seq<NodeV>,
    cut: bool,
)
    requires
        told(d, projection, nodes, cut),
    ensures
        told(d, projection, pruned(seeds, cs, edges, nodes), cut),
    decreases nodes.len(),
{
    let f = filled(seeds, cs, edges, nodes, nodes.len());
    lemma_filled(d, projection, seeds, cs, edges, nodes, nodes.len(), cut);
    let r = unhooked(f);
    assert(told(d, projection, r, cut)) by {
        assert forall|k: int| 0 <= k < r.len() implies placed(d, projection, #[trigger] r[k]) && (
        cut || quiet_pins(r[k].ports)) by {
            assert(placed(d, projection, f[k]));
        }
    }
    if r.len() < nodes.len() {
        lemma_pruned(d, projection, seeds, cs, edges, r, cut);
    }
}

proof fn lemma_finished(
    d: Document,
    projection: Projection,
    w: WalkV,
    root: Seq<char>,
    most: nat,
)
    requires
        right(d, projection, w),
    ensures
        told(
            d,
            projection,
            finished(d, w, root, most).nodes,
            finished(d, w, root, most).truncated,
        ),
{
    let want = wanted(d, w.nodes, w.nodes.len());
    lemma_wanted(d, w.nodes, w.nodes.len());
    let c0 = ContainedV {
        nodes: w.nodes,
        containers: Set::empty(),
        pins: w.pins,
        cut: w.truncated,
    };
    lemma_contained(d, projection, want, want.len(), root, most, c0);
    let v = with_containers(d, w, root, most);
    let a0 = v.nodes;
    let cs = v.containers;
    let cut = v.cut;
    let a1 = with_parents(d, a0);
    assert(told(d, projection, a1, cut)) by {
        assert forall|k: int| 0 <= k < a1.len() implies placed(d, projection, #[trigger] a1[k])
            && quiet_pins(a1[k].ports) by {
            assert(placed(d, projection, a0[k]));
        }
    }
    let a2 = apart(a1, w.stubs, a1.len());
    lemma_apart(d, projection, a1, w.stubs, a1.len(), cut);
    let a3 = counted(w.more, a2);
    assert(told(d, projection, a3, cut)) by {
        assert forall|k: int| 0 <= k < a3.len() implies placed(d, projection, #[trigger] a3[k]) && (
        cut || quiet_pins(a3[k].ports)) by {
            assert(placed(d, projection, a2[k]));
            if !cut {
                assert forall|j: int| 0 <= j < a3[k].ports.len() implies (
                #[trigger] a3[k].ports[j]).more is None by {
                    assert(a2[k].ports[j].more is None);
                    assert(!w.more.contains_key(a2[k].ports[j].id));
                }
            }
        }
    }
    let edges = w.wires.edges;
    lemma_showing(d, projection, w.seeds, cs, edges, a3, a3.len(), cut);
    lemma_pruned(
        d,
        projection,
        w.seeds,
        cs,
        edges,
        showing(w.seeds, cs, edges, a3, a3.len()),
        cut,
    );
}

// --- Laws ---------------------------------------------------------------------

/// Every box of a trace is a box of some scope at the same level, or stands for a node that
/// is neither a primitive nor drawn inside another box, and it is drawn as what it is.
pub proof fn law_trace_agrees_with_scopes(
    d: Document,
    steps: Seq<TraceStep>,
    limits: ConeLimits,
    projection: Projection,
)
    ensures
        all_placed(d, projection, traced(d, steps, limits, projection).nodes),
{
    let root = trace_root(d, steps);
    let w = steps_walk(d, steps, limits, projection, root, steps.len());
    lemma_steps(d, steps, limits, projection, root, steps.len());
    lemma_finished(d, projection, w, root, limits.boxes as nat);
}

/// What a trace leaves out it never leaves out in silence: where a pin reports connections
/// that were dropped, the trace says that it is cut off.
pub proof fn law_dropped_connections_are_told(
    d: Document,
    steps: Seq<TraceStep>,
    limits: ConeLimits,
    projection: Projection,
    k: int,
    j: int,
)
    requires
        0 <= k < traced(d, steps, limits, projection).nodes.len(),
        0 <= j < traced(d, steps, limits, projection).nodes[k].ports.len(),
        traced(d, steps, limits, projection).nodes[k].ports[j].more is Some,
    ensures
        traced(d, steps, limits, projection).truncated,
{
    let root = trace_root(d, steps);
    let w = steps_walk(d, steps, limits, projection, root, steps.len());
    lemma_steps(d, steps, limits, projection, root, steps.len());
    lemma_finished(d, projection, w, root, limits.boxes as nat);
    let g = finished(d, w, root, limits.boxes as nat);
    if !g.truncated {
        assert(quiet_pins(g.nodes[k].ports));
        assert(g.nodes[k].ports[j].more is None);
    }
}

/// At the process level no trace draws a primitive as a box.
pub proof fn law_process_traces_draw_no_primitives(
    d: Document,
    steps: Seq<TraceStep>,
    limits: ConeLimits,
)
    ensures
        ungated(traced(d, steps, limits, Projection::ProcessLevel).nodes),
{
    let p = Projection::ProcessLevel;
    law_trace_agrees_with_scopes(d, steps, limits, p);
    let nodes = traced(d, steps, limits, p).nodes;
    assert forall|k: int| 0 <= k < nodes.len() implies !gate_kind((#[trigger] nodes[k]).kind) by {
        assert(placed(d, p, nodes[k]));
        if boxed(d, p, nodes[k].id) {
            let scope = choose|scope: u32| #[trigger] boxes_of(d, scope, p).contains(nodes[k].id);
            lemma_process_boxes_of(d, scope, nodes[k].id);
        }
    }
}

proof fn lemma_gates_stand(d: Document, cs: Seq<u32>, n: nat)
    ensures
        forall|k: int|
            0 <= k < gates_in(d, cs, n).len() ==> !inline_at(
                d,
                #[trigger] gates_in(d, cs, n)[k],
                Projection::GateLevel,
            ),
    decreases n,
{
    if n > 0 {
        lemma_gates_stand(d, cs, (n - 1) as nat);
        let r = gates_in(d, cs, (n - 1) as nat);
        let g = gates_in(d, cs, n);
        assert forall|k: int| 0 <= k < g.len() implies !inline_at(
            d,
            #[trigger] g[k],
            Projection::GateLevel,
        ) by {
            if k < r.len() {
                assert(g[k] == r[k]);
            }
        }
    }
}

proof fn lemma_boxes_stand(d: Document, cs: Seq<u32>, n: nat, projection: Projection, fuel: nat)
    ensures
        forall|k: int|
            0 <= k < boxes_in(d, cs, n, projection, fuel).len() ==> !inline_at(
                d,
                #[trigger] boxes_in(d, cs, n, projection, fuel)[k],
                projection,
            ),
    decreases fuel, n,
{
    if n > 0 {
        lemma_boxes_stand(d, cs, (n - 1) as nat, projection, fuel);
        let r = boxes_in(d, cs, (n - 1) as nat, projection, fuel);
        let c = cs[n - 1];
        let kids = children_at(d, c);
        lemma_gates_stand(d, kids, kids.len());
        if fuel > 0 {
            lemma_boxes_stand(d, kids, kids.len(), projection, (fuel - 1) as nat);
        }
        let b = boxes_in(d, cs, n, projection, fuel);
        assert forall|k: int| 0 <= k < b.len() implies !inline_at(
            d,
            #[trigger] b[k],
            projection,
        ) by {
            if k < r.len() {
                assert(b[k] == r[k]);
            } else if has_kind(d, c, NodeKind::GenBlock) {
                let inner = boxes_in(d, kids, kids.len(), projection, (fuel - 1) as nat);
                assert(b[k] == inner[k - r.len()]);
            } else if b.len() > r.len() + 1 || b[k] != c {
                assert(b[k] == gates_in(d, kids, kids.len())[k - r.len()]);
            }
        }
    }
}

/// No trace draws a constant or a folded inverter as a box of its own: they are drawn inside
/// the box that reads them.
pub proof fn law_traces_draw_no_inline_operands(
    d: Document,
    steps: Seq<TraceStep>,
    limits: ConeLimits,
    projection: Projection,
    k: int,
)
    requires
        0 <= k < traced(d, steps, limits, projection).nodes.len(),
    ensures
        !inline_at(d, traced(d, steps, limits, projection).nodes[k].id, projection),
{
    law_trace_agrees_with_scopes(d, steps, limits, projection);
    let n = traced(d, steps, limits, projection).nodes[k];
    assert(placed(d, projection, n));
    if boxed(d, projection, n.id) {
        let scope = choose|scope: u32| #[trigger]
            boxes_of(d, scope, projection).contains(n.id);
        let cs = children_at(d, scope);
        lemma_boxes_stand(d, cs, cs.len(), projection, d.nodes@.len());
        let all = boxes_of(d, scope, projection);
        let i = choose|i: int| 0 <= i < all.len() && all[i] == n.id;
        assert(!inline_at(d, all[i], projection));
    }
}

} // verus!
