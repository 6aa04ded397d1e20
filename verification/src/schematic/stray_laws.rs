//! Where traces do not go: along edges that were not asked for.

use crate::model::{touching, Dir, Document, Edge, NodeKind};
use crate::model_laws::law_groups_list_their_edges;
use crate::schematic::box_laws::is_logic;
use crate::schematic::budget_laws::lemma_boxed;
use crate::schematic::follow_laws::{
    asked, in_order, is_wire, law_traces_reach_logic, lemma_past_box, lemma_start, nests, own_box,
};
use crate::schematic::kinds::has_kind;
use crate::schematic::level_laws::lemma_box_around;
use crate::schematic::reach::{
    box_around, far_end, followed, group_at, leaves, lemma_group, seeds_at, signal_at,
};
use crate::schematic::trace::{
    anchored_seeds, apart, blank, budget, counted, filled, finished, has_box, pruned, seed_box,
    showing, steps_walk, trace_root, traced, unhooked, wanted, with_containers, with_parents,
    ContainedV,
};
use crate::schematic::types::{ConeLimits, EdgeV, NodeV, Projection, Side, TraceStep};
use crate::schematic::walk::{
    edge_step, edge_taken, edges_step, free_anchor, hop, hops, near_end, on_box, signal_of,
    stub_step, FarV, GatheredV, SignalV, StepV, WalkV,
};
use crate::schematic::walk_laws::{law_walks_stay_sound, sound};
use vstd::prelude::*;

verus! {

/// The end of an edge that is not `near`.
pub open spec fn beyond(e: Edge, near: u32) -> u32 {
    if e.port == near {
        e.endpoint
    } else {
        e.port
    }
}

/// Whether edge `i` leads from a node at a path, in a direction that is asked for, to what is
/// drawn as `x`: the box around its other end, or the signal at its other end. A signal inside
/// a box may be drawn by an edge against that direction too.
pub open spec fn leads_on(
    d: Document,
    path: Seq<char>,
    dir: Dir,
    projection: Projection,
    i: int,
    near: u32,
    x: u32,
) -> bool {
    &&& 0 <= i < d.edges@.len()
    &&& near < d.nodes@.len() && d.nodes@[near as int].path@ == path
    &&& d.edges@[i].port == near || d.edges@[i].endpoint == near
    &&& {
        let other = beyond(d.edges@[i], near);
        let around = box_around(d, other, projection);
        ||| around is Some && (around->0).0 == x && asked(d.edges@[i], near, dir)
        ||| is_wire(d, other) && group_at(d, other)[0] == x && (around is Some || asked(
            d.edges@[i],
            near,
            dir,
        ))
    }
}

/// Whether a node is at a path.
pub open spec fn is_at(d: Document, path: Seq<char>, x: u32) -> bool {
    x < d.nodes@.len() && d.nodes@[x as int].path@ == path
}

/// Whether a node is at a path, or an edge that is asked for leads from there to it.
pub open spec fn near_by(
    d: Document,
    path: Seq<char>,
    dir: Dir,
    projection: Projection,
    x: u32,
) -> bool {
    is_at(d, path, x) || exists|i: int, near: u32| #[trigger]
        leads_on(d, path, dir, projection, i, near, x)
}

/// Whether all that a walk has drawn is near by.
spec fn bounded(d: Document, path: Seq<char>, s: StepV, w: WalkV) -> bool {
    &&& forall|x: u32| #[trigger]
        w.emitted.contains(x) ==> near_by(d, path, s.dir, s.projection, x)
    &&& forall|x: u32| #[trigger]
        w.stubs.contains(x) ==> near_by(d, path, s.dir, s.projection, x)
}

proof fn lemma_taken(
    d: Document,
    s: StepV,
    g: SignalV,
    near: u32,
    e: Edge,
    f: FarV,
    pin: u32,
    a: GatheredV,
    w: WalkV,
)
    ensures
        edge_taken(d, s, g, near, e, f, pin, a, w).1.stubs == w.stubs,
        edge_taken(d, s, g, near, e, f, pin, a, w).1.emitted == if f.fresh is Some && f.bx is Some {
            w.emitted.insert(f.bx->0)
        } else {
            w.emitted
        },
{
    let w1 = match f.fresh {
        Some(b) => match f.bx {
            Some(bx) => WalkV {
                emitted: w.emitted.insert(bx),
                ..crate::schematic::walk::added(w, b)
            },
            None => crate::schematic::walk::added(w, b),
        },
        None => w,
    };
    let w2 = match g.seed_scope {
        Some(scope) => crate::schematic::walk::seed_wired(d, s, g, scope, near, e, pin, w1),
        None => w1,
    };
    if f.bx is Some {
        lemma_past_box(d, s, g, f.bx->0, far_end(e, near), w2);
    }
}

proof fn lemma_edge(
    d: Document,
    path: Seq<char>,
    s: StepV,
    g: SignalV,
    near: u32,
    i: int,
    a: GatheredV,
    w: WalkV,
)
    requires
        bounded(d, path, s, w),
        0 <= i < d.edges@.len(),
        is_at(d, path, near),
        d.edges@[i].port == near || d.edges@[i].endpoint == near,
    ensures
        bounded(d, path, s, edge_step(d, s, g, near, d.edges@[i], a, w).1),
{
    let e = d.edges@[i];
    let other = far_end(e, near);
    assert(other == beyond(e, near));
    let (f, w1) = on_box(d, s, other, e, w);
    let v = edge_step(d, s, g, near, e, a, w).1;
    assert(asked(e, near, s.dir) == followed(e, near, s.dir));
    if box_around(d, other, s.projection) is Some && asked(e, near, s.dir) {
        let bx = (box_around(d, other, s.projection)->0).0;
        assert(leads_on(d, path, s.dir, s.projection, i, near, bx));
    }
    if signal_at(d, other) && (box_around(d, other, s.projection) is Some || asked(
        e,
        near,
        s.dir,
    )) {
        assert(leads_on(d, path, s.dir, s.projection, i, near, group_at(d, other)[0]));
    }
    if !f.stop {
        let side = if leaves(e, near) {
            Side::West
        } else {
            Side::East
        };
        match f.pin {
            Some(p) => {
                lemma_taken(d, s, g, near, e, f, p, a, w1);
            },
            None => {
                let (pin, w2) = free_anchor(d, s.projection, other, side, w1);
                match pin {
                    Some(p) => {
                        lemma_taken(d, s, g, near, e, f, p, a, w2);
                    },
                    None => {},
                }
            },
        }
    }
}

proof fn lemma_edges(
    d: Document,
    path: Seq<char>,
    s: StepV,
    g: SignalV,
    n: nat,
    w: WalkV,
)
    requires
        bounded(d, path, s, w),
        n <= touching(d.edges@, g.members.to_set()).len(),
        forall|x: u32| #[trigger] g.members.contains(x) ==> is_at(d, path, x),
    ensures
        bounded(
            d,
            path,
            s,
            edges_step(d, s, g, touching(d.edges@, g.members.to_set()), n, w).1,
        ),
    decreases n,
{
    if n > 0 {
        let at = touching(d.edges@, g.members.to_set());
        lemma_edges(d, path, s, g, (n - 1) as nat, w);
        let (a, v) = edges_step(d, s, g, at, (n - 1) as nat, w);
        let i = at[n - 1];
        assert(at.contains(i));
        law_groups_list_their_edges(d.edges@, g.members.to_set(), i);
        lemma_edge(d, path, s, g, near_end(g, d.edges@[i as int]), i as int, a, v);
    }
}

proof fn lemma_hop(
    d: Document,
    path: Seq<char>,
    s: StepV,
    frontier: Seq<u32>,
    n: nat,
    w: WalkV,
)
    requires
        n <= frontier.len(),
        bounded(d, path, s, w),
        forall|k: int, x: u32|
            0 <= k < frontier.len() && #[trigger] group_at(d, frontier[k]).contains(x) ==> is_at(
                d,
                path,
                x,
            ),
    ensures
        bounded(d, path, s, hop(d, s, frontier, n, w).1),
    decreases n,
{
    if n > 0 {
        lemma_hop(d, path, s, frontier, (n - 1) as nat, w);
        let (done, v) = hop(d, s, frontier, (n - 1) as nat, w);
        let g = signal_of(d, frontier[n - 1], v);
        lemma_group(d, frontier[n - 1]);
        assert(g.members == group_at(d, frontier[n - 1]));
        assert(g.members.contains(g.members[0]));
        if !done.contains(g.rep) {
            let u = WalkV { visited: v.visited.union(g.members.to_set()), ..v };
            let at = touching(d.edges@, g.members.to_set());
            lemma_edges(d, path, s, g, at.len(), u);
            let (a, w1) = edges_step(d, s, g, at, at.len(), u);
            let w2 = stub_step(d, s, g, a, w1).1;
            assert(near_by(d, path, s.dir, s.projection, g.rep));
            assert(bounded(d, path, s, w2));
        }
    }
}

// --- From the walk to the graph -----------------------------------------------

proof fn lemma_pushed(nodes: Seq<NodeV>, b: NodeV, x: u32)
    ensures
        has_box(nodes.push(b), x) ==> b.id == x || has_box(nodes, x),
{
    if has_box(nodes.push(b), x) {
        let k = choose|k: int| 0 <= k < nodes.push(b).len() && (#[trigger] nodes.push(b)[k]).id == x;
        if k < nodes.len() {
            assert(nodes[k].id == x);
        }
    }
}

proof fn lemma_apart(nodes: Seq<NodeV>, stubs: Set<u32>, n: nat, x: u32)
    requires
        n <= nodes.len(),
        has_box(apart(nodes, stubs, n), x),
    ensures
        has_box(nodes, x),
    decreases n,
{
    lemma_pushed(apart(nodes, stubs, (n - 1) as nat), nodes[n - 1], x);
    if has_box(apart(nodes, stubs, (n - 1) as nat), x) {
        lemma_apart(nodes, stubs, (n - 1) as nat, x);
    }
}

proof fn lemma_showing(
    seeds: Set<u32>,
    cs: Set<u32>,
    edges: Seq<EdgeV>,
    nodes: Seq<NodeV>,
    n: nat,
    x: u32,
)
    requires
        n <= nodes.len(),
        has_box(showing(seeds, cs, edges, nodes, n), x),
    ensures
        has_box(nodes, x),
    decreases n,
{
    lemma_pushed(showing(seeds, cs, edges, nodes, (n - 1) as nat), nodes[n - 1], x);
    if has_box(showing(seeds, cs, edges, nodes, (n - 1) as nat), x) {
        lemma_showing(seeds, cs, edges, nodes, (n - 1) as nat, x);
    }
}

proof fn lemma_filled(
    seeds: Set<u32>,
    cs: Set<u32>,
    edges: Seq<EdgeV>,
    nodes: Seq<NodeV>,
    n: nat,
    x: u32,
)
    requires
        n <= nodes.len(),
        has_box(filled(seeds, cs, edges, nodes, n), x),
    ensures
        has_box(nodes, x),
    decreases n,
{
    lemma_pushed(filled(seeds, cs, edges, nodes, (n - 1) as nat), nodes[n - 1], x);
    if has_box(filled(seeds, cs, edges, nodes, (n - 1) as nat), x) {
        lemma_filled(seeds, cs, edges, nodes, (n - 1) as nat, x);
    }
}

proof fn lemma_same_ids(a: Seq<NodeV>, b: Seq<NodeV>, x: u32)
    requires
        a.len() == b.len(),
        forall|k: int| 0 <= k < a.len() ==> (#[trigger] a[k]).id == b[k].id,
        has_box(a, x),
    ensures
        has_box(b, x),
{
    let k = choose|k: int| 0 <= k < a.len() && (#[trigger] a[k]).id == x;
    assert(b[k].id == x);
}

proof fn lemma_pruned(
    seeds: Set<u32>,
    cs: Set<u32>,
    edges: Seq<EdgeV>,
    nodes: Seq<NodeV>,
    x: u32,
)
    requires
        has_box(pruned(seeds, cs, edges, nodes), x),
    ensures
        has_box(nodes, x),
    decreases nodes.len(),
{
    let f = filled(seeds, cs, edges, nodes, nodes.len());
    let r = unhooked(f);
    if r.len() < nodes.len() {
        lemma_pruned(seeds, cs, edges, r, x);
    }
    lemma_same_ids(r, f, x);
    lemma_filled(seeds, cs, edges, nodes, nodes.len(), x);
}

/// Whatever a finished graph shows was drawn on the way, or is an instance around it.
pub(crate) proof fn lemma_finished(d: Document, w: WalkV, root: Seq<char>, most: nat, x: u32)
    requires
        sound(w),
        has_box(finished(d, w, root, most).nodes, x),
    ensures
        w.emitted.contains(x) || w.stubs.contains(x) || has_kind(d, x, NodeKind::Instance),
{
    let want = wanted(d, w.nodes, w.nodes.len());
    crate::schematic::trace_laws::lemma_wanted(d, w.nodes, w.nodes.len());
    crate::schematic::level_laws::lemma_wanted(d, w.nodes, w.nodes.len());
    crate::schematic::trace_laws::lemma_contained(
        d,
        want,
        want.len(),
        root,
        most,
        ContainedV { nodes: w.nodes, containers: Set::empty(), pins: w.pins, cut: w.truncated },
    );
    let c = with_containers(d, w, root, most);
    let a1 = with_parents(d, c.nodes);
    let a2 = apart(a1, w.stubs, a1.len());
    let a3 = counted(w.more, a2);
    let edges = w.wires.edges;
    let a4 = showing(w.seeds, c.containers, edges, a3, a3.len());
    lemma_pruned(w.seeds, c.containers, edges, a4, x);
    lemma_showing(w.seeds, c.containers, edges, a3, a3.len(), x);
    lemma_same_ids(a3, a2, x);
    lemma_apart(a1, w.stubs, a1.len(), x);
    lemma_same_ids(a1, c.nodes, x);
    let k = choose|k: int| 0 <= k < c.nodes.len() && (#[trigger] c.nodes[k]).id == x;
    if k < w.nodes.len() {
        assert(c.nodes[k] == w.nodes[k]);
    } else {
        assert(want.take(want.len() as int) =~= want);
        let m = choose|m: int| 0 <= m < want.len() && want[m] == x;
        assert(has_kind(d, want[m], NodeKind::Instance));
    }
}

/// A trace of one hop from a signal draws what is at the signal's path and what the edges that
/// are asked for lead to, and nothing else but the instances around that.
pub proof fn law_short_traces_do_not_stray(
    d: Document,
    step: TraceStep,
    limits: ConeLimits,
    projection: Projection,
    x: u32,
)
    requires
        in_order(d),
        d.nodes@.len() <= 0x1_0000_0000,
        is_wire(d, step.seed),
        step.depth <= 1,
        has_box(traced(d, seq![step], limits, projection).nodes, x),
    ensures
        (x < d.nodes@.len() && d.nodes@[x as int].kind == NodeKind::Instance) || near_by(
            d,
            d.nodes@[step.seed as int].path@,
            step.dir,
            projection,
            x,
        ),
{
    let steps = seq![step];
    let seed = step.seed;
    let path = d.nodes@[seed as int].path@;
    let root = trace_root(d, steps);
    let s = budget(step, limits, projection, root);
    let w = blank(d);
    reveal_with_fuel(steps_walk, 2);
    lemma_box_around(d, seed, projection);
    if seed_box(d, seed, projection) is Some {
        lemma_boxed(d, projection, seed);
    }
    lemma_start(d, seed, step.dir, seed);
    let f = seeds_at(d, seed, step.dir);
    let u = WalkV {
        visited: w.visited.union(f.to_set()),
        seeds: anchored_seeds(d, f, f.len(), w.seeds),
        ..w
    };
    assert forall|k: int, y: u32|
        0 <= k < f.len() && #[trigger] group_at(d, f[k]).contains(y) implies is_at(d, path, y) by {
        assert(f[k] < d.nodes@.len());
    }
    assert(bounded(d, path, s, u));
    lemma_hop(d, path, s, f, f.len(), u);
    reveal_with_fuel(hops, 2);
    let end = steps_walk(d, steps, limits, projection, root, 1);
    assert(end == hop(d, s, f, f.len(), u).1);
    law_walks_stay_sound(d, steps, limits, projection, root, 1);
    lemma_finished(d, end, root, limits.boxes as nat, x);
}

/// A trace both ways draws the logic that a short trace one way draws from the same signal:
/// unless something was left out, each register, process, latch or assignment that the one
/// draws by an edge of its own, the other draws too.
pub proof fn law_both_ways_hold_each_way(
    d: Document,
    one: TraceStep,
    both: TraceStep,
    limits: ConeLimits,
    more: ConeLimits,
    projection: Projection,
    scope: u32,
    x: u32,
)
    requires
        in_order(d),
        d.nodes@.len() <= 0x1_0000_0000,
        d.edges@.len() <= 0xffff_ffff,
        is_wire(d, one.seed),
        one.depth <= 1,
        both.seed == one.seed,
        both.dir == Dir::Inout,
        !traced(d, seq![both], more, projection).truncated,
        has_box(traced(d, seq![one], limits, projection).nodes, x),
        is_logic(d, x),
        d.nodes@[x as int].kind != NodeKind::Memory,
        d.nodes@[x as int].path@ != d.nodes@[one.seed as int].path@,
        nests(d, scope, x),
        own_box(d, projection, x),
        forall|i: int, near: u32|
            #[trigger] leads_on(
                d,
                d.nodes@[one.seed as int].path@,
                one.dir,
                projection,
                i,
                near,
                x,
            ) ==> d.edges@[i].port == x && d.edges@[i].endpoint == near && is_wire(d, near),
    ensures
        has_box(traced(d, seq![both], more, projection).nodes, x),
{
    let path = d.nodes@[one.seed as int].path@;
    law_short_traces_do_not_stray(d, one, limits, projection, x);
    let (i, near) = choose|i: int, near: u32| #[trigger]
        leads_on(d, path, one.dir, projection, i, near, x);
    law_traces_reach_logic(d, seq![both], more, projection, i, near, scope, x);
}

} // verus!
