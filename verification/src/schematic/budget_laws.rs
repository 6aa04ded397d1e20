//! How much a trace draws: never more boxes than its budget, and always its seeds.

use crate::model::{
    at_path, children_at, edge_at, incident, node_at, touching, Dir, Document, Edge, NodeKind,
};
use crate::order::{ascending, lemma_ascending};
use crate::schematic::boxes::{drawn, stub_box};
use crate::schematic::kinds::{boxes_in, boxes_of, gates_in, gates_of, has_kind};
use crate::schematic::level_laws::{boxed, lemma_box_around};
use crate::schematic::reach::{
    box_around, far_end, group_at, leaves, lemma_group, seeds_at, siblings, signal_at, signal_kind,
};
use crate::schematic::trace::{
    anchored_seeds, apart, box_count, box_seeded, budget, contained, counted, filled, finished,
    has_box, lemma_box_count, outer_path, pruned, seed_box, showing, step_walk, steps_walk,
    trace_root, traced, unhooked, wanted, with_containers, with_parents, ContainedV,
};
use crate::schematic::trace_laws::{law_empty_trace_is_empty, lemma_finished};
use crate::schematic::types::{ConeLimits, EdgeV, NodeV, Projection, Side, TraceStep};
use crate::schematic::walk::{
    added, edge_step, edge_taken, edges_step, enqueued_all, free_anchor, hop, hops, near_end,
    on_box, past_box, report_step, scope_path, seed_wired, signal_of, signal_step, stub_step,
    through_box, wants_stub, FarV, GatheredV, SignalV, StepV, WalkV,
};
use crate::schematic::walk_laws::{law_walks_stay_sound, lemma_stub_pin, pin_shown, sound};
use vstd::prelude::*;

verus! {

// --- Boxes are no signals -----------------------------------------------------

proof fn lemma_gates_are_no_signals(d: Document, cs: Seq<u32>, n: nat)
    ensures
        forall|k: int|
            0 <= k < gates_in(d, cs, n).len() ==> !signal_at(d, #[trigger] gates_in(d, cs, n)[k]),
    decreases n,
{
    if n > 0 {
        lemma_gates_are_no_signals(d, cs, (n - 1) as nat);
        let r = gates_in(d, cs, (n - 1) as nat);
        let g = gates_in(d, cs, n);
        assert forall|k: int| 0 <= k < g.len() implies !signal_at(d, #[trigger] g[k]) by {
            if k < r.len() {
                assert(g[k] == r[k]);
            }
        }
    }
}

pub(crate) proof fn lemma_boxes_are_no_signals(
    d: Document,
    cs: Seq<u32>,
    n: nat,
    projection: Projection,
    fuel: nat,
)
    ensures
        forall|k: int|
            0 <= k < boxes_in(d, cs, n, projection, fuel).len() ==> !signal_at(
                d,
                #[trigger] boxes_in(d, cs, n, projection, fuel)[k],
            ),
    decreases fuel, n,
{
    if n > 0 {
        lemma_boxes_are_no_signals(d, cs, (n - 1) as nat, projection, fuel);
        let r = boxes_in(d, cs, (n - 1) as nat, projection, fuel);
        let c = cs[n - 1];
        let kids = children_at(d, c);
        lemma_gates_are_no_signals(d, kids, kids.len());
        if fuel > 0 {
            lemma_boxes_are_no_signals(d, kids, kids.len(), projection, (fuel - 1) as nat);
        }
        let b = boxes_in(d, cs, n, projection, fuel);
        assert forall|k: int| 0 <= k < b.len() implies !signal_at(d, #[trigger] b[k]) by {
            if k < r.len() {
                assert(b[k] == r[k]);
            } else if has_kind(d, c, NodeKind::GenBlock) {
                let inner = boxes_in(d, kids, kids.len(), projection, (fuel - 1) as nat);
                assert(b[k] == inner[k - r.len()]);
            } else if b.len() > r.len() + 1 || b[k] != c {
                assert(b[k] == gates_of(d, c)[k - r.len()]);
            }
        }
    }
}

pub(crate) proof fn lemma_boxed(d: Document, projection: Projection, id: u32)
    requires
        boxed(d, projection, id),
    ensures
        !signal_at(d, id),
{
    let scope = choose|scope: u32| #[trigger] boxes_of(d, scope, projection).contains(id);
    let cs = children_at(d, scope);
    lemma_boxes_are_no_signals(d, cs, cs.len(), projection, d.nodes@.len());
    let all = boxes_of(d, scope, projection);
    let i = choose|i: int| 0 <= i < all.len() && all[i] == id;
    assert(!signal_at(d, all[i]));
}

pub(crate) proof fn lemma_boxed_kind(d: Document, projection: Projection, id: u32)
    requires
        boxed(d, projection, id),
    ensures
        node_at(d, id) is Some,
{
    let scope = choose|scope: u32| #[trigger] boxes_of(d, scope, projection).contains(id);
    let cs = children_at(d, scope);
    crate::schematic::tie_laws::lemma_boxes(d, cs, cs.len(), projection, d.nodes@.len());
    let all = boxes_of(d, scope, projection);
    let i = choose|i: int| 0 <= i < all.len() && all[i] == id;
    assert(crate::schematic::tie_laws::there(d, all[i]));
}

// --- Walks --------------------------------------------------------------------

/// Whether no signal is drawn as a box with pins of others.
spec fn plain(d: Document, w: WalkV) -> bool {
    forall|x: u32| #[trigger] w.emitted.contains(x) ==> !signal_at(d, x)
}

/// The room to keep for what a step starts at: one box, as long as it is no signal and not
/// drawn yet.
spec fn due(d: Document, seed: u32, w: WalkV) -> nat {
    if signal_at(d, seed) || w.emitted.contains(seed) || w.stubs.contains(seed) {
        0
    } else {
        1
    }
}

/// Whether a walk with a budget of `most` boxes never comes to draw more than `base`.
spec fn fits(d: Document, seed: u32, most: nat, base: nat, w: WalkV) -> bool {
    box_count(w.nodes) + due(d, seed, w) <= base && most + due(d, seed, w) <= base
}

/// Whether every box that counts as drawn is on the canvas.
spec fn on_show(w: WalkV) -> bool {
    forall|x: u32| #[trigger] w.emitted.contains(x) ==> has_box(w.nodes, x)
}

/// Whether one walk goes on from another: it loses nothing, and it stays plain, on show and
/// within its budget.
spec fn goes_on(d: Document, s: StepV, base: nat, w: WalkV, v: WalkV) -> bool {
    &&& w.stubs.subset_of(v.stubs)
    &&& w.emitted.subset_of(v.emitted)
    &&& w.seeds == v.seeds
    &&& plain(d, w) ==> plain(d, v)
    &&& on_show(w) ==> on_show(v)
    &&& fits(d, s.seed, s.boxes as nat, base, w) ==> fits(
        d,
        s.seed,
        s.boxes as nat,
        base,
        v,
    )
}

/// Whether two walks have drawn the same.
spec fn same_boxes(w: WalkV, v: WalkV) -> bool {
    w.nodes == v.nodes && w.stubs == v.stubs && w.emitted == v.emitted && w.seeds == v.seeds
}

proof fn lemma_pushed(nodes: Seq<NodeV>, b: NodeV)
    ensures
        box_count(nodes.push(b)) == box_count(nodes) + if signal_kind(b.kind) {
            0nat
        } else {
            1nat
        },
        forall|x: u32| has_box(nodes, x) ==> #[trigger] has_box(nodes.push(b), x),
        has_box(nodes.push(b), b.id),
{
    assert(nodes.push(b).drop_last() =~= nodes);
    assert forall|x: u32| has_box(nodes, x) implies #[trigger] has_box(nodes.push(b), x) by {
        let k = choose|k: int| 0 <= k < nodes.len() && (#[trigger] nodes[k]).id == x;
        assert(nodes.push(b)[k].id == x);
    }
    assert(nodes.push(b)[nodes.len() as int].id == b.id);
}

proof fn lemma_enqueued_all(g: SignalV, ids: Seq<u32>, n: nat, w: WalkV)
    ensures
        same_boxes(w, enqueued_all(g, ids, n, w)),
    decreases n,
{
    if n > 0 {
        lemma_enqueued_all(g, ids, (n - 1) as nat, w);
    }
}

proof fn lemma_through_box(d: Document, p: Projection, g: SignalV, bx: u32, n: nat, w: WalkV)
    ensures
        same_boxes(w, through_box(d, p, g, bx, n, w)),
    decreases n,
{
    if n > 0 {
        lemma_through_box(d, p, g, bx, (n - 1) as nat, w);
    }
}

proof fn lemma_past_box(d: Document, s: StepV, g: SignalV, bx: u32, other: u32, w: WalkV)
    ensures
        same_boxes(w, past_box(d, s, g, bx, other, w)),
{
    let all = group_at(d, other);
    lemma_enqueued_all(g, all, all.len(), w);
    lemma_through_box(d, s.projection, g, bx, incident(d, bx).len(), w);
    lemma_through_box(
        d,
        s.projection,
        g,
        bx,
        incident(d, bx).len(),
        enqueued_all(g, all, all.len(), w),
    );
}

/// The first node of a signal's group is a signal.
pub(crate) proof fn lemma_rep(d: Document, id: u32)
    requires
        signal_at(d, id),
    ensures
        signal_at(d, group_at(d, id)[0]),
{
    let of = siblings(d, node_at(d, id)->0.path@);
    let all = ascending(of);
    if all.len() > 0 {
        lemma_ascending(of);
        assert(all.contains(all[0]));
        assert(of.contains(all[0]));
    }
}

proof fn lemma_free_anchor(
    d: Document,
    s: StepV,
    base: nat,
    node: u32,
    side: Side,
    w: WalkV,
)
    ensures
        goes_on(d, s, base, w, free_anchor(d, s.projection, node, side, w).1),
{
    if signal_at(d, node) {
        let far = group_at(d, node)[0];
        lemma_rep(d, node);
        match stub_box(d, far, side) {
            Some(b) => {
                lemma_pushed(w.nodes, b);
            },
            None => {},
        }
    }
}

proof fn lemma_edge_taken(
    d: Document,
    s: StepV,
    base: nat,
    g: SignalV,
    near: u32,
    e: Edge,
    f: FarV,
    pin: u32,
    a: GatheredV,
    w: WalkV,
)
    requires
        f.fresh is Some ==> f.bx == Some(f.fresh->0.id) && boxed(d, s.projection, f.fresh->0.id)
            && w.nodes.len() < s.boxes,
    ensures
        goes_on(d, s, base, w, edge_taken(d, s, g, near, e, f, pin, a, w).1),
{
    let w1 = match f.fresh {
        Some(b) => match f.bx {
            Some(bx) => WalkV { emitted: w.emitted.insert(bx), ..added(w, b) },
            None => added(w, b),
        },
        None => w,
    };
    match f.fresh {
        Some(b) => {
            lemma_boxed(d, s.projection, b.id);
            lemma_pushed(w.nodes, b);
            lemma_box_count(w.nodes);
        },
        None => {},
    }
    assert(goes_on(d, s, base, w, w1));
    let w2 = match g.seed_scope {
        Some(scope) => seed_wired(d, s, g, scope, near, e, pin, w1),
        None => w1,
    };
    assert(same_boxes(w1, w2));
    match f.bx {
        Some(bx) => {
            lemma_past_box(d, s, g, bx, far_end(e, near), w2);
        },
        None => {},
    }
}

proof fn lemma_edge(
    d: Document,
    s: StepV,
    base: nat,
    g: SignalV,
    near: u32,
    e: Edge,
    a: GatheredV,
    w: WalkV,
)
    ensures
        goes_on(d, s, base, w, edge_step(d, s, g, near, e, a, w).1),
{
    let other = far_end(e, near);
    let (f, w1) = on_box(d, s, other, e, w);
    assert(same_boxes(w, w1));
    lemma_box_around(d, other, s.projection);
    match box_around(d, other, s.projection) {
        Some((bx, scope)) => {
            crate::schematic::walk_laws::lemma_drawn_id(
                d,
                bx,
                scope_path(d, scope, s.root),
                w.pins,
            );
        },
        None => {},
    }
    if !f.stop {
        let side = if leaves(e, near) {
            Side::West
        } else {
            Side::East
        };
        match f.pin {
            Some(p) => {
                lemma_edge_taken(d, s, base, g, near, e, f, p, a, w1);
            },
            None => {
                lemma_free_anchor(d, s, base, other, side, w1);
                let (pin, w2) = free_anchor(d, s.projection, other, side, w1);
                match pin {
                    Some(p) => {
                        lemma_edge_taken(d, s, base, g, near, e, f, p, a, w2);
                    },
                    None => {},
                }
            },
        }
    }
}

proof fn lemma_edges(
    d: Document,
    s: StepV,
    base: nat,
    g: SignalV,
    at: Seq<u32>,
    n: nat,
    w: WalkV,
)
    ensures
        goes_on(d, s, base, w, edges_step(d, s, g, at, n, w).1),
    decreases n,
{
    if n > 0 {
        lemma_edges(d, s, base, g, at, (n - 1) as nat, w);
        let (a, v) = edges_step(d, s, g, at, (n - 1) as nat, w);
        let e = edge_at(d, at[n - 1]);
        lemma_edge(d, s, base, g, near_end(g, e), e, a, v);
    }
}

proof fn lemma_stub(d: Document, s: StepV, base: nat, g: SignalV, a: GatheredV, w: WalkV)
    requires
        g.members.len() > 0,
        g.rep == g.members[0],
    ensures
        goes_on(d, s, base, w, stub_step(d, s, g, a, w).1),
{
    if wants_stub(d, s, g, a, w) {
        assert(!w.emitted.contains(g.members[0]));
        let side = if a.drivers.len() == 0 {
            Side::East
        } else {
            Side::West
        };
        match stub_box(d, g.rep, side) {
            Some(b) => {
                lemma_pushed(w.nodes, b);
                lemma_box_count(w.nodes);
            },
            None => {},
        }
    }
}

proof fn lemma_signal(d: Document, s: StepV, base: nat, g: SignalV, w: WalkV)
    requires
        g.members.len() > 0,
        g.rep == g.members[0],
    ensures
        goes_on(d, s, base, w, signal_step(d, s, g, w)),
        ({
            let all = forall|k: int|
                0 <= k < g.members.len() ==> signal_at(d, #[trigger] g.members[k]);
            plain(d, w) && all && w.seeds.contains(g.rep) ==> signal_step(
                d,
                s,
                g,
                w,
            ).stubs.contains(g.rep)
        }),
{
    let at = touching(d.edges@, g.members.to_set());
    lemma_edges(d, s, base, g, at, at.len(), w);
    let (a, w1) = edges_step(d, s, g, at, at.len(), w);
    lemma_stub(d, s, base, g, a, w1);
    let (stub, w2) = stub_step(d, s, g, a, w1);
    assert(same_boxes(w2, report_step(stub, a, w2)));
    assert(same_boxes(w2, signal_step(d, s, g, w)));
    if plain(d, w) && w.seeds.contains(g.rep) && forall|k: int|
        0 <= k < g.members.len() ==> signal_at(d, #[trigger] g.members[k]) {
        assert(signal_at(d, g.members[0]));
        assert(wants_stub(d, s, g, a, w1));
    }
}

/// Where the first node of a group is a signal, all its nodes are.
proof fn lemma_members(d: Document, id: u32)
    requires
        signal_at(d, group_at(d, id)[0]),
    ensures
        forall|k: int|
            0 <= k < group_at(d, id).len() ==> signal_at(d, #[trigger] group_at(d, id)[k]),
{
    let all = group_at(d, id);
    let of = siblings(d, node_at(d, id)->0.path@);
    lemma_ascending(of);
    assert forall|k: int| 0 <= k < all.len() implies signal_at(d, #[trigger] all[k]) by {
        if signal_at(d, id) && ascending(of).len() > 0 {
            assert(ascending(of).contains(all[k]));
            assert(of.contains(all[k]));
        }
    }
}

proof fn lemma_hop(d: Document, s: StepV, base: nat, frontier: Seq<u32>, n: nat, w: WalkV)
    requires
        n <= frontier.len(),
    ensures
        goes_on(d, s, base, w, hop(d, s, frontier, n, w).1),
        ({
            let (done, v) = hop(d, s, frontier, n, w);
            &&& forall|k: int|
                0 <= k < n ==> done.contains(group_at(d, #[trigger] frontier[k])[0])
            &&& plain(d, w) ==> forall|x: u32| #[trigger]
                done.contains(x) && signal_at(d, x) && w.seeds.contains(x) ==> v.stubs.contains(x)
        }),
    decreases n,
{
    if n > 0 {
        lemma_hop(d, s, base, frontier, (n - 1) as nat, w);
        let (done, v) = hop(d, s, frontier, (n - 1) as nat, w);
        let f = frontier[n - 1];
        let g = signal_of(d, f, v);
        lemma_group(d, f);
        let u = WalkV { visited: v.visited.union(g.members.to_set()), ..v };
        assert(same_boxes(v, u));
        if !done.contains(g.rep) {
            lemma_signal(d, s, base, g, u);
            if signal_at(d, g.rep) {
                lemma_members(d, f);
            }
        }
    }
}

proof fn lemma_hops(d: Document, s: StepV, base: nat, frontier: Seq<u32>, k: nat, w: WalkV)
    ensures
        goes_on(d, s, base, w, hops(d, s, frontier, k, w)),
        k > 0 && plain(d, w) ==> forall|i: int|
            #![trigger frontier[i]]
            0 <= i < frontier.len() && signal_at(d, group_at(d, frontier[i])[0])
                && w.seeds.contains(group_at(d, frontier[i])[0]) ==> hops(
                d,
                s,
                frontier,
                k,
                w,
            ).stubs.contains(group_at(d, frontier[i])[0]),
    decreases k,
{
    if k > 0 {
        lemma_hop(d, s, base, frontier, frontier.len(), w);
        let v = hop(d, s, frontier, frontier.len(), w).1;
        lemma_hops(d, s, base, v.next, (k - 1) as nat, v);
    }
}

// --- Steps --------------------------------------------------------------------

/// The greater of two numbers.
pub open spec fn greater(a: nat, b: nat) -> nat {
    if a >= b {
        a
    } else {
        b
    }
}

/// The most boxes that the first `n` steps draw: as many as the budget has. What a step
/// starts at is drawn even where the budget is used up, so that a box among the steps' seeds
/// counts on top of what the steps before it drew, and any other node that is no signal on
/// top of the budget.
pub open spec fn most_boxes(
    d: Document,
    steps: Seq<TraceStep>,
    limits: ConeLimits,
    projection: Projection,
    n: nat,
) -> nat
    decreases n,
{
    if n == 0 {
        0
    } else {
        let before = most_boxes(d, steps, limits, projection, (n - 1) as nat);
        let seed = steps[n - 1].seed;
        if signal_at(d, seed) {
            greater(limits.boxes as nat, before)
        } else if seed_box(d, seed, projection) is Some {
            greater(limits.boxes as nat, before + 1)
        } else {
            greater(limits.boxes as nat, before) + 1
        }
    }
}

pub(crate) proof fn lemma_anchored(d: Document, frontier: Seq<u32>, n: nat, seeds: Set<u32>)
    requires
        n <= frontier.len(),
    ensures
        seeds.subset_of(anchored_seeds(d, frontier, n, seeds)),
        forall|k: int|
            0 <= k < n ==> anchored_seeds(d, frontier, n, seeds).contains(
                group_at(d, #[trigger] frontier[k])[0],
            ),
    decreases n,
{
    if n > 0 {
        lemma_anchored(d, frontier, (n - 1) as nat, seeds);
    }
}

/// Whether a node is a signal that is listed under its own path.
pub open spec fn listed(d: Document, seed: u32) -> bool {
    signal_at(d, seed) && at_path(d, node_at(d, seed)->0.path@).contains(seed)
}

proof fn lemma_step(
    d: Document,
    step: TraceStep,
    limits: ConeLimits,
    projection: Projection,
    root: Seq<char>,
    before: nat,
    w: WalkV,
)
    requires
        plain(d, w),
        on_show(w),
        box_count(w.nodes) <= before,
    ensures
        ({
            let v = step_walk(d, step, limits, projection, root, w);
            &&& plain(d, v)
            &&& on_show(v)
            &&& box_count(v.nodes) <= if signal_at(d, step.seed) {
                greater(limits.boxes as nat, before)
            } else if seed_box(d, step.seed, projection) is Some {
                greater(limits.boxes as nat, before + 1)
            } else {
                greater(limits.boxes as nat, before) + 1
            }
            &&& w.stubs.subset_of(v.stubs)
            &&& w.emitted.subset_of(v.emitted)
            &&& w.seeds.subset_of(v.seeds)
            &&& seed_box(d, step.seed, projection) is Some ==> v.seeds.contains(step.seed) && (
            v.emitted.contains(step.seed) || v.stubs.contains(step.seed))
            &&& listed(d, step.seed) ==> v.stubs.contains(group_at(d, step.seed)[0])
                && v.seeds.contains(group_at(d, step.seed)[0])
        }),
{
    let s = budget(step, limits, projection, root);
    let k: nat = if step.depth > 0 {
        step.depth as nat
    } else {
        1
    };
    let (frontier, v) = match seed_box(d, step.seed, projection) {
        Some(scope) => (seq![step.seed], box_seeded(d, s, step.seed, scope, w)),
        None => (seeds_at(d, step.seed, step.dir), w),
    };
    lemma_box_around(d, step.seed, projection);
    match seed_box(d, step.seed, projection) {
        Some(scope) => {
            lemma_boxed(d, projection, step.seed);
            let path = scope_path(d, scope, s.root);
            crate::schematic::walk_laws::lemma_drawn_id(d, step.seed, path, w.pins);
            lemma_boxed_kind(d, projection, step.seed);
            match drawn(d, step.seed, path, w.pins).0 {
                Some(b) => {
                    lemma_pushed(w.nodes, b);
                },
                None => {},
            }
        },
        None => {},
    }
    let u = WalkV {
        visited: v.visited.union(frontier.to_set()),
        seeds: anchored_seeds(d, frontier, frontier.len(), v.seeds),
        ..v
    };
    lemma_anchored(d, frontier, frontier.len(), v.seeds);
    let base = if signal_at(d, step.seed) {
        greater(limits.boxes as nat, before)
    } else if seed_box(d, step.seed, projection) is Some {
        greater(limits.boxes as nat, before + 1)
    } else {
        greater(limits.boxes as nat, before) + 1
    };
    assert(fits(d, step.seed, limits.boxes as nat, base, u));
    lemma_hops(d, s, base, frontier, k, u);
    if listed(d, step.seed) {
        let ids = at_path(d, node_at(d, step.seed)->0.path@);
        lemma_ascending(ids.to_set());
        assert(ids.to_set().contains(step.seed));
        assert(frontier.contains(step.seed));
        let i = choose|i: int| 0 <= i < frontier.len() && frontier[i] == step.seed;
        lemma_rep(d, step.seed);
        assert(u.seeds.contains(group_at(d, frontier[i])[0]));
    }
}

proof fn lemma_steps(
    d: Document,
    steps: Seq<TraceStep>,
    limits: ConeLimits,
    projection: Projection,
    root: Seq<char>,
    n: nat,
)
    requires
        n <= steps.len(),
    ensures
        ({
            let w = steps_walk(d, steps, limits, projection, root, n);
            &&& plain(d, w)
            &&& on_show(w)
            &&& box_count(w.nodes) <= most_boxes(d, steps, limits, projection, n)
            &&& forall|i: int|
                0 <= i < n && seed_box(d, (#[trigger] steps[i]).seed, projection) is Some
                    ==> w.seeds.contains(steps[i].seed) && (w.emitted.contains(steps[i].seed)
                    || w.stubs.contains(steps[i].seed))
            &&& forall|i: int|
                0 <= i < n && listed(d, (#[trigger] steps[i]).seed) ==> w.stubs.contains(
                    group_at(d, steps[i].seed)[0],
                ) && w.seeds.contains(group_at(d, steps[i].seed)[0])
        }),
    decreases n,
{
    if n > 0 {
        lemma_steps(d, steps, limits, projection, root, (n - 1) as nat);
        let w = steps_walk(d, steps, limits, projection, root, (n - 1) as nat);
        lemma_step(
            d,
            steps[n - 1],
            limits,
            projection,
            root,
            most_boxes(d, steps, limits, projection, (n - 1) as nat),
            w,
        );
    }
}

// --- From the walk to the graph -----------------------------------------------

proof fn lemma_contained(
    d: Document,
    want: Seq<u32>,
    n: nat,
    root: Seq<char>,
    most: nat,
    c0: ContainedV,
    bound: nat,
)
    requires
        n <= want.len(),
        most <= bound,
        box_count(c0.nodes) <= bound,
    ensures
        box_count(contained(d, want, n, root, most, c0).nodes) <= bound,
    decreases n,
{
    if n > 0 {
        lemma_contained(d, want, (n - 1) as nat, root, most, c0, bound);
        let v = contained(d, want, (n - 1) as nat, root, most, c0);
        match drawn(d, want[n - 1], outer_path(d, want[n - 1], root), v.pins).0 {
            Some(b) => {
                lemma_pushed(v.nodes, b);
            },
            None => {},
        }
    }
}

proof fn lemma_same_kinds(a: Seq<NodeV>, b: Seq<NodeV>)
    requires
        a.len() == b.len(),
        forall|k: int| 0 <= k < a.len() ==> (#[trigger] a[k]).kind == b[k].kind,
    ensures
        box_count(a) == box_count(b),
    decreases a.len(),
{
    if a.len() > 0 {
        lemma_same_kinds(a.drop_last(), b.drop_last());
        assert(a[a.len() - 1].kind == b[b.len() - 1].kind);
    }
}

proof fn lemma_took(nodes: Seq<NodeV>, n: int)
    requires
        0 < n <= nodes.len(),
    ensures
        box_count(nodes.take(n)) == box_count(nodes.take(n - 1)) + if signal_kind(
            nodes[n - 1].kind,
        ) {
            0nat
        } else {
            1nat
        },
{
    assert(nodes.take(n).drop_last() =~= nodes.take(n - 1));
}

proof fn lemma_apart(nodes: Seq<NodeV>, stubs: Set<u32>, n: nat)
    requires
        n <= nodes.len(),
    ensures
        box_count(apart(nodes, stubs, n)) <= box_count(nodes.take(n as int)),
    decreases n,
{
    if n > 0 {
        lemma_apart(nodes, stubs, (n - 1) as nat);
        lemma_took(nodes, n as int);
        lemma_pushed(apart(nodes, stubs, (n - 1) as nat), nodes[n - 1]);
    }
}

proof fn lemma_showing(
    seeds: Set<u32>,
    cs: Set<u32>,
    edges: Seq<EdgeV>,
    nodes: Seq<NodeV>,
    n: nat,
)
    requires
        n <= nodes.len(),
    ensures
        box_count(showing(seeds, cs, edges, nodes, n)) <= box_count(nodes.take(n as int)),
    decreases n,
{
    if n > 0 {
        lemma_showing(seeds, cs, edges, nodes, (n - 1) as nat);
        lemma_took(nodes, n as int);
        lemma_pushed(showing(seeds, cs, edges, nodes, (n - 1) as nat), nodes[n - 1]);
    }
}

proof fn lemma_filled(
    seeds: Set<u32>,
    cs: Set<u32>,
    edges: Seq<EdgeV>,
    nodes: Seq<NodeV>,
    n: nat,
)
    requires
        n <= nodes.len(),
    ensures
        box_count(filled(seeds, cs, edges, nodes, n)) <= box_count(nodes.take(n as int)),
        filled(seeds, cs, edges, nodes, n).len() <= n,
    decreases n,
{
    if n > 0 {
        lemma_filled(seeds, cs, edges, nodes, (n - 1) as nat);
        lemma_took(nodes, n as int);
        lemma_pushed(filled(seeds, cs, edges, nodes, (n - 1) as nat), nodes[n - 1]);
    }
}

proof fn lemma_pruned(seeds: Set<u32>, cs: Set<u32>, edges: Seq<EdgeV>, nodes: Seq<NodeV>)
    ensures
        box_count(pruned(seeds, cs, edges, nodes)) <= box_count(nodes),
    decreases nodes.len(),
{
    let f = filled(seeds, cs, edges, nodes, nodes.len());
    lemma_filled(seeds, cs, edges, nodes, nodes.len());
    assert(nodes.take(nodes.len() as int) =~= nodes);
    let r = unhooked(f);
    lemma_same_kinds(r, f);
    if r.len() < nodes.len() {
        lemma_pruned(seeds, cs, edges, r);
    }
}

/// Whether one of the first `n` boxes has an id.
spec fn box_among(nodes: Seq<NodeV>, x: u32, n: nat) -> bool {
    exists|k: int| 0 <= k < n && (#[trigger] nodes[k]).id == x
}

proof fn lemma_kept_apart(nodes: Seq<NodeV>, stubs: Set<u32>, x: u32, n: nat)
    requires
        n <= nodes.len(),
        box_among(nodes, x, n),
        !stubs.contains(x),
    ensures
        has_box(apart(nodes, stubs, n), x),
    decreases n,
{
    let r = apart(nodes, stubs, (n - 1) as nat);
    lemma_pushed(r, nodes[n - 1]);
    if nodes[n - 1].id != x {
        assert(box_among(nodes, x, (n - 1) as nat));
        lemma_kept_apart(nodes, stubs, x, (n - 1) as nat);
    }
}

proof fn lemma_kept_showing(
    seeds: Set<u32>,
    cs: Set<u32>,
    edges: Seq<EdgeV>,
    nodes: Seq<NodeV>,
    x: u32,
    n: nat,
)
    requires
        n <= nodes.len(),
        box_among(nodes, x, n),
        seeds.contains(x),
    ensures
        has_box(showing(seeds, cs, edges, nodes, n), x),
    decreases n,
{
    let r = showing(seeds, cs, edges, nodes, (n - 1) as nat);
    lemma_pushed(r, nodes[n - 1]);
    if nodes[n - 1].id != x {
        assert(box_among(nodes, x, (n - 1) as nat));
        lemma_kept_showing(seeds, cs, edges, nodes, x, (n - 1) as nat);
    }
}

proof fn lemma_kept_filled(
    seeds: Set<u32>,
    cs: Set<u32>,
    edges: Seq<EdgeV>,
    nodes: Seq<NodeV>,
    x: u32,
    n: nat,
)
    requires
        n <= nodes.len(),
        box_among(nodes, x, n),
        !cs.contains(x),
    ensures
        has_box(filled(seeds, cs, edges, nodes, n), x),
    decreases n,
{
    let r = filled(seeds, cs, edges, nodes, (n - 1) as nat);
    lemma_pushed(r, nodes[n - 1]);
    if nodes[n - 1].id != x {
        assert(box_among(nodes, x, (n - 1) as nat));
        lemma_kept_filled(seeds, cs, edges, nodes, x, (n - 1) as nat);
    }
}

proof fn lemma_same_ids(a: Seq<NodeV>, b: Seq<NodeV>, x: u32)
    requires
        a.len() == b.len(),
        forall|k: int| 0 <= k < a.len() ==> (#[trigger] a[k]).id == b[k].id,
        has_box(a, x),
    ensures
        has_box(b, x),
{
    let k = choose|k: int| 0 <= k < a.len() && (#[trigger] a[k]).id == x;
    assert(b[k].id == x);
}

proof fn lemma_kept_pruned(
    seeds: Set<u32>,
    cs: Set<u32>,
    edges: Seq<EdgeV>,
    nodes: Seq<NodeV>,
    x: u32,
)
    requires
        has_box(nodes, x),
        !cs.contains(x),
    ensures
        has_box(pruned(seeds, cs, edges, nodes), x),
    decreases nodes.len(),
{
    let f = filled(seeds, cs, edges, nodes, nodes.len());
    assert(box_among(nodes, x, nodes.len()));
    lemma_kept_filled(seeds, cs, edges, nodes, x, nodes.len());
    let r = unhooked(f);
    lemma_same_ids(f, r, x);
    if r.len() < nodes.len() {
        lemma_kept_pruned(seeds, cs, edges, r, x);
    }
}

/// A seed that is drawn as a box stays on the canvas to the end.
proof fn lemma_kept(d: Document, w: WalkV, root: Seq<char>, most: nat, x: u32)
    requires
        sound(w),
        w.seeds.contains(x),
        !w.stubs.contains(x),
        has_box(w.nodes, x),
    ensures
        has_box(finished(d, w, root, most).nodes, x),
{
    let want = wanted(d, w.nodes, w.nodes.len());
    crate::schematic::trace_laws::lemma_wanted(d, w.nodes, w.nodes.len());
    crate::schematic::trace_laws::lemma_contained(
        d,
        want,
        want.len(),
        root,
        most,
        ContainedV { nodes: w.nodes, containers: Set::empty(), pins: w.pins, cut: w.truncated },
    );
    let c = with_containers(d, w, root, most);
    assert(!c.containers.contains(x)) by {
        if c.containers.contains(x) {
            let same = want.take(want.len() as int);
            let m = choose|m: int| 0 <= m < same.len() && same[m] == x;
            assert(!has_box(w.nodes, want[m]));
        }
    }
    assert(has_box(c.nodes, x)) by {
        let k = choose|k: int| 0 <= k < w.nodes.len() && (#[trigger] w.nodes[k]).id == x;
        assert(c.nodes[k] == w.nodes[k]);
    }
    let a1 = with_parents(d, c.nodes);
    lemma_same_ids(c.nodes, a1, x);
    assert(box_among(a1, x, a1.len()));
    lemma_kept_apart(a1, w.stubs, x, a1.len());
    let a2 = apart(a1, w.stubs, a1.len());
    let a3 = counted(w.more, a2);
    lemma_same_ids(a2, a3, x);
    assert(box_among(a3, x, a3.len()));
    let edges = w.wires.edges;
    lemma_kept_showing(w.seeds, c.containers, edges, a3, x, a3.len());
    lemma_kept_pruned(
        w.seeds,
        c.containers,
        edges,
        showing(w.seeds, c.containers, edges, a3, a3.len()),
        x,
    );
}

// --- Laws ---------------------------------------------------------------------

proof fn lemma_budget(
    d: Document,
    steps: Seq<TraceStep>,
    limits: ConeLimits,
    projection: Projection,
)
    requires
        steps.len() > 0,
    ensures
        box_count(traced(d, steps, limits, projection).nodes) <= most_boxes(
            d,
            steps,
            limits,
            projection,
            steps.len(),
        ),
{
    let root = trace_root(d, steps);
    let w = steps_walk(d, steps, limits, projection, root, steps.len());
    lemma_steps(d, steps, limits, projection, root, steps.len());
    let most = limits.boxes as nat;
    let want = wanted(d, w.nodes, w.nodes.len());
    lemma_contained(
        d,
        want,
        want.len(),
        root,
        most,
        ContainedV { nodes: w.nodes, containers: Set::empty(), pins: w.pins, cut: w.truncated },
        most_boxes(d, steps, limits, projection, steps.len()),
    );
    let c = with_containers(d, w, root, most);
    let a1 = with_parents(d, c.nodes);
    lemma_same_kinds(a1, c.nodes);
    let a2 = apart(a1, w.stubs, a1.len());
    lemma_apart(a1, w.stubs, a1.len());
    assert(a1.take(a1.len() as int) =~= a1);
    let a3 = counted(w.more, a2);
    lemma_same_kinds(a3, a2);
    let edges = w.wires.edges;
    lemma_showing(w.seeds, c.containers, edges, a3, a3.len());
    assert(a3.take(a3.len() as int) =~= a3);
    lemma_pruned(
        w.seeds,
        c.containers,
        edges,
        showing(w.seeds, c.containers, edges, a3, a3.len()),
    );
}

/// The box budget of a trace covers the whole graph, all steps and the containers around
/// boxes together: the graph never has more boxes than the steps may draw. What stands for a
/// signal is no box.
pub proof fn law_traces_keep_their_budget(
    d: Document,
    steps: Seq<TraceStep>,
    limits: ConeLimits,
    projection: Projection,
)
    ensures
        box_count(traced(d, steps, limits, projection).nodes) <= most_boxes(
            d,
            steps,
            limits,
            projection,
            steps.len(),
        ),
{
    if steps.len() == 0 {
        assert(steps =~= Seq::empty());
        law_empty_trace_is_empty(d, limits, projection);
    } else {
        lemma_budget(d, steps, limits, projection);
    }
}

proof fn lemma_signal_steps(
    d: Document,
    steps: Seq<TraceStep>,
    limits: ConeLimits,
    projection: Projection,
    n: nat,
)
    requires
        n <= steps.len(),
        forall|i: int| 0 <= i < steps.len() ==> signal_at(d, (#[trigger] steps[i]).seed),
    ensures
        most_boxes(d, steps, limits, projection, n) <= limits.boxes,
    decreases n,
{
    if n > 0 {
        lemma_signal_steps(d, steps, limits, projection, (n - 1) as nat);
        assert(signal_at(d, steps[n - 1].seed));
    }
}

/// A trace whose steps all start at signals has no more boxes than its budget.
pub proof fn law_signal_traces_keep_their_budget(
    d: Document,
    steps: Seq<TraceStep>,
    limits: ConeLimits,
    projection: Projection,
)
    requires
        forall|i: int| 0 <= i < steps.len() ==> signal_at(d, (#[trigger] steps[i]).seed),
    ensures
        box_count(traced(d, steps, limits, projection).nodes) <= limits.boxes,
{
    law_traces_keep_their_budget(d, steps, limits, projection);
    lemma_signal_steps(d, steps, limits, projection, steps.len());
}

/// The cone of a box has no more boxes than its budget, where that has room for the box.
pub proof fn law_box_cones_keep_their_budget(
    d: Document,
    step: TraceStep,
    limits: ConeLimits,
    projection: Projection,
)
    requires
        seed_box(d, step.seed, projection) is Some,
        limits.boxes > 0,
    ensures
        box_count(traced(d, seq![step], limits, projection).nodes) <= limits.boxes,
{
    law_traces_keep_their_budget(d, seq![step], limits, projection);
    reveal_with_fuel(most_boxes, 2);
}

/// The signal that a step starts at is always drawn, whatever the step reaches: a box or a
/// stand-in has a pin for it, under the first of the nodes that are this signal.
pub proof fn law_trace_draws_its_seeds(
    d: Document,
    steps: Seq<TraceStep>,
    limits: ConeLimits,
    projection: Projection,
    i: int,
)
    requires
        0 <= i < steps.len(),
        listed(d, steps[i].seed),
    ensures
        pin_shown(
            traced(d, steps, limits, projection).nodes,
            group_at(d, steps[i].seed)[0],
        ),
{
    let root = trace_root(d, steps);
    let w = steps_walk(d, steps, limits, projection, root, steps.len());
    lemma_steps(d, steps, limits, projection, root, steps.len());
    law_walks_stay_sound(d, steps, limits, projection, root, steps.len());
    lemma_stub_pin(w, group_at(d, steps[i].seed)[0]);
    lemma_finished(d, w, root, limits.boxes as nat);
}

/// The box that a step starts at is always drawn, whatever the step reaches: as a box, or as
/// the pin that an earlier step drew for it.
pub proof fn law_trace_draws_its_box_seeds(
    d: Document,
    steps: Seq<TraceStep>,
    limits: ConeLimits,
    projection: Projection,
    i: int,
)
    requires
        0 <= i < steps.len(),
        seed_box(d, steps[i].seed, projection) is Some,
    ensures
        has_box(traced(d, steps, limits, projection).nodes, steps[i].seed) || pin_shown(
            traced(d, steps, limits, projection).nodes,
            steps[i].seed,
        ),
{
    let root = trace_root(d, steps);
    let w = steps_walk(d, steps, limits, projection, root, steps.len());
    let x = steps[i].seed;
    lemma_steps(d, steps, limits, projection, root, steps.len());
    law_walks_stay_sound(d, steps, limits, projection, root, steps.len());
    assert(w.seeds.contains(steps[i].seed));
    if w.stubs.contains(x) {
        lemma_stub_pin(w, x);
        lemma_finished(d, w, root, limits.boxes as nat);
    } else {
        lemma_kept(d, w, root, limits.boxes as nat, x);
    }
}

// --- Zero budgets -------------------------------------------------------------

/// What a budget comes to: at least one.
pub open spec fn at_least_one(n: usize) -> usize {
    if n > 0 {
        n
    } else {
        1
    }
}

/// Whether two steps ask for the same: they start at one node, go one way, and their budgets
/// come to the same.
pub open spec fn asks_alike(a: TraceStep, b: TraceStep) -> bool {
    &&& a.seed == b.seed
    &&& a.dir == b.dir
    &&& at_least_one(a.depth) == at_least_one(b.depth)
    &&& match (a.fanout, b.fanout) {
        (Some(f), Some(g)) => at_least_one(f) == at_least_one(g),
        (None, None) => true,
        _ => false,
    }
}

/// Whether two lists of steps ask for the same, step by step.
pub open spec fn all_alike(a: Seq<TraceStep>, b: Seq<TraceStep>) -> bool {
    a.len() == b.len() && forall|k: int|
        0 <= k < a.len() ==> asks_alike(#[trigger] a[k], b[k])
}

proof fn lemma_alike(
    d: Document,
    a: Seq<TraceStep>,
    b: Seq<TraceStep>,
    m: ConeLimits,
    k: ConeLimits,
    projection: Projection,
    root: Seq<char>,
    n: nat,
)
    requires
        n <= a.len(),
        all_alike(a, b),
        m.boxes == k.boxes,
        at_least_one(m.fanout) == at_least_one(k.fanout),
    ensures
        steps_walk(d, a, m, projection, root, n) == steps_walk(d, b, k, projection, root, n),
    decreases n,
{
    if n > 0 {
        lemma_alike(d, a, b, m, k, projection, root, (n - 1) as nat);
        assert(asks_alike(a[n - 1], b[n - 1]));
        assert(budget(a[n - 1], m, projection, root) == budget(b[n - 1], k, projection, root));
    }
}

/// A budget of none acts as one, for the hops of a step, for its connections and for those of
/// the whole trace: requests that differ in nothing else, and so equal requests too, are
/// answered with equal graphs.
pub proof fn law_zero_budgets_act_as_one(
    d: Document,
    a: Seq<TraceStep>,
    b: Seq<TraceStep>,
    m: ConeLimits,
    k: ConeLimits,
    projection: Projection,
)
    requires
        all_alike(a, b),
        m.boxes == k.boxes,
        at_least_one(m.fanout) == at_least_one(k.fanout),
    ensures
        traced(d, a, m, projection) == traced(d, b, k, projection),
{
    if a.len() > 0 {
        assert(asks_alike(a[0], b[0]));
    }
    assert(trace_root(d, a) == trace_root(d, b));
    lemma_alike(d, a, b, m, k, projection, trace_root(d, a), a.len());
}

/// The cone of a node with a budget of no hops is that with one hop, and with no connections
/// that with one.
pub proof fn law_zero_cones_act_as_one(
    d: Document,
    seed: u32,
    dir: Dir,
    m: ConeLimits,
    k: ConeLimits,
    projection: Projection,
)
    requires
        m.boxes == k.boxes,
        at_least_one(m.fanout) == at_least_one(k.fanout),
        at_least_one(m.depth) == at_least_one(k.depth),
    ensures
        traced(
            d,
            seq![TraceStep { seed, dir, depth: m.depth, fanout: None }],
            m,
            projection,
        ) == traced(
            d,
            seq![TraceStep { seed, dir, depth: k.depth, fanout: None }],
            k,
            projection,
        ),
{
    law_zero_budgets_act_as_one(
        d,
        seq![TraceStep { seed, dir, depth: m.depth, fanout: None }],
        seq![TraceStep { seed, dir, depth: k.depth, fanout: None }],
        m,
        k,
        projection,
    );
}

} // verus!
