//! Traces: the accumulated cone of an ordered list of expansion requests.

use crate::model::{parent_at, Design, Dir, Document, NodeId};
use crate::schematic::boxes::{cone_box_node, drawn};
use crate::schematic::hierarchy::{
    climbs, cone_root, container_of, containing_instance, hierarchical, instance_from, rooted,
    root_path,
};
use crate::schematic::kinds::nested;
use crate::schematic::pins::{PinAlloc, Pins};
use crate::schematic::reach::{
    box_around, cone_box_of, group_at, is_signal_kind, lemma_group, seed_signals, seeds_at,
    signal_group, signal_kind, ScopeCache,
};
use crate::schematic::scope::{has_pin, wired, wired_ids};
use crate::schematic::types::{
    edge_views, group_views, node_views, port_views, ConeLimits, EdgeV, GraphV, NodeV, PortV,
    Projection, SchNode, SchPort, SchematicGraph, TraceStep,
};
use crate::schematic::walk::{
    add_node, added, hops, lists, scope_path, visit_all, walk_hops, Step, StepV, Walk, WalkV,
};
use crate::schematic::wires::{Wires, WiresV};
use std::collections::{HashMap, HashSet};
use vstd::prelude::*;

verus! {

broadcast use {group_views, vstd::std_specs::hash::group_hash_axioms};

// --- Steps --------------------------------------------------------------------

/// Nothing drawn; wires get ids behind those of the model edges.
pub open spec fn blank(d: Document) -> WalkV {
    WalkV {
        pins: Seq::empty(),
        nodes: Seq::empty(),
        emitted: Set::empty(),
        stubs: Set::empty(),
        emitted_pins: Set::empty(),
        wires: WiresV {
            edges: Seq::empty(),
            seen: Set::empty(),
            next: d.edges@.len() as u32,
        },
        truncated: false,
        more: Map::empty(),
        visited: Set::empty(),
        next: Seq::empty(),
        seeds: Set::empty(),
        box_seeds: Map::empty(),
    }
}

/// The budget and direction of one request. At least one connection is kept.
pub open spec fn budget(
    step: TraceStep,
    limits: ConeLimits,
    projection: Projection,
    root: Seq<char>,
) -> StepV {
    let cap = match step.fanout {
        Some(f) => f,
        None => limits.fanout,
    };
    StepV {
        projection,
        boxes: limits.boxes,
        seed: step.seed,
        dir: step.dir,
        cap: if cap > 0 {
            cap
        } else {
            1
        },
        root,
    }
}

/// The scope of a seed that is itself a box.
pub open spec fn seed_box(d: Document, seed: u32, projection: Projection) -> Option<u32> {
    match box_around(d, seed, projection) {
        Some((bx, scope)) => if bx == seed {
            Some(scope)
        } else {
            None
        },
        None => None,
    }
}

/// The walk with a box seed drawn. Its own pins anchor its wires.
pub open spec fn box_seeded(d: Document, s: StepV, bx: u32, scope: u32, w: WalkV) -> WalkV {
    let v = WalkV { box_seeds: w.box_seeds.insert(bx, scope), ..w };
    let u = if v.emitted.contains(bx) || v.stubs.contains(bx) {
        v
    } else {
        let (b, p) = drawn(d, bx, scope_path(d, scope, s.root), v.pins);
        let q = WalkV { pins: p, ..v };
        match b {
            Some(n) => WalkV { emitted: q.emitted.insert(bx), ..added(q, n) },
            None => q,
        }
    };
    WalkV { seeds: u.seeds.insert(bx), ..u }
}

/// The seeds with the anchors of the first `n` frontier entries.
pub open spec fn anchored_seeds(d: Document, frontier: Seq<u32>, n: nat, seeds: Set<u32>) -> Set<
    u32,
>
    decreases n,
{
    if n == 0 {
        seeds
    } else {
        anchored_seeds(d, frontier, (n - 1) as nat, seeds).insert(
            group_at(d, frontier[n - 1])[0],
        )
    }
}

/// The walk of one request: from its seed, its own hops.
pub open spec fn step_walk(
    d: Document,
    step: TraceStep,
    limits: ConeLimits,
    projection: Projection,
    root: Seq<char>,
    w: WalkV,
) -> WalkV {
    let s = budget(step, limits, projection, root);
    let (frontier, v) = match seed_box(d, step.seed, projection) {
        Some(scope) => (seq![step.seed], box_seeded(d, s, step.seed, scope, w)),
        None => (seeds_at(d, step.seed, step.dir), w),
    };
    let v = WalkV {
        visited: v.visited.union(frontier.to_set()),
        seeds: anchored_seeds(d, frontier, frontier.len(), v.seeds),
        ..v
    };
    hops(
        d,
        s,
        frontier,
        if step.depth > 0 {
            step.depth as nat
        } else {
            1
        },
        v,
    )
}

/// The walk of the first `n` requests, in order.
pub open spec fn steps_walk(
    d: Document,
    steps: Seq<TraceStep>,
    limits: ConeLimits,
    projection: Projection,
    root: Seq<char>,
    n: nat,
) -> WalkV
    decreases n,
{
    if n == 0 {
        blank(d)
    } else {
        step_walk(
            d,
            steps[n - 1],
            limits,
            projection,
            root,
            steps_walk(d, steps, limits, projection, root, (n - 1) as nat),
        )
    }
}

// --- The canvas ---------------------------------------------------------------

/// Whether one of the boxes has an id.
pub open spec fn has_box(nodes: Seq<NodeV>, id: u32) -> bool {
    exists|k: int| 0 <= k < nodes.len() && (#[trigger] nodes[k]).id == id
}

/// The containers from `c` upwards that are not on the canvas, added to `want`.
pub open spec fn wanted_from(
    d: Document,
    nodes: Seq<NodeV>,
    c: Option<u32>,
    n: nat,
    want: Seq<u32>,
) -> Seq<u32>
    decreases n,
{
    match c {
        Some(x) => {
            let more = if !has_box(nodes, x) && !want.contains(x) {
                want.push(x)
            } else {
                want
            };
            if n > 0 {
                wanted_from(d, nodes, container_of(d, x), (n - 1) as nat, more)
            } else {
                more
            }
        },
        None => want,
    }
}

/// The containers of the first `n` boxes that are not on the canvas.
pub open spec fn wanted(d: Document, nodes: Seq<NodeV>, n: nat) -> Seq<u32>
    decreases n,
{
    if n == 0 {
        Seq::empty()
    } else {
        wanted_from(
            d,
            nodes,
            container_of(d, nodes[n - 1].id),
            d.nodes@.len(),
            wanted(d, nodes, (n - 1) as nat),
        )
    }
}

/// The path that the label of a container is relative to.
pub open spec fn outer_path(d: Document, c: u32, root: Seq<char>) -> Seq<char> {
    match parent_at(d, c) {
        Some(p) => scope_path(d, p, root),
        None => root,
    }
}

/// How many of the drawn nodes are boxes: all but those that stand for a signal.
pub open spec fn box_count(nodes: Seq<NodeV>) -> nat
    decreases nodes.len(),
{
    if nodes.len() == 0 {
        0
    } else {
        box_count(nodes.drop_last()) + if signal_kind(nodes.last().kind) {
            0nat
        } else {
            1nat
        }
    }
}

/// A canvas with containers drawn on it.
#[verifier::ext_equal]
pub struct ContainedV {
    pub nodes: Seq<NodeV>,
    /// The containers that were drawn.
    pub containers: Set<u32>,
    pub pins: Pins,
    /// Whether one was left out.
    pub cut: bool,
}

/// The boxes with the first `n` containers drawn, as long as there are fewer than `most`
/// boxes.
pub open spec fn contained(
    d: Document,
    want: Seq<u32>,
    n: nat,
    root: Seq<char>,
    most: nat,
    c0: ContainedV,
) -> ContainedV
    decreases n,
{
    if n == 0 {
        c0
    } else {
        let v = contained(d, want, (n - 1) as nat, root, most, c0);
        let c = want[n - 1];
        if box_count(v.nodes) >= most {
            ContainedV { cut: true, ..v }
        } else {
            let (b, r) = drawn(d, c, outer_path(d, c, root), v.pins);
            match b {
                Some(x) => ContainedV {
                    nodes: v.nodes.push(x),
                    containers: v.containers.insert(c),
                    pins: r,
                    cut: v.cut,
                },
                None => ContainedV { pins: r, ..v },
            }
        }
    }
}

/// The canvas of a walk with the containers of its boxes, within the budget.
pub open spec fn with_containers(d: Document, w: WalkV, root: Seq<char>, most: nat) -> ContainedV {
    let want = wanted(d, w.nodes, w.nodes.len());
    contained(
        d,
        want,
        want.len(),
        root,
        most,
        ContainedV { nodes: w.nodes, containers: Set::empty(), pins: w.pins, cut: w.truncated },
    )
}

/// The boxes, each naming the instance that contains it.
pub open spec fn with_parents(d: Document, nodes: Seq<NodeV>) -> Seq<NodeV> {
    Seq::new(
        nodes.len(),
        |k: int| NodeV { parent: container_of(d, nodes[k].id), ..nodes[k] },
    )
}

/// Whether a pin belongs to a box that is no stand-in.
pub open spec fn boxed_pin(nodes: Seq<NodeV>, stubs: Set<u32>, id: u32) -> bool {
    exists|k: int|
        0 <= k < nodes.len() && !stubs.contains((#[trigger] nodes[k]).id) && has_pin(
            nodes[k].ports,
            id,
        )
}

/// Whether a box stays beside the others: a stand-in gives way where a box has its pin.
pub open spec fn stands_apart(nodes: Seq<NodeV>, stubs: Set<u32>, n: NodeV) -> bool {
    stubs.contains(n.id) ==> forall|k: int|
        0 <= k < n.ports.len() ==> !boxed_pin(nodes, stubs, (#[trigger] n.ports[k]).id)
}

/// Those of the first `n` boxes that stay beside the others.
pub open spec fn apart(nodes: Seq<NodeV>, stubs: Set<u32>, n: nat) -> Seq<NodeV>
    decreases n,
{
    if n == 0 {
        Seq::empty()
    } else {
        let r = apart(nodes, stubs, (n - 1) as nat);
        if stands_apart(nodes, stubs, nodes[n - 1]) {
            r.push(nodes[n - 1])
        } else {
            r
        }
    }
}

/// A pin with its count of dropped connections.
pub open spec fn counted_pin(more: Map<u32, u32>, p: PortV) -> PortV {
    if more.contains_key(p.id) {
        PortV { more: Some(more[p.id]), ..p }
    } else {
        p
    }
}

/// The boxes with dropped connections on their pins, and no pin dangling: beyond the
/// frontier is not the same as unconnected.
pub open spec fn counted(more: Map<u32, u32>, nodes: Seq<NodeV>) -> Seq<NodeV> {
    Seq::new(
        nodes.len(),
        |k: int|
            NodeV {
                ports: Seq::new(
                    nodes[k].ports.len(),
                    |j: int| PortV { dangling: false, ..counted_pin(more, nodes[k].ports[j]) },
                ),
                ..nodes[k]
            },
    )
}

/// Whether a wire ends at one of a box's pins.
pub open spec fn has_wire(edges: Seq<EdgeV>, n: NodeV) -> bool {
    exists|k: int| 0 <= k < n.ports.len() && wired(edges, (#[trigger] n.ports[k]).id)
}

/// Whether a pin of a box reports dropped connections.
pub open spec fn has_more(n: NodeV) -> bool {
    exists|k: int| 0 <= k < n.ports.len() && (#[trigger] n.ports[k]).more is Some
}

/// Whether a pin of a box is a seed.
pub open spec fn bears(seeds: Set<u32>, n: NodeV) -> bool {
    exists|k: int| 0 <= k < n.ports.len() && seeds.contains((#[trigger] n.ports[k]).id)
}

/// Whether a box shows something by its pins: a wire, dropped connections, or a seed.
pub open spec fn tells(seeds: Set<u32>, edges: Seq<EdgeV>, n: NodeV) -> bool {
    has_wire(edges, n) || has_more(n) || bears(seeds, n)
}

/// Those of the first `n` boxes that show something: a seed, a container, or a box whose
/// pins do.
pub open spec fn showing(
    seeds: Set<u32>,
    containers: Set<u32>,
    edges: Seq<EdgeV>,
    nodes: Seq<NodeV>,
    n: nat,
) -> Seq<NodeV>
    decreases n,
{
    if n == 0 {
        Seq::empty()
    } else {
        let r = showing(seeds, containers, edges, nodes, (n - 1) as nat);
        let x = nodes[n - 1];
        if seeds.contains(x.id) || containers.contains(x.id) || tells(seeds, edges, x) {
            r.push(x)
        } else {
            r
        }
    }
}

/// Whether a box names `id` as its container.
pub open spec fn holds(nodes: Seq<NodeV>, id: u32) -> bool {
    exists|k: int| 0 <= k < nodes.len() && (#[trigger] nodes[k]).parent == Some(id)
}

/// Those of the first `n` boxes that are no empty container. A container whose pins show
/// something is not empty.
pub open spec fn filled(
    seeds: Set<u32>,
    containers: Set<u32>,
    edges: Seq<EdgeV>,
    nodes: Seq<NodeV>,
    n: nat,
) -> Seq<NodeV>
    decreases n,
{
    if n == 0 {
        Seq::empty()
    } else {
        let r = filled(seeds, containers, edges, nodes, (n - 1) as nat);
        let x = nodes[n - 1];
        if !containers.contains(x.id) || holds(nodes, x.id) || tells(seeds, edges, x) {
            r.push(x)
        } else {
            r
        }
    }
}

/// The boxes, none naming a container that is not among them.
pub open spec fn unhooked(nodes: Seq<NodeV>) -> Seq<NodeV> {
    Seq::new(
        nodes.len(),
        |k: int|
            match nodes[k].parent {
                Some(p) => if has_box(nodes, p) {
                    nodes[k]
                } else {
                    NodeV { parent: None, ..nodes[k] }
                },
                None => nodes[k],
            },
    )
}

/// The boxes with empty containers taken out, until none is left.
pub open spec fn pruned(
    seeds: Set<u32>,
    containers: Set<u32>,
    edges: Seq<EdgeV>,
    nodes: Seq<NodeV>,
) -> Seq<NodeV>
    decreases nodes.len(),
{
    let r = unhooked(filled(seeds, containers, edges, nodes, nodes.len()));
    if r.len() >= nodes.len() {
        r
    } else {
        pruned(seeds, containers, edges, r)
    }
}

/// The graph of a finished walk, with no container drawn that would make more than `most`
/// boxes.
pub open spec fn finished(d: Document, w: WalkV, root: Seq<char>, most: nat) -> GraphV {
    let c = with_containers(d, w, root, most);
    let all = with_parents(d, c.nodes);
    let all = apart(all, w.stubs, all.len());
    let all = counted(w.more, all);
    let all = showing(w.seeds, c.containers, w.wires.edges, all, all.len());
    GraphV {
        root,
        nodes: pruned(w.seeds, c.containers, w.wires.edges, all),
        edges: w.wires.edges,
        truncated: c.cut,
    }
}

/// The scope path that a trace is labelled relative to: that of its first seed.
pub open spec fn trace_root(d: Document, steps: Seq<TraceStep>) -> Seq<char> {
    if steps.len() > 0 {
        root_path(d, steps[0].seed)
    } else {
        Seq::empty()
    }
}

/// The graph of a trace.
pub open spec fn traced(
    d: Document,
    steps: Seq<TraceStep>,
    limits: ConeLimits,
    projection: Projection,
) -> GraphV {
    let root = trace_root(d, steps);
    let w = steps_walk(d, steps, limits, projection, root, steps.len());
    finished(d, w, root, limits.boxes as nat)
}

// --- Building -----------------------------------------------------------------

fn seed_with_box(design: &Design, s: &Step, bx: NodeId, scope: NodeId, w: &mut Walk)
    requires
        design.wf(),
        nested(design.doc),
        old(w).wf(design.doc, s.projection),
    ensures
        final(w).wf(design.doc, s.projection),
        final(w)@ == box_seeded(design.doc, s@, bx, scope, old(w)@),
{
    w.box_seeds.insert(bx, scope);
    if !w.emitted.contains(&bx) && !w.stubs.contains(&bx) {
        let path: &str = match design.node(scope) {
            Some(n) => n.path.as_str(),
            None => s.root,
        };
        if let Some(n) = cone_box_node(design, bx, path, &mut w.pins) {
            add_node(w, n);
            w.emitted.insert(bx);
        }
    }
    w.seeds.insert(bx);
}

fn anchor_seeds(design: &Design, frontier: &Vec<NodeId>, seeds: &mut HashSet<NodeId>)
    requires
        design.wf(),
    ensures
        final(seeds)@ == anchored_seeds(design.doc, frontier@, frontier@.len(), old(seeds)@),
{
    let ghost s0 = seeds@;
    let mut i: usize = 0;
    while i < frontier.len()
        invariant
            i <= frontier@.len(),
            design.wf(),
            seeds@ == anchored_seeds(design.doc, frontier@, i as nat, s0),
        decreases frontier@.len() - i,
    {
        let group: Vec<NodeId> = signal_group(design, frontier[i]);
        proof {
            lemma_group(design.doc, frontier@[i as int]);
        }
        seeds.insert(group[0]);
        i += 1;
    }
}

fn walk_step(
    design: &Design,
    step: &TraceStep,
    limits: ConeLimits,
    projection: Projection,
    root: &str,
    w: &mut Walk,
)
    requires
        design.wf(),
        hierarchical(design.doc),
        old(w).wf(design.doc, projection),
    ensures
        final(w).wf(design.doc, projection),
        final(w)@ == step_walk(design.doc, *step, limits, projection, root@, old(w)@),
{
    let cap: usize = match step.fanout {
        Some(f) => f,
        None => limits.fanout,
    };
    let s: Step = Step {
        projection,
        boxes: limits.boxes,
        seed: step.seed,
        dir: step.dir,
        cap: if cap > 0 {
            cap
        } else {
            1
        },
        root,
    };
    let scope: Option<NodeId> = match cone_box_of(design, step.seed, projection, &mut w.scopes) {
        Some((bx, sc)) => if bx == step.seed {
            Some(sc)
        } else {
            None
        },
        None => None,
    };
    let frontier: Vec<NodeId> = match scope {
        Some(sc) => {
            seed_with_box(design, &s, step.seed, sc, w);
            let mut one: Vec<NodeId> = Vec::new();
            one.push(step.seed);
            assert(one@ =~= seq![step.seed]);
            one
        },
        None => seed_signals(design, step.seed, step.dir),
    };
    visit_all(w, &frontier);
    anchor_seeds(design, &frontier, &mut w.seeds);
    let depth: usize = if step.depth > 0 {
        step.depth
    } else {
        1
    };
    walk_hops(design, &s, frontier, depth, w);
}

/// The ids of boxes.
fn box_ids(nodes: &Vec<SchNode>) -> (r: HashSet<NodeId>)
    ensures
        forall|id: u32| #[trigger] r@.contains(id) <==> has_box(node_views(nodes@), id),
{
    let mut out: HashSet<NodeId> = HashSet::new();
    let ghost nv = node_views(nodes@);
    let mut i: usize = 0;
    while i < nodes.len()
        invariant
            i <= nodes@.len(),
            nv == node_views(nodes@),
            forall|id: u32| #[trigger]
                out@.contains(id) <==> exists|k: int| 0 <= k < i && (#[trigger] nv[k]).id == id,
        decreases nodes@.len() - i,
    {
        let ghost before = out@;
        out.insert(nodes[i].id);
        proof {
            assert(nv[i as int] == nodes@[i as int]@);
            assert forall|id: u32| #[trigger]
                out@.contains(id) <==> exists|k: int|
                    0 <= k < i + 1 && (#[trigger] nv[k]).id == id by {
                assert(before.contains(id) <==> exists|k: int|
                    0 <= k < i && (#[trigger] nv[k]).id == id);
                if out@.contains(id) && !before.contains(id) {
                    assert(nv[i as int].id == id);
                }
            }
        }
        i += 1;
    }
    out
}

proof fn lemma_instance_climbs(d: Document, id: u32, m: nat, n: nat)
    requires
        climbs(d, id, n),
        instance_from(d, id, m) is Some,
    ensures
        climbs(d, instance_from(d, id, m)->0, n),
    decreases m,
{
    if instance_from(d, id, m) != Some(id) {
        let p = parent_at(d, id)->0;
        lemma_instance_climbs(d, p, (m - 1) as nat, (n - 1) as nat);
        lemma_climbs_more(d, instance_from(d, id, m)->0, (n - 1) as nat);
    }
}

proof fn lemma_climbs_more(d: Document, id: u32, n: nat)
    requires
        climbs(d, id, n),
    ensures
        climbs(d, id, n + 1),
    decreases n,
{
    match parent_at(d, id) {
        Some(p) => {
            lemma_climbs_more(d, p, (n - 1) as nat);
        },
        None => {},
    }
}

proof fn lemma_container_climbs(d: Document, id: u32, n: nat)
    requires
        climbs(d, id, n),
        container_of(d, id) is Some,
    ensures
        n > 0,
        climbs(d, container_of(d, id)->0, (n - 1) as nat),
{
    let p = parent_at(d, id)->0;
    lemma_instance_climbs(d, p, d.nodes@.len(), (n - 1) as nat);
}

fn containers_wanted(design: &Design, nodes: &Vec<SchNode>) -> (r: Vec<NodeId>)
    requires
        rooted(design.doc),
    ensures
        r@ == wanted(design.doc, node_views(nodes@), nodes@.len()),
{
    let drawn_ids: HashSet<NodeId> = box_ids(nodes);
    let ghost nv = node_views(nodes@);
    let mut want: Vec<NodeId> = Vec::new();
    let mut i: usize = 0;
    while i < nodes.len()
        invariant
            i <= nodes@.len(),
            rooted(design.doc),
            nv == node_views(nodes@),
            forall|id: u32| #[trigger] drawn_ids@.contains(id) <==> has_box(nv, id),
            want@ == wanted(design.doc, nv, i as nat),
        decreases nodes@.len() - i,
    {
        let id: NodeId = nodes[i].id;
        assert(nv[i as int] == nodes@[i as int]@);
        let mut cur: Option<NodeId> = containing_instance(design, id);
        let ghost mut fuel: nat = design.doc.nodes@.len();
        let ghost goal = wanted(design.doc, nv, (i + 1) as nat);
        proof {
            assert(climbs(design.doc, id, fuel));
            if cur is Some {
                assert(climbs(design.doc, cur->0, fuel));
            }
        }
        while cur.is_some()
            invariant
                rooted(design.doc),
                forall|id: u32| #[trigger] drawn_ids@.contains(id) <==> has_box(nv, id),
                cur is Some ==> climbs(design.doc, cur->0, fuel),
                goal == wanted_from(design.doc, nv, cur, fuel, want@),
            decreases fuel, (if cur is Some { 1int } else { 0int }),
        {
            if let Some(c) = cur {
                if !drawn_ids.contains(&c) && !lists(&want, c) {
                    want.push(c);
                }
                cur = containing_instance(design, c);
                proof {
                    if cur is Some {
                        lemma_container_climbs(design.doc, c, fuel);
                    }
                    if fuel > 0 {
                        fuel = (fuel - 1) as nat;
                    }
                }
            }
        }
        i += 1;
    }
    want
}

/// There are no more boxes than nodes.
pub proof fn lemma_box_count(nodes: Seq<NodeV>)
    ensures
        box_count(nodes) <= nodes.len(),
    decreases nodes.len(),
{
    if nodes.len() > 0 {
        lemma_box_count(nodes.drop_last());
    }
}

fn count_drawn(nodes: &Vec<SchNode>) -> (r: usize)
    ensures
        r == box_count(node_views(nodes@)),
{
    let ghost nv = node_views(nodes@);
    let mut count: usize = 0;
    let mut i: usize = 0;
    assert(nv.take(0) =~= Seq::empty());
    while i < nodes.len()
        invariant
            i <= nodes@.len(),
            nv == node_views(nodes@),
            count == box_count(nv.take(i as int)),
            count <= i,
        decreases nodes@.len() - i,
    {
        proof {
            assert(nv[i as int] == nodes@[i as int]@);
            assert(nv.take(i + 1).drop_last() =~= nv.take(i as int));
        }
        if !is_signal_kind(nodes[i].kind) {
            count += 1;
        }
        i += 1;
    }
    assert(nv.take(i as int) =~= nv);
    count
}

/// Draws containers while there are fewer than `most` boxes, and tells which were drawn and
/// whether one was left out or `cut` was.
fn draw_containers(
    design: &Design,
    want: &Vec<NodeId>,
    root: &str,
    most: usize,
    nodes: &mut Vec<SchNode>,
    pins: &mut PinAlloc,
    cut: bool,
) -> (r: (HashSet<NodeId>, bool))
    requires
        design.wf(),
        nested(design.doc),
        old(pins).wf(),
    ensures
        (ContainedV {
            nodes: node_views(final(nodes)@),
            containers: r.0@,
            pins: final(pins)@,
            cut: r.1,
        }) == contained(
            design.doc,
            want@,
            want@.len(),
            root@,
            most as nat,
            ContainedV {
                nodes: node_views(old(nodes)@),
                containers: Set::empty(),
                pins: old(pins)@,
                cut,
            },
        ),
{
    let mut containers: HashSet<NodeId> = HashSet::new();
    let ghost c0 = ContainedV {
        nodes: node_views(nodes@),
        containers: Set::empty(),
        pins: pins@,
        cut,
    };
    let mut cut: bool = cut;
    let mut count: usize = count_drawn(nodes);
    let mut i: usize = 0;
    assert(containers@ =~= Set::empty());
    while i < want.len()
        invariant
            i <= want@.len(),
            design.wf(),
            nested(design.doc),
            pins.wf(),
            count == box_count(node_views(nodes@)),
            (ContainedV {
                nodes: node_views(nodes@),
                containers: containers@,
                pins: pins@,
                cut,
            }) == contained(design.doc, want@, i as nat, root@, most as nat, c0),
        decreases want@.len() - i,
    {
        if count >= most {
            cut = true;
            i += 1;
            continue;
        }
        let c: NodeId = want[i];
        let path: &str = match crate::schematic::kinds::parent_of(design, c) {
            Some(p) => match design.node(p) {
                Some(n) => n.path.as_str(),
                None => root,
            },
            None => root,
        };
        if let Some(n) = cone_box_node(design, c, path, pins) {
            let ghost before = node_views(nodes@);
            if !is_signal_kind(n.kind) {
                proof {
                    lemma_box_count(before);
                }
                count += 1;
            }
            nodes.push(n);
            assert(node_views(nodes@).drop_last() =~= before);
            containers.insert(c);
        }
        i += 1;
    }
    (containers, cut)
}

fn set_parents(design: &Design, nodes: Vec<SchNode>) -> (r: Vec<SchNode>)
    requires
        rooted(design.doc),
    ensures
        node_views(r@) == with_parents(design.doc, node_views(nodes@)),
{
    let mut out: Vec<SchNode> = Vec::new();
    let ghost all = nodes@;
    for x in it: nodes
        invariant
            it.seq() == all,
            rooted(design.doc),
            node_views(out@) == with_parents(design.doc, node_views(all)).take(it.index() as int),
    {
        let mut n: SchNode = x;
        assert(node_views(all)[it.index() as int] == n@);
        n.parent = containing_instance(design, n.id);
        out.push(n);
        assert(node_views(out@) =~= with_parents(design.doc, node_views(all)).take(
            it.index() + 1,
        ));
    }
    assert(node_views(out@) =~= with_parents(design.doc, node_views(all)));
    out
}

/// The pins of the boxes that are no stand-ins.
fn pins_of_boxes(nodes: &Vec<SchNode>, stubs: &HashSet<NodeId>) -> (r: HashSet<NodeId>)
    ensures
        forall|id: u32| #[trigger]
            r@.contains(id) <==> boxed_pin(node_views(nodes@), stubs@, id),
{
    let mut out: HashSet<NodeId> = HashSet::new();
    let ghost nv = node_views(nodes@);
    let mut i: usize = 0;
    while i < nodes.len()
        invariant
            i <= nodes@.len(),
            nv == node_views(nodes@),
            forall|id: u32| #[trigger]
                out@.contains(id) <==> exists|k: int|
                    0 <= k < i && !stubs@.contains((#[trigger] nv[k]).id) && has_pin(
                        nv[k].ports,
                        id,
                    ),
        decreases nodes@.len() - i,
    {
        let ghost before = out@;
        assert(nv[i as int] == nodes@[i as int]@);
        if !stubs.contains(&nodes[i].id) {
            add_pins(&mut out, &nodes[i].ports);
        }
        proof {
            assert forall|id: u32| #[trigger]
                out@.contains(id) <==> exists|k: int|
                    0 <= k < i + 1 && !stubs@.contains((#[trigger] nv[k]).id) && has_pin(
                        nv[k].ports,
                        id,
                    ) by {
                assert(before.contains(id) <==> exists|k: int|
                    0 <= k < i && !stubs@.contains((#[trigger] nv[k]).id) && has_pin(
                        nv[k].ports,
                        id,
                    ));
                if out@.contains(id) && !before.contains(id) {
                    assert(!stubs@.contains(nv[i as int].id) && has_pin(nv[i as int].ports, id));
                }
            }
        }
        i += 1;
    }
    out
}

fn add_pins(set: &mut HashSet<NodeId>, ports: &Vec<SchPort>)
    ensures
        forall|id: u32| #[trigger]
            final(set)@.contains(id) <==> (old(set)@.contains(id) || has_pin(
                port_views(ports@),
                id,
            )),
{
    let ghost before = set@;
    let ghost pv = port_views(ports@);
    let mut i: usize = 0;
    while i < ports.len()
        invariant
            i <= ports@.len(),
            pv == port_views(ports@),
            forall|id: u32| #[trigger]
                set@.contains(id) <==> (before.contains(id) || exists|k: int|
                    0 <= k < i && (#[trigger] pv[k]).id == id),
        decreases ports@.len() - i,
    {
        let ghost mid = set@;
        set.insert(ports[i].id);
        proof {
            assert(pv[i as int] == ports@[i as int]@);
            assert forall|id: u32| #[trigger]
                set@.contains(id) <==> (before.contains(id) || exists|k: int|
                    0 <= k < i + 1 && (#[trigger] pv[k]).id == id) by {
                assert(mid.contains(id) <==> (before.contains(id) || exists|k: int|
                    0 <= k < i && (#[trigger] pv[k]).id == id));
                if set@.contains(id) && !mid.contains(id) {
                    assert(pv[i as int].id == id);
                }
            }
        }
        i += 1;
    }
}

fn any_pin_in(ports: &Vec<SchPort>, set: &HashSet<NodeId>) -> (r: bool)
    ensures
        r == exists|k: int|
            0 <= k < ports@.len() && set@.contains((#[trigger] port_views(ports@)[k]).id),
{
    let mut i: usize = 0;
    while i < ports.len()
        invariant
            i <= ports@.len(),
            forall|k: int|
                0 <= k < i ==> !set@.contains((#[trigger] port_views(ports@)[k]).id),
        decreases ports@.len() - i,
    {
        assert(port_views(ports@)[i as int] == ports@[i as int]@);
        if set.contains(&ports[i].id) {
            return true;
        }
        i += 1;
    }
    false
}

fn keep_apart(nodes: Vec<SchNode>, stubs: &HashSet<NodeId>) -> (r: Vec<SchNode>)
    ensures
        node_views(r@) == apart(node_views(nodes@), stubs@, nodes@.len()),
{
    let taken: HashSet<NodeId> = pins_of_boxes(&nodes, stubs);
    let mut out: Vec<SchNode> = Vec::new();
    let ghost all = nodes@;
    let ghost nv = node_views(nodes@);
    for x in it: nodes
        invariant
            it.seq() == all,
            nv == node_views(all),
            forall|id: u32| #[trigger] taken@.contains(id) <==> boxed_pin(nv, stubs@, id),
            node_views(out@) == apart(nv, stubs@, it.index() as nat),
    {
        assert(nv[it.index() as int] == x@);
        let keep: bool = !(stubs.contains(&x.id) && any_pin_in(&x.ports, &taken));
        assert(keep == stands_apart(nv, stubs@, x@));
        if keep {
            out.push(x);
        }
    }
    out
}

fn count_pins(more: &HashMap<NodeId, u32>, ports: Vec<SchPort>) -> (r: Vec<SchPort>)
    ensures
        port_views(r@) == Seq::new(
            port_views(ports@).len(),
            |j: int|
                PortV { dangling: false, ..counted_pin(more@, port_views(ports@)[j]) },
        ),
{
    let mut out: Vec<SchPort> = Vec::new();
    let ghost all = ports@;
    let ghost pv = port_views(ports@);
    for x in it: ports
        invariant
            it.seq() == all,
            pv == port_views(all),
            out@.len() == it.index(),
            forall|j: int|
                0 <= j < out@.len() ==> (#[trigger] port_views(out@)[j]) == (PortV {
                    dangling: false,
                    ..counted_pin(more@, pv[j])
                }),
    {
        let mut p: SchPort = x;
        assert(pv[it.index() as int] == p@);
        if let Some(c) = more.get(&p.id) {
            p.more = Some(*c);
        }
        p.dangling = false;
        let ghost before = port_views(out@);
        out.push(p);
        assert(port_views(out@) == before.push(p@));
    }
    assert(port_views(out@) =~= Seq::new(
        pv.len(),
        |j: int| PortV { dangling: false, ..counted_pin(more@, pv[j]) },
    ));
    out
}

fn count_boxes(more: &HashMap<NodeId, u32>, nodes: Vec<SchNode>) -> (r: Vec<SchNode>)
    ensures
        node_views(r@) == counted(more@, node_views(nodes@)),
{
    let mut out: Vec<SchNode> = Vec::new();
    let ghost all = nodes@;
    for x in it: nodes
        invariant
            it.seq() == all,
            node_views(out@) == counted(more@, node_views(all)).take(it.index() as int),
    {
        let mut n: SchNode = x;
        assert(node_views(all)[it.index() as int] == n@);
        n.ports = count_pins(more, n.ports);
        out.push(n);
        assert(node_views(out@) =~= counted(more@, node_views(all)).take(it.index() + 1));
    }
    assert(node_views(out@) =~= counted(more@, node_views(all)));
    out
}

fn box_has_wire(
    n: &SchNode,
    live: &HashSet<NodeId>,
    Ghost(edges): Ghost<Seq<EdgeV>>,
) -> (r: bool)
    requires
        forall|x: u32| #[trigger] live@.contains(x) <==> wired(edges, x),
    ensures
        r == has_wire(edges, n@),
{
    any_pin_in(&n.ports, live)
}

fn box_has_more(n: &SchNode) -> (r: bool)
    ensures
        r == has_more(n@),
{
    let mut i: usize = 0;
    while i < n.ports.len()
        invariant
            i <= n.ports@.len(),
            forall|k: int| 0 <= k < i ==> (#[trigger] n@.ports[k]).more is None,
        decreases n.ports@.len() - i,
    {
        assert(n@.ports[i as int] == n.ports@[i as int]@);
        if n.ports[i].more.is_some() {
            return true;
        }
        i += 1;
    }
    false
}

fn box_tells(
    n: &SchNode,
    seeds: &HashSet<NodeId>,
    live: &HashSet<NodeId>,
    Ghost(edges): Ghost<Seq<EdgeV>>,
) -> (r: bool)
    requires
        forall|x: u32| #[trigger] live@.contains(x) <==> wired(edges, x),
    ensures
        r == tells(seeds@, edges, n@),
{
    box_has_wire(n, live, Ghost(edges)) || box_has_more(n) || any_pin_in(&n.ports, seeds)
}

fn keep_showing(
    nodes: Vec<SchNode>,
    seeds: &HashSet<NodeId>,
    containers: &HashSet<NodeId>,
    live: &HashSet<NodeId>,
    Ghost(edges): Ghost<Seq<EdgeV>>,
) -> (r: Vec<SchNode>)
    requires
        forall|x: u32| #[trigger] live@.contains(x) <==> wired(edges, x),
    ensures
        node_views(r@) == showing(
            seeds@,
            containers@,
            edges,
            node_views(nodes@),
            nodes@.len(),
        ),
{
    let mut out: Vec<SchNode> = Vec::new();
    let ghost all = nodes@;
    let ghost nv = node_views(nodes@);
    for x in it: nodes
        invariant
            it.seq() == all,
            nv == node_views(all),
            forall|x: u32| #[trigger] live@.contains(x) <==> wired(edges, x),
            node_views(out@) == showing(seeds@, containers@, edges, nv, it.index() as nat),
    {
        assert(nv[it.index() as int] == x@);
        if seeds.contains(&x.id) || containers.contains(&x.id) || box_tells(
            &x,
            seeds,
            live,
            Ghost(edges),
        ) {
            out.push(x);
        }
    }
    out
}

fn named_parents(nodes: &Vec<SchNode>) -> (r: HashSet<NodeId>)
    ensures
        forall|id: u32| #[trigger] r@.contains(id) <==> holds(node_views(nodes@), id),
{
    let mut out: HashSet<NodeId> = HashSet::new();
    let ghost nv = node_views(nodes@);
    let mut i: usize = 0;
    while i < nodes.len()
        invariant
            i <= nodes@.len(),
            nv == node_views(nodes@),
            forall|id: u32| #[trigger]
                out@.contains(id) <==> exists|k: int|
                    0 <= k < i && (#[trigger] nv[k]).parent == Some(id),
        decreases nodes@.len() - i,
    {
        let ghost before = out@;
        assert(nv[i as int] == nodes@[i as int]@);
        if let Some(p) = nodes[i].parent {
            out.insert(p);
        }
        proof {
            assert forall|id: u32| #[trigger]
                out@.contains(id) <==> exists|k: int|
                    0 <= k < i + 1 && (#[trigger] nv[k]).parent == Some(id) by {
                assert(before.contains(id) <==> exists|k: int|
                    0 <= k < i && (#[trigger] nv[k]).parent == Some(id));
                if out@.contains(id) && !before.contains(id) {
                    assert(nv[i as int].parent == Some(id));
                }
            }
        }
        i += 1;
    }
    out
}

fn keep_filled(
    nodes: Vec<SchNode>,
    seeds: &HashSet<NodeId>,
    containers: &HashSet<NodeId>,
    live: &HashSet<NodeId>,
    Ghost(edges): Ghost<Seq<EdgeV>>,
) -> (r: Vec<SchNode>)
    requires
        forall|x: u32| #[trigger] live@.contains(x) <==> wired(edges, x),
    ensures
        node_views(r@) == filled(
            seeds@,
            containers@,
            edges,
            node_views(nodes@),
            nodes@.len(),
        ),
{
    let named: HashSet<NodeId> = named_parents(&nodes);
    let mut out: Vec<SchNode> = Vec::new();
    let ghost all = nodes@;
    let ghost nv = node_views(nodes@);
    for x in it: nodes
        invariant
            it.seq() == all,
            nv == node_views(all),
            forall|x: u32| #[trigger] live@.contains(x) <==> wired(edges, x),
            forall|id: u32| #[trigger] named@.contains(id) <==> holds(nv, id),
            node_views(out@) == filled(seeds@, containers@, edges, nv, it.index() as nat),
    {
        assert(nv[it.index() as int] == x@);
        if !containers.contains(&x.id) || named.contains(&x.id) || box_tells(
            &x,
            seeds,
            live,
            Ghost(edges),
        ) {
            out.push(x);
        }
    }
    out
}

fn unhook(nodes: Vec<SchNode>) -> (r: Vec<SchNode>)
    ensures
        node_views(r@) == unhooked(node_views(nodes@)),
{
    let ids: HashSet<NodeId> = box_ids(&nodes);
    let mut out: Vec<SchNode> = Vec::new();
    let ghost all = nodes@;
    let ghost nv = node_views(nodes@);
    for x in it: nodes
        invariant
            it.seq() == all,
            nv == node_views(all),
            forall|id: u32| #[trigger] ids@.contains(id) <==> has_box(nv, id),
            node_views(out@) == unhooked(nv).take(it.index() as int),
    {
        let mut n: SchNode = x;
        assert(nv[it.index() as int] == n@);
        if let Some(p) = n.parent {
            if !ids.contains(&p) {
                n.parent = None;
            }
        }
        out.push(n);
        assert(node_views(out@) =~= unhooked(nv).take(it.index() + 1));
    }
    assert(node_views(out@) =~= unhooked(nv));
    out
}

fn prune(
    nodes: Vec<SchNode>,
    seeds: &HashSet<NodeId>,
    containers: &HashSet<NodeId>,
    live: &HashSet<NodeId>,
    Ghost(edges): Ghost<Seq<EdgeV>>,
) -> (r: Vec<SchNode>)
    requires
        forall|x: u32| #[trigger] live@.contains(x) <==> wired(edges, x),
    ensures
        node_views(r@) == pruned(seeds@, containers@, edges, node_views(nodes@)),
    decreases nodes@.len(),
{
    let before: usize = nodes.len();
    let kept: Vec<SchNode> = unhook(
        keep_filled(nodes, seeds, containers, live, Ghost(edges)),
    );
    assert(node_views(kept@).len() == kept@.len());
    if kept.len() >= before {
        kept
    } else {
        prune(kept, seeds, containers, live, Ghost(edges))
    }
}

fn finish(
    design: &Design,
    w: Walk,
    root: String,
    most: usize,
    Ghost(projection): Ghost<Projection>,
) -> (r: SchematicGraph)
    requires
        design.wf(),
        hierarchical(design.doc),
        w.wf(design.doc, projection),
    ensures
        r@ == finished(design.doc, w@, root@, most as nat),
{
    let mut nodes: Vec<SchNode> = w.nodes;
    let mut pins: PinAlloc = w.pins;
    let want: Vec<NodeId> = containers_wanted(design, &nodes);
    let (containers, cut) = draw_containers(
        design,
        &want,
        root.as_str(),
        most,
        &mut nodes,
        &mut pins,
        w.truncated,
    );
    let nodes: Vec<SchNode> = set_parents(design, nodes);
    let nodes: Vec<SchNode> = keep_apart(nodes, &w.stubs);
    let nodes: Vec<SchNode> = count_boxes(&w.more, nodes);
    let live: HashSet<NodeId> = wired_ids(&w.wires.edges);
    let ghost edges = edge_views(w.wires.edges@);
    let nodes: Vec<SchNode> = keep_showing(nodes, &w.seeds, &containers, &live, Ghost(edges));
    let nodes: Vec<SchNode> = prune(nodes, &w.seeds, &containers, &live, Ghost(edges));
    SchematicGraph { root, nodes, edges: w.wires.edges, truncated: cut }
}

/// The accumulated cone of an ordered list of requests. Requests share what is drawn,
/// so that a box or signal that two of them reach appears once.
pub fn trace_graph(
    design: &Design,
    steps: &[TraceStep],
    limits: ConeLimits,
    projection: Projection,
) -> (r: SchematicGraph)
    requires
        design.wf(),
        hierarchical(design.doc),
    ensures
        r@ == traced(design.doc, steps@, limits, projection),
{
    let root: String = if steps.len() > 0 {
        cone_root(design, steps[0].seed)
    } else {
        String::new()
    };
    let mut w: Walk = Walk {
        pins: PinAlloc::new(),
        nodes: Vec::new(),
        emitted: HashSet::new(),
        stubs: HashSet::new(),
        emitted_pins: HashSet::new(),
        wires: Wires::new(
            #[verifier::truncate]
            (design.doc.edges.len() as u32),
        ),
        truncated: false,
        more: HashMap::new(),
        visited: HashSet::new(),
        next: Vec::new(),
        seeds: HashSet::new(),
        box_seeds: HashMap::new(),
        scopes: ScopeCache::new(projection),
    };
    let mut i: usize = 0;
    while i < steps.len()
        invariant
            i <= steps@.len(),
            design.wf(),
            hierarchical(design.doc),
            w.wf(design.doc, projection),
            w@ == steps_walk(design.doc, steps@, limits, projection, root@, i as nat),
        decreases steps@.len() - i,
    {
        walk_step(design, &steps[i], limits, projection, root.as_str(), &mut w);
        i += 1;
    }
    finish(design, w, root, limits.boxes, Ghost(projection))
}

/// The cone of one seed.
pub fn cone_with(
    design: &Design,
    seed: NodeId,
    dir: Dir,
    limits: ConeLimits,
    projection: Projection,
) -> (r: SchematicGraph)
    requires
        design.wf(),
        hierarchical(design.doc),
    ensures
        r@ == traced(
            design.doc,
            seq![TraceStep { seed, dir, depth: limits.depth, fanout: None }],
            limits,
            projection,
        ),
{
    let mut steps: Vec<TraceStep> = Vec::new();
    steps.push(TraceStep { seed, dir, depth: limits.depth, fanout: None });
    assert(steps@ =~= seq![TraceStep { seed, dir, depth: limits.depth, fanout: None }]);
    trace_graph(design, steps.as_slice(), limits, projection)
}

} // verus!
