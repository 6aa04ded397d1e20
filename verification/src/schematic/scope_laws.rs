//! What holds of every scope's schematic, and of every instance-level cone.

use crate::model::{children_at, edge_at, incident, node_at, Dir, Document, Node, NodeKind};
use crate::order::{ascending, lemma_ascending};
use crate::groups::{keys_in, under};
use crate::schematic::anchors::{anchors_of, AnchorsV};
use crate::schematic::boxes::members_of;
use crate::schematic::cone::{cone_boxes, cone_edges, cone_hop, cone_hops, cone_view, ConeV};
use crate::schematic::hierarchy::instance_from;
use crate::schematic::interface::{
    frame_fold, interior, kids_of, member_fold, own_fold, view_fold, ViewsV,
};
use crate::schematic::kinds::{boxes_in, boxes_of, gate_at, gate_kind, gates_in, gates_of, has_kind};
use crate::schematic::pins::pair_of;
use crate::schematic::scope::{
    box_fold, box_index, box_ties, child_ties, frame_pins, marked, memory_ends, scope_at,
    scope_edges, scope_ends, scope_view, structural, wired_scope, EndsV,
};
use crate::schematic::types::{NodeV, Projection};
use crate::schematic::wires::{joined_all, joined_keys, joined_signals, joined_to, Anchor, WiresV};
use vstd::prelude::*;

verus! {

// --- Boxes --------------------------------------------------------------------

/// Whether no box names a container.
pub open spec fn flat(nodes: Seq<NodeV>) -> bool {
    forall|k: int| 0 <= k < nodes.len() ==> (#[trigger] nodes[k]).parent is None
}

/// Whether no box is a primitive.
pub open spec fn ungated(nodes: Seq<NodeV>) -> bool {
    forall|k: int| 0 <= k < nodes.len() ==> !gate_kind((#[trigger] nodes[k]).kind)
}

/// Whether none of several nodes is a primitive.
spec fn no_gates(d: Document, ids: Seq<u32>) -> bool {
    forall|k: int| 0 <= k < ids.len() ==> !gate_at(d, #[trigger] ids[k])
}

proof fn lemma_box_fold(d: Document, boxes: Seq<u32>, scope: Seq<char>, n: nat)
    requires
        n <= boxes.len(),
    ensures
        flat(box_fold(d, boxes, scope, n).0),
        no_gates(d, boxes) ==> ungated(box_fold(d, boxes, scope, n).0),
    decreases n,
{
    if n > 0 {
        lemma_box_fold(d, boxes, scope, (n - 1) as nat);
        if no_gates(d, boxes) {
            assert(!gate_at(d, boxes[n - 1]));
        }
    }
}

proof fn lemma_frame_pins(d: Document, ports: Seq<u32>, n: nat, nodes: Seq<NodeV>)
    ensures
        flat(nodes) ==> flat(frame_pins(d, ports, n, nodes)),
        ungated(nodes) ==> ungated(frame_pins(d, ports, n, nodes)),
    decreases n,
{
    if n > 0 {
        lemma_frame_pins(d, ports, (n - 1) as nat, nodes);
    }
}

proof fn lemma_box_index(nodes: Seq<NodeV>, id: u32, from: int)
    requires
        0 <= from,
    ensures
        box_index(nodes, id, from) is Some ==> 0 <= box_index(nodes, id, from)->0 < nodes.len(),
    decreases nodes.len() - from,
{
    if from < nodes.len() {
        lemma_box_index(nodes, id, from + 1);
    }
}

proof fn lemma_memory_ends(d: Document, boxes: Seq<u32>, n: nat, nodes: Seq<NodeV>, s: EndsV)
    ensures
        flat(nodes) ==> flat(memory_ends(d, boxes, n, nodes, s).0),
        ungated(nodes) ==> ungated(memory_ends(d, boxes, n, nodes, s).0),
    decreases n,
{
    if n > 0 {
        lemma_memory_ends(d, boxes, (n - 1) as nat, nodes, s);
        lemma_box_index(memory_ends(d, boxes, (n - 1) as nat, nodes, s).0, boxes[n - 1], 0);
    }
}

proof fn lemma_child_ties(d: Document, cs: Seq<u32>, n: nat, nodes: Seq<NodeV>, w: WiresV)
    ensures
        flat(nodes) ==> flat(child_ties(d, cs, n, nodes, w).0),
        ungated(nodes) ==> ungated(child_ties(d, cs, n, nodes, w).0),
    decreases n,
{
    if n > 0 {
        lemma_child_ties(d, cs, (n - 1) as nat, nodes, w);
    }
}

proof fn lemma_box_ties(d: Document, boxes: Seq<u32>, n: nat, nodes: Seq<NodeV>, w: WiresV)
    ensures
        flat(nodes) ==> flat(box_ties(d, boxes, n, nodes, w).0),
        ungated(nodes) ==> ungated(box_ties(d, boxes, n, nodes, w).0),
    decreases n,
{
    if n > 0 {
        lemma_box_ties(d, boxes, (n - 1) as nat, nodes, w);
        let (ns, v) = box_ties(d, boxes, (n - 1) as nat, nodes, w);
        let cs = children_at(d, boxes[n - 1]);
        lemma_child_ties(d, cs, cs.len(), ns, v);
    }
}

proof fn lemma_wired_scope(d: Document, scope: u32, path: Seq<char>, projection: Projection)
    ensures
        flat(wired_scope(d, scope, path, projection).nodes),
        no_gates(d, boxes_of(d, scope, projection)) ==> ungated(
            wired_scope(d, scope, path, projection).nodes,
        ),
{
    let a = anchors_of(d, scope, projection);
    let (boxes, pins) = box_fold(d, a.boxes, path, a.boxes.len());
    lemma_box_fold(d, a.boxes, path, a.boxes.len());
    let nodes = frame_pins(d, a.own_ports, a.own_ports.len(), boxes);
    lemma_frame_pins(d, a.own_ports, a.own_ports.len(), boxes);
    let (n2, ends) = scope_ends(d, a, pins, nodes);
    assert forall|s: EndsV| flat(nodes) implies flat(
        #[trigger] memory_ends(d, a.boxes, a.boxes.len(), nodes, s).0,
    ) by {
        lemma_memory_ends(d, a.boxes, a.boxes.len(), nodes, s);
    }
    assert forall|s: EndsV| ungated(nodes) implies ungated(
        #[trigger] memory_ends(d, a.boxes, a.boxes.len(), nodes, s).0,
    ) by {
        lemma_memory_ends(d, a.boxes, a.boxes.len(), nodes, s);
    }
    let w = connections(d, scope, path, projection);
    let (n3, v) = box_ties(d, a.boxes, a.boxes.len(), n2, w);
    lemma_box_ties(d, a.boxes, a.boxes.len(), n2, w);
    let m = marked(d, v.edges, n3);
    assert(flat(m)) by {
        assert forall|k: int| 0 <= k < m.len() implies (#[trigger] m[k]).parent is None by {
            assert(n3[k].parent is None);
        }
    }
    if no_gates(d, a.boxes) {
        assert forall|k: int| 0 <= k < m.len() implies !gate_kind((#[trigger] m[k]).kind) by {
            assert(!gate_kind(n3[k].kind));
        }
    }
}

proof fn lemma_member_fold(d: Document, mp: u32, n: nat, s: ViewsV, mn: Node)
    ensures
        member_fold(d, mp, members_of(mn), n, s).1.nodes == s.nodes,
    decreases n,
{
    if n > 0 {
        lemma_member_fold(d, mp, (n - 1) as nat, s, mn);
    }
}

proof fn lemma_view_fold(d: Document, views: Seq<u32>, scope: Seq<char>, n: nat, s: ViewsV)
    requires
        flat(s.nodes),
        ungated(s.nodes),
    ensures
        flat(view_fold(d, views, scope, n, s).nodes),
        ungated(view_fold(d, views, scope, n, s).nodes),
    decreases n,
{
    if n > 0 {
        lemma_view_fold(d, views, scope, (n - 1) as nat, s);
        let t = view_fold(d, views, scope, (n - 1) as nat, s);
        match node_at(d, views[n - 1]) {
            Some(mn) => {
                lemma_member_fold(d, views[n - 1], members_of(mn).len(), t, mn);
            },
            None => {},
        }
    }
}

proof fn lemma_own_fold(d: Document, ports: Seq<u32>, n: nat, s: ViewsV)
    requires
        flat(s.nodes),
        ungated(s.nodes),
    ensures
        flat(own_fold(d, ports, n, s).nodes),
        ungated(own_fold(d, ports, n, s).nodes),
    decreases n,
{
    if n > 0 {
        lemma_own_fold(d, ports, (n - 1) as nat, s);
    }
}

proof fn lemma_frame_fold(
    d: Document,
    views: Seq<u32>,
    ports: Seq<u32>,
    scope: Seq<char>,
    view_pins: Seq<(u32, (u32, u32))>,
    n: nat,
    nodes: Seq<NodeV>,
    w: WiresV,
)
    requires
        flat(nodes),
        ungated(nodes),
    ensures
        flat(frame_fold(d, views, ports, scope, view_pins, n, nodes, w).0),
        ungated(frame_fold(d, views, ports, scope, view_pins, n, nodes, w).0),
    decreases n,
{
    if n > 0 {
        lemma_frame_fold(d, views, ports, scope, view_pins, (n - 1) as nat, nodes, w);
    }
}

proof fn lemma_interior(d: Document, iface: u32, scope: Seq<char>)
    ensures
        flat(interior(d, iface, scope).nodes),
        ungated(interior(d, iface, scope).nodes),
{
    let views = kids_of(d, iface, NodeKind::Modport);
    let ports = kids_of(d, iface, NodeKind::Port);
    let s0 = ViewsV {
        nodes: Seq::empty(),
        pins: Seq::empty(),
        view_pins: Seq::empty(),
        drivers: Seq::empty(),
        loads: Seq::empty(),
    };
    lemma_view_fold(d, views, scope, views.len(), s0);
    let t = view_fold(d, views, scope, views.len(), s0);
    lemma_own_fold(d, ports, ports.len(), t);
    let s = own_fold(d, ports, ports.len(), t);
    let w = joined_signals(
        d,
        scope,
        s.drivers,
        s.loads,
        WiresV { edges: Seq::empty(), seen: Set::empty(), next: 0 },
    );
    lemma_frame_fold(d, views, ports, scope, s.view_pins, views.len(), s.nodes, w);
}

/// The schematic of a scope is one scope: no box of it is nested in another, and nothing
/// of it is cut off.
pub proof fn law_scope_views_are_flat_and_whole(d: Document, path: Seq<char>, projection: Projection)
    ensures
        match scope_view(d, path, projection) {
            Some(g) => flat(g.nodes) && !g.truncated && g.root == path,
            None => true,
        },
{
    match scope_at(d, path) {
        Some(scope) => {
            lemma_interior(d, scope, path);
            lemma_wired_scope(d, scope, path, projection);
        },
        None => {},
    }
}

// --- Projections --------------------------------------------------------------

proof fn lemma_process_boxes(d: Document, cs: Seq<u32>, n: nat, fuel: nat)
    ensures
        no_gates(d, boxes_in(d, cs, n, Projection::ProcessLevel, fuel)),
    decreases fuel, n,
{
    if n > 0 {
        lemma_process_boxes(d, cs, (n - 1) as nat, fuel);
        let c = cs[n - 1];
        if has_kind(d, c, NodeKind::GenBlock) && fuel > 0 {
            lemma_process_boxes(d, children_at(d, c), children_at(d, c).len(), (fuel - 1) as nat);
        }
    }
}

/// No box of a scope at the process level is a primitive.
pub(crate) proof fn lemma_process_boxes_of(d: Document, scope: u32, id: u32)
    requires
        boxes_of(d, scope, Projection::ProcessLevel).contains(id),
    ensures
        !gate_at(d, id),
{
    let cs = children_at(d, scope);
    lemma_process_boxes(d, cs, cs.len(), d.nodes@.len());
    let all = boxes_of(d, scope, Projection::ProcessLevel);
    let k = choose|k: int| 0 <= k < all.len() && all[k] == id;
    assert(!gate_at(d, all[k]));
}

/// At the process level no primitive is drawn as a box.
pub proof fn law_process_level_draws_no_primitives(d: Document, path: Seq<char>)
    ensures
        match scope_view(d, path, Projection::ProcessLevel) {
            Some(g) => ungated(g.nodes),
            None => true,
        },
{
    match scope_at(d, path) {
        Some(scope) => {
            lemma_interior(d, scope, path);
            lemma_process_boxes(
                d,
                children_at(d, scope),
                children_at(d, scope).len(),
                d.nodes@.len(),
            );
            lemma_wired_scope(d, scope, path, Projection::ProcessLevel);
        },
        None => {},
    }
}

/// Whether a box is a block that dissolves into primitives.
pub open spec fn dissolves(d: Document, id: u32) -> bool {
    (has_kind(d, id, NodeKind::Comb) || has_kind(d, id, NodeKind::Latch) || has_kind(
        d,
        id,
        NodeKind::Assign,
    )) && gates_of(d, id).len() > 0
}

proof fn lemma_gates_are_gates(d: Document, cs: Seq<u32>, n: nat)
    ensures
        forall|k: int|
            0 <= k < gates_in(d, cs, n).len() ==> gate_at(d, #[trigger] gates_in(d, cs, n)[k]),
    decreases n,
{
    if n > 0 {
        lemma_gates_are_gates(d, cs, (n - 1) as nat);
        let r = gates_in(d, cs, (n - 1) as nat);
        assert forall|k: int| 0 <= k < gates_in(d, cs, n).len() implies gate_at(
            d,
            #[trigger] gates_in(d, cs, n)[k],
        ) by {
            if k < r.len() {
                assert(gate_at(d, r[k]));
            }
        }
    }
}

proof fn lemma_gate_boxes(d: Document, cs: Seq<u32>, n: nat, fuel: nat)
    ensures
        forall|k: int|
            0 <= k < boxes_in(d, cs, n, Projection::GateLevel, fuel).len() ==> !dissolves(
                d,
                #[trigger] boxes_in(d, cs, n, Projection::GateLevel, fuel)[k],
            ),
    decreases fuel, n,
{
    if n > 0 {
        lemma_gate_boxes(d, cs, (n - 1) as nat, fuel);
        let r = boxes_in(d, cs, (n - 1) as nat, Projection::GateLevel, fuel);
        let c = cs[n - 1];
        lemma_gates_are_gates(d, children_at(d, c), children_at(d, c).len());
        if has_kind(d, c, NodeKind::GenBlock) && fuel > 0 {
            lemma_gate_boxes(d, children_at(d, c), children_at(d, c).len(), (fuel - 1) as nat);
        }
        let b = boxes_in(d, cs, n, Projection::GateLevel, fuel);
        assert forall|k: int| 0 <= k < b.len() implies !dissolves(d, #[trigger] b[k]) by {
            if k < r.len() {
                assert(b[k] == r[k]);
            } else if has_kind(d, c, NodeKind::GenBlock) {
                let inner = boxes_in(
                    d,
                    children_at(d, c),
                    children_at(d, c).len(),
                    Projection::GateLevel,
                    (fuel - 1) as nat,
                );
                assert(b[k] == inner[k - r.len()]);
            } else if dissolves(d, c) {
                assert(b[k] == gates_of(d, c)[k - r.len()]);
                assert(gate_at(d, b[k]));
            }
        }
    }
}

/// Where primitives are drawn, no block that dissolves into them is left among the boxes of
/// a scope.
pub proof fn law_gate_level_dissolves_blocks(d: Document, scope: u32)
    ensures
        forall|k: int|
            0 <= k < boxes_of(d, scope, Projection::GateLevel).len() ==> !dissolves(
                d,
                #[trigger] boxes_of(d, scope, Projection::GateLevel)[k],
            ),
{
    lemma_gate_boxes(d, children_at(d, scope), children_at(d, scope).len(), d.nodes@.len());
}

proof fn lemma_no_gates_in(d: Document, cs: Seq<u32>, n: nat)
    requires
        forall|id: u32| !#[trigger] gate_at(d, id),
    ensures
        gates_in(d, cs, n).len() == 0,
    decreases n,
{
    if n > 0 {
        lemma_no_gates_in(d, cs, (n - 1) as nat);
    }
}

proof fn lemma_same_boxes(d: Document, cs: Seq<u32>, n: nat, fuel: nat)
    requires
        forall|id: u32| !#[trigger] gate_at(d, id),
    ensures
        boxes_in(d, cs, n, Projection::GateLevel, fuel) == boxes_in(
            d,
            cs,
            n,
            Projection::ProcessLevel,
            fuel,
        ),
    decreases fuel, n,
{
    if n > 0 {
        lemma_same_boxes(d, cs, (n - 1) as nat, fuel);
        let c = cs[n - 1];
        lemma_no_gates_in(d, children_at(d, c), children_at(d, c).len());
        if fuel > 0 {
            lemma_same_boxes(d, children_at(d, c), children_at(d, c).len(), (fuel - 1) as nat);
        }
    }
}

/// A design without primitives is drawn the same at both levels.
pub proof fn law_projections_agree_without_primitives(d: Document, path: Seq<char>)
    requires
        forall|id: u32| !#[trigger] gate_at(d, id),
    ensures
        scope_view(d, path, Projection::GateLevel) == scope_view(
            d,
            path,
            Projection::ProcessLevel,
        ),
{
    match scope_at(d, path) {
        Some(scope) => {
            lemma_same_boxes(
                d,
                children_at(d, scope),
                children_at(d, scope).len(),
                d.nodes@.len(),
            );
        },
        None => {},
    }
}

// --- Wires --------------------------------------------------------------------

/// The wires of a scope's connections: those between its boxes, then those of its signals.
/// The wires of tied constants follow them.
pub open spec fn connections(d: Document, scope: u32, path: Seq<char>, projection: Projection)
    -> WiresV {
    let a = anchors_of(d, scope, projection);
    let at = scope_edges(d, a);
    let (boxes, pins) = box_fold(d, a.boxes, path, a.boxes.len());
    let nodes = frame_pins(d, a.own_ports, a.own_ports.len(), boxes);
    let w = structural(
        d,
        a,
        path,
        at,
        at.len(),
        WiresV { edges: Seq::empty(), seen: Set::empty(), next: d.edges@.len() as u32 },
    );
    let ends = scope_ends(d, a, pins, nodes).1;
    joined_signals(d, path, ends.drivers, ends.loads, w)
}

/// Whether no two wires join the same two pins, and all pairs are noted.
pub open spec fn pairs_differ(w: WiresV) -> bool {
    &&& forall|i: int|
        0 <= i < w.edges.len() ==> w.seen.contains(
            pair_of((#[trigger] w.edges[i]).source, w.edges[i].target),
        )
    &&& forall|i: int, j: int|
        0 <= i < j < w.edges.len() ==> pair_of(
            (#[trigger] w.edges[i]).source,
            w.edges[i].target,
        ) != pair_of((#[trigger] w.edges[j]).source, w.edges[j].target)
}

proof fn lemma_structural(
    d: Document,
    a: AnchorsV,
    scope: Seq<char>,
    at: Seq<u32>,
    n: nat,
    w: WiresV,
)
    requires
        pairs_differ(w),
    ensures
        pairs_differ(structural(d, a, scope, at, n, w)),
    decreases n,
{
    if n > 0 {
        lemma_structural(d, a, scope, at, (n - 1) as nat, w);
    }
}

proof fn lemma_joined_to(
    sig: Option<Node>,
    scope: Seq<char>,
    dr: Anchor,
    loads: Seq<Anchor>,
    n: nat,
    w: WiresV,
)
    requires
        pairs_differ(w),
    ensures
        pairs_differ(joined_to(sig, scope, dr, loads, n, w)),
    decreases n,
{
    if n > 0 {
        lemma_joined_to(sig, scope, dr, loads, (n - 1) as nat, w);
    }
}

proof fn lemma_joined_all(
    sig: Option<Node>,
    scope: Seq<char>,
    drivers: Seq<Anchor>,
    loads: Seq<Anchor>,
    n: nat,
    w: WiresV,
)
    requires
        pairs_differ(w),
    ensures
        pairs_differ(joined_all(sig, scope, drivers, loads, n, w)),
    decreases n,
{
    if n > 0 {
        lemma_joined_all(sig, scope, drivers, loads, (n - 1) as nat, w);
        lemma_joined_to(
            sig,
            scope,
            drivers[n - 1],
            loads,
            loads.len(),
            joined_all(sig, scope, drivers, loads, (n - 1) as nat, w),
        );
    }
}

proof fn lemma_joined_keys(
    d: Document,
    scope: Seq<char>,
    drivers: Seq<(u32, Anchor)>,
    loads: Seq<(u32, Anchor)>,
    keys: Seq<u32>,
    n: nat,
    w: WiresV,
)
    requires
        pairs_differ(w),
    ensures
        pairs_differ(joined_keys(d, scope, drivers, loads, keys, n, w)),
    decreases n,
{
    if n > 0 {
        lemma_joined_keys(d, scope, drivers, loads, keys, (n - 1) as nat, w);
        let k = keys[n - 1];
        lemma_joined_all(
            node_at(d, k),
            scope,
            under(drivers, k),
            under(loads, k),
            under(drivers, k).len(),
            joined_keys(d, scope, drivers, loads, keys, (n - 1) as nat, w),
        );
    }
}

/// The connections of a scope join different pairs of pins.
pub(crate) proof fn lemma_connections(
    d: Document,
    scope: u32,
    path: Seq<char>,
    projection: Projection,
)
    ensures
        pairs_differ(connections(d, scope, path, projection)),
{
    let a = anchors_of(d, scope, projection);
    let at = scope_edges(d, a);
    let (boxes, pins) = box_fold(d, a.boxes, path, a.boxes.len());
    let nodes = frame_pins(d, a.own_ports, a.own_ports.len(), boxes);
    let w0 = WiresV { edges: Seq::empty(), seen: Set::empty(), next: d.edges@.len() as u32 };
    let w = structural(d, a, path, at, at.len(), w0);
    lemma_structural(d, a, path, at, at.len(), w0);
    let ends = scope_ends(d, a, pins, nodes).1;
    let keys = ascending(keys_in(ends.drivers));
    lemma_joined_keys(d, path, ends.drivers, ends.loads, keys, keys.len(), w);
}

// --- Cones --------------------------------------------------------------------

spec fn all_instances(d: Document, ids: Set<u32>) -> bool {
    forall|x: u32| #[trigger] ids.contains(x) ==> has_kind(d, x, NodeKind::Instance)
}

/// What is found as an instance is one.
pub(crate) proof fn lemma_instance_found(d: Document, id: u32, n: nat)
    ensures
        instance_from(d, id, n) is Some ==> has_kind(
            d,
            instance_from(d, id, n)->0,
            NodeKind::Instance,
        ),
    decreases n,
{
    if !has_kind(d, id, NodeKind::Instance) {
        match crate::model::parent_at(d, id) {
            Some(p) => {
                if n > 0 {
                    lemma_instance_found(d, p, (n - 1) as nat);
                }
            },
            None => {},
        }
    }
}

proof fn lemma_cone_edges(d: Document, dir: Dir, node: u32, n: nat, c: ConeV)
    requires
        all_instances(d, c.boxes),
    ensures
        all_instances(d, cone_edges(d, dir, node, n, c).boxes),
    decreases n,
{
    if n > 0 {
        lemma_cone_edges(d, dir, node, (n - 1) as nat, c);
        let e = edge_at(d, incident(d, node)[n - 1]);
        lemma_instance_found(d, crate::schematic::reach::far_end(e, node), d.nodes@.len());
    }
}

proof fn lemma_cone_hop(d: Document, dir: Dir, frontier: Seq<u32>, n: nat, c: ConeV)
    requires
        all_instances(d, c.boxes),
    ensures
        all_instances(d, cone_hop(d, dir, frontier, n, c).boxes),
    decreases n,
{
    if n > 0 {
        lemma_cone_hop(d, dir, frontier, (n - 1) as nat, c);
        lemma_cone_edges(
            d,
            dir,
            frontier[n - 1],
            incident(d, frontier[n - 1]).len(),
            cone_hop(d, dir, frontier, (n - 1) as nat, c),
        );
    }
}

proof fn lemma_cone_hops(d: Document, dir: Dir, frontier: Seq<u32>, k: nat, c: ConeV)
    requires
        all_instances(d, c.boxes),
    ensures
        all_instances(d, cone_hops(d, dir, frontier, k, c).boxes),
    decreases k,
{
    if k > 0 {
        lemma_cone_hop(d, dir, frontier, frontier.len(), c);
        let t = cone_hop(d, dir, frontier, frontier.len(), c);
        lemma_cone_hops(d, dir, t.next, (k - 1) as nat, t);
    }
}

/// Whether all boxes are instances.
pub open spec fn only_instances(nodes: Seq<NodeV>) -> bool {
    forall|k: int| 0 <= k < nodes.len() ==> (#[trigger] nodes[k]).kind == NodeKind::Instance
}

proof fn lemma_cone_boxes(d: Document, ids: Seq<u32>, n: nat)
    requires
        n <= ids.len(),
        forall|k: int| 0 <= k < ids.len() ==> has_kind(d, #[trigger] ids[k], NodeKind::Instance),
    ensures
        only_instances(cone_boxes(d, ids, n)),
    decreases n,
{
    if n > 0 {
        lemma_cone_boxes(d, ids, (n - 1) as nat);
        assert(has_kind(d, ids[n - 1], NodeKind::Instance));
    }
}

/// An instance-level cone has instances for boxes, and is never cut off.
pub proof fn law_cones_are_of_instances(d: Document, start: u32, dir: Dir, depth: nat)
    ensures
        only_instances(cone_view(d, start, dir, depth).nodes),
        !cone_view(d, start, dir, depth).truncated,
{
    let c0 = ConeV {
        boxes: Set::empty(),
        edges: Seq::empty(),
        seen: Set::empty(),
        next: Seq::empty(),
    };
    let k = if depth > 0 {
        depth
    } else {
        1
    };
    lemma_cone_hops(d, dir, seq![start], k, c0);
    let c = cone_hops(d, dir, seq![start], k, c0);
    lemma_ascending(c.boxes);
    let ids = ascending(c.boxes);
    assert forall|i: int| 0 <= i < ids.len() implies has_kind(
        d,
        #[trigger] ids[i],
        NodeKind::Instance,
    ) by {
        assert(ids.contains(ids[i]));
        assert(c.boxes.contains(ids[i]));
    }
    lemma_cone_boxes(d, ids, ids.len());
}

} // verus!
