//! The instance-level cone: the instances that a node is directly connected to.

use crate::model::{edge_at, incident, node_at, Design, Dir, Document, Edge, NodeId};
use crate::order::{ascending, members};
use crate::schematic::boxes::{instance_box, make_box};
use crate::schematic::hierarchy::{
    hierarchical, instance_from, nearest_instance, path_of, path_or_empty, rooted,
};
use crate::schematic::kinds::{append_ids, nested};
use crate::schematic::labels::{selected, with_select};
use crate::schematic::reach::far_end;
use crate::schematic::types::{
    edge_views, group_views, node_views, EdgeV, GraphV, NodeV, SchEdge, SchNode, SchematicGraph,
};
use crate::text::{last_segment, owned, tail_segment};
use std::collections::{BTreeSet, HashSet};
use vstd::prelude::*;
use vstd::string::*;

verus! {

broadcast use {
    group_views,
    vstd::string::group_string_axioms,
    vstd::std_specs::hash::group_hash_axioms,
    vstd::std_specs::btree::group_btree_axioms,
    vstd::laws_cmp::group_laws_cmp,
};

/// What the cone has reached.
#[verifier::ext_equal]
pub struct ConeV {
    /// The instances reached.
    pub boxes: Set<u32>,
    pub edges: Seq<EdgeV>,
    /// The ids of the edges taken.
    pub seen: Set<u32>,
    /// The nodes of the next hop.
    pub next: Seq<u32>,
}

/// Whether an edge has the direction asked for, as written at its port.
pub open spec fn goes(e: Edge, dir: Dir) -> bool {
    dir == Dir::Inout || e.dir == dir
}

/// The wire of an edge, between its own ends.
pub open spec fn edge_wire(d: Document, e: Edge) -> EdgeV {
    EdgeV {
        id: e.id,
        source: e.port,
        target: e.endpoint,
        net: match node_at(d, e.endpoint) {
            Some(n) => Some(selected(tail_segment(n.path@), e.select)),
            None => None,
        },
        net_path: match node_at(d, e.endpoint) {
            Some(n) => Some(n.path@),
            None => None,
        },
    }
}

/// The cone after one edge of `node`. The walk goes on at the far end when it reaches
/// an instance for the first time.
pub open spec fn cone_edge(d: Document, dir: Dir, node: u32, e: Edge, c: ConeV) -> ConeV {
    if !goes(e, dir) || c.seen.contains(e.id) {
        c
    } else {
        let t = ConeV {
            seen: c.seen.insert(e.id),
            edges: c.edges.push(edge_wire(d, e)),
            ..c
        };
        let other = far_end(e, node);
        match instance_from(d, other, d.nodes@.len()) {
            Some(i) => if c.boxes.contains(i) {
                t
            } else {
                ConeV { boxes: t.boxes.insert(i), next: t.next.push(other), ..t }
            },
            None => t,
        }
    }
}

/// The cone after the first `n` edges of `node`.
pub open spec fn cone_edges(d: Document, dir: Dir, node: u32, n: nat, c: ConeV) -> ConeV
    decreases n,
{
    if n == 0 {
        c
    } else {
        cone_edge(
            d,
            dir,
            node,
            edge_at(d, incident(d, node)[n - 1]),
            cone_edges(d, dir, node, (n - 1) as nat, c),
        )
    }
}

/// The cone after the first `n` nodes of a frontier.
pub open spec fn cone_hop(d: Document, dir: Dir, frontier: Seq<u32>, n: nat, c: ConeV) -> ConeV
    decreases n,
{
    if n == 0 {
        ConeV { next: Seq::empty(), ..c }
    } else {
        let node = frontier[n - 1];
        cone_edges(
            d,
            dir,
            node,
            incident(d, node).len(),
            cone_hop(d, dir, frontier, (n - 1) as nat, c),
        )
    }
}

/// The cone after at most `k` hops.
pub open spec fn cone_hops(d: Document, dir: Dir, frontier: Seq<u32>, k: nat, c: ConeV) -> ConeV
    decreases k,
{
    if k == 0 {
        c
    } else {
        let t = cone_hop(d, dir, frontier, frontier.len(), c);
        if t.next.len() == 0 {
            t
        } else {
            cone_hops(d, dir, t.next, (k - 1) as nat, t)
        }
    }
}

/// The boxes of the first `n` instances.
pub open spec fn cone_boxes(d: Document, ids: Seq<u32>, n: nat) -> Seq<NodeV>
    decreases n,
{
    if n == 0 {
        Seq::empty()
    } else {
        let r = cone_boxes(d, ids, (n - 1) as nat);
        match node_at(d, ids[n - 1]) {
            Some(x) => r.push(instance_box(d, ids[n - 1], x, Seq::empty())),
            None => r,
        }
    }
}

/// The graph of an instance-level cone.
pub open spec fn cone_view(d: Document, start: u32, dir: Dir, depth: nat) -> GraphV {
    let c = cone_hops(
        d,
        dir,
        seq![start],
        if depth > 0 {
            depth
        } else {
            1
        },
        ConeV {
            boxes: Set::empty(),
            edges: Seq::empty(),
            seen: Set::empty(),
            next: Seq::empty(),
        },
    );
    let ids = ascending(c.boxes);
    GraphV {
        root: path_or_empty(d, start),
        nodes: cone_boxes(d, ids, ids.len()),
        edges: c.edges,
        truncated: false,
    }
}

struct Cone {
    boxes: BTreeSet<u32>,
    edges: Vec<SchEdge>,
    seen: HashSet<u32>,
    next: Vec<NodeId>,
}

impl View for Cone {
    type V = ConeV;

    closed spec fn view(&self) -> ConeV {
        ConeV {
            boxes: self.boxes@,
            edges: edge_views(self.edges@),
            seen: self.seen@,
            next: self.next@,
        }
    }
}

fn take_edge(design: &Design, dir: Dir, node: NodeId, e: &Edge, c: &mut Cone)
    requires
        rooted(design.doc),
    ensures
        final(c)@ == cone_edge(design.doc, dir, node, *e, old(c)@),
{
    let ghost c0 = c@;
    let keep: bool = dir == Dir::Inout || e.dir == dir;
    if !keep {
        return;
    }
    if !c.seen.insert(e.id) {
        assert(c.seen@ =~= c0.seen);
        return;
    }
    let (net, net_path) = match design.node(e.endpoint) {
        Some(n) => (
            Some(with_select(owned(last_segment(n.path.as_str())), &e.select)),
            Some(n.path.clone()),
        ),
        None => (None, None),
    };
    let x: SchEdge = SchEdge { id: e.id, source: e.port, target: e.endpoint, net, net_path };
    assert(x@ == edge_wire(design.doc, *e));
    c.edges.push(x);
    let other: NodeId = if e.port == node {
        e.endpoint
    } else {
        e.port
    };
    if let Some(i) = nearest_instance(design, other) {
        let ghost before = c.boxes@;
        if c.boxes.insert(i) {
            c.next.push(other);
        } else {
            assert(c.boxes@ =~= before);
        }
    }
}

fn cone_step(design: &Design, dir: Dir, frontier: &Vec<NodeId>, c: &mut Cone)
    requires
        design.wf(),
        rooted(design.doc),
    ensures
        final(c)@ == cone_hop(design.doc, dir, frontier@, frontier@.len(), old(c)@),
{
    let ghost c0 = c@;
    c.next = Vec::new();
    let mut i: usize = 0;
    while i < frontier.len()
        invariant
            i <= frontier@.len(),
            design.wf(),
            rooted(design.doc),
            c@ == cone_hop(design.doc, dir, frontier@, i as nat, c0),
        decreases frontier@.len() - i,
    {
        let node: NodeId = frontier[i];
        let at: &[u32] = design.edge_indices_of(node);
        let ghost c1 = c@;
        let mut k: usize = 0;
        while k < at.len()
            invariant
                k <= at@.len(),
                rooted(design.doc),
                at@ == incident(design.doc, node),
                forall|j: int| 0 <= j < at@.len() ==> #[trigger] at@[j] < design.doc.edges@.len(),
                c@ == cone_edges(design.doc, dir, node, k as nat, c1),
            decreases at@.len() - k,
        {
            take_edge(design, dir, node, &design.doc.edges[at[k] as usize], c);
            k += 1;
        }
        i += 1;
    }
}

/// The instances that a node is connected to, following edges of one direction up to
/// `depth` hops, and the edges that lead there.
pub fn cone(design: &Design, start: NodeId, dir: Dir, depth: usize) -> (r: SchematicGraph)
    requires
        design.wf(),
        hierarchical(design.doc),
    ensures
        r@ == cone_view(design.doc, start, dir, depth as nat),
{
    let mut c: Cone = Cone {
        boxes: BTreeSet::new(),
        edges: Vec::new(),
        seen: HashSet::new(),
        next: Vec::new(),
    };
    let mut frontier: Vec<NodeId> = Vec::new();
    frontier.push(start);
    assert(frontier@ =~= seq![start]);
    let mut left: usize = if depth > 0 {
        depth
    } else {
        1
    };
    let ghost goal = cone_hops(design.doc, dir, seq![start], left as nat, c@);
    while left > 0
        invariant_except_break
            goal == cone_hops(design.doc, dir, frontier@, left as nat, c@),
        invariant
            design.wf(),
            hierarchical(design.doc),
        ensures
            goal == c@,
        decreases left,
    {
        cone_step(design, dir, &frontier, &mut c);
        if c.next.len() == 0 {
            break;
        }
        let mut front: Vec<NodeId> = Vec::new();
        append_ids(&mut front, c.next.as_slice());
        assert(front@ =~= c.next@);
        frontier = front;
        left -= 1;
    }
    let ids: Vec<u32> = members(&c.boxes);
    let mut nodes: Vec<SchNode> = Vec::new();
    let mut i: usize = 0;
    proof {
        reveal_strlit("");
        assert(""@ =~= Seq::empty());
    }
    while i < ids.len()
        invariant
            i <= ids@.len(),
            design.wf(),
            nested(design.doc),
            ""@ == Seq::<char>::empty(),
            node_views(nodes@) == cone_boxes(design.doc, ids@, i as nat),
        decreases ids@.len() - i,
    {
        if let Some(n) = design.node(ids[i]) {
            nodes.push(make_box(design, ids[i], n, ""));
        }
        i += 1;
    }
    SchematicGraph { root: path_of(design, start), nodes, edges: c.edges, truncated: false }
}

} // verus!
