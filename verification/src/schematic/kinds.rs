//! What a node is drawn as: the tests on kinds and edges that every view shares,
//! and the boxes that a scope shows.

use crate::model::{
    children_at, edge_at, incident, kind_at, node_at, Design, Dir, Document, Edge, NodeId,
    NodeKind,
};
use crate::schematic::types::Projection;
use vstd::prelude::*;

verus! {

/// Whether the node with index `id` has kind `k`.
pub open spec fn has_kind(d: Document, id: u32, k: NodeKind) -> bool {
    kind_at(d, id) == Some(k)
}

/// Whether a kind is drawn as a logic box: a process, an assignment or a memory.
pub open spec fn logic_kind(k: NodeKind) -> bool {
    match k {
        NodeKind::Ff
        | NodeKind::Comb
        | NodeKind::Latch
        | NodeKind::Assign
        | NodeKind::Memory => true,
        _ => false,
    }
}

/// Whether a kind is a gate-level primitive.
pub open spec fn gate_kind(k: NodeKind) -> bool {
    match k {
        NodeKind::And
        | NodeKind::Or
        | NodeKind::Xor
        | NodeKind::Xnor
        | NodeKind::Nand
        | NodeKind::Nor
        | NodeKind::Not
        | NodeKind::Buf
        | NodeKind::Add
        | NodeKind::Sub
        | NodeKind::Mul
        | NodeKind::Cmp
        | NodeKind::Shift
        | NodeKind::Mux
        | NodeKind::Concat => true,
        _ => false,
    }
}

/// Whether the node with index `id` is a logic box.
pub open spec fn logic_at(d: Document, id: u32) -> bool {
    match kind_at(d, id) {
        Some(k) => logic_kind(k),
        None => false,
    }
}

/// Whether the node with index `id` is a gate-level primitive.
pub open spec fn gate_at(d: Document, id: u32) -> bool {
    match kind_at(d, id) {
        Some(k) => gate_kind(k),
        None => false,
    }
}

/// A test on an edge, as seen from one of its ends.
#[derive(Debug, Clone, Copy, PartialEq, Eq, Structural)]
pub enum EdgeTest {
    /// The node is the port.
    AtPort,
    /// The node is the port and takes a value in.
    Feeds,
    /// The node is the port and gives a value out.
    Drives,
    /// The node is the endpoint of an input.
    Reads,
}

/// Whether edge `e` passes a test as seen from `id`.
pub open spec fn passes(t: EdgeTest, e: Edge, id: u32) -> bool {
    match t {
        EdgeTest::AtPort => e.port == id,
        EdgeTest::Feeds => e.port == id && e.dir != Dir::Out,
        EdgeTest::Drives => e.port == id && e.dir == Dir::Out,
        EdgeTest::Reads => e.endpoint == id && e.dir == Dir::In,
    }
}

/// The first edge of a node, from position `from` of its edges, that passes a test.
pub open spec fn edge_from(d: Document, id: u32, t: EdgeTest, from: int) -> Option<Edge>
    decreases incident(d, id).len() - from,
{
    if from < 0 || from >= incident(d, id).len() {
        None
    } else if passes(t, edge_at(d, incident(d, id)[from]), id) {
        Some(edge_at(d, incident(d, id)[from]))
    } else {
        edge_from(d, id, t, from + 1)
    }
}

/// The first edge of a node that passes a test.
pub open spec fn first_edge(d: Document, id: u32, t: EdgeTest) -> Option<Edge> {
    edge_from(d, id, t, 0)
}

/// How many of the first `n` edges of a node pass a test.
pub open spec fn edge_count(d: Document, id: u32, t: EdgeTest, n: nat) -> nat
    decreases n,
{
    if n == 0 {
        0
    } else {
        edge_count(d, id, t, (n - 1) as nat) + if passes(
            t,
            edge_at(d, incident(d, id)[n - 1]),
            id,
        ) {
            1nat
        } else {
            0nat
        }
    }
}

/// The node that an inverter inverts.
pub open spec fn inverted_by(d: Document, id: u32) -> Option<u32> {
    match first_edge(d, id, EdgeTest::Feeds) {
        Some(e) => Some(e.endpoint),
        None => None,
    }
}

/// Whether a node is an inverter that folds into a bubble on its reader's pin: it
/// drives no signal of its own, one edge reads it, and that edge is a gate's.
pub open spec fn foldable(d: Document, id: u32) -> bool {
    &&& has_kind(d, id, NodeKind::Not)
    &&& first_edge(d, id, EdgeTest::Drives) is None
    &&& edge_count(d, id, EdgeTest::Reads, incident(d, id).len()) == 1
    &&& match first_edge(d, id, EdgeTest::Reads) {
        Some(e) => gate_at(d, e.port),
        None => false,
    }
    &&& inverted_by(d, id) is Some
}

/// The primitive that reads a folded inverter.
pub open spec fn reader_of(d: Document, id: u32) -> Option<u32> {
    match first_edge(d, id, EdgeTest::Reads) {
        Some(e) => Some(e.port),
        None => None,
    }
}

/// Whether a node is drawn inside the box that consumes it.
pub open spec fn inline_at(d: Document, id: u32, projection: Projection) -> bool {
    has_kind(d, id, NodeKind::Const) || (projection == Projection::GateLevel && foldable(d, id))
}

/// What a gate input stands for: the operand behind a folded inverter and `true`, or
/// the endpoint itself and `false`.
pub open spec fn folded(d: Document, endpoint: u32) -> (u32, bool) {
    if foldable(d, endpoint) {
        (inverted_by(d, endpoint)->0, true)
    } else {
        (endpoint, false)
    }
}

/// The primitives among the first `n` of `cs` that are drawn as boxes.
pub open spec fn gates_in(d: Document, cs: Seq<u32>, n: nat) -> Seq<u32>
    decreases n,
{
    if n == 0 {
        Seq::empty()
    } else {
        let r = gates_in(d, cs, (n - 1) as nat);
        if gate_at(d, cs[n - 1]) && !foldable(d, cs[n - 1]) {
            r.push(cs[n - 1])
        } else {
            r
        }
    }
}

/// The primitives that a logic block dissolves into.
pub open spec fn gates_of(d: Document, block: u32) -> Seq<u32> {
    gates_in(d, children_at(d, block), children_at(d, block).len())
}

/// Whether generate blocks below `id` nest no deeper than `n`.
pub open spec fn nests(d: Document, id: u32, n: nat) -> bool
    decreases n,
{
    forall|k: int|
        #![trigger children_at(d, id)[k]]
        0 <= k < children_at(d, id).len() && has_kind(d, children_at(d, id)[k], NodeKind::GenBlock)
            ==> n > 0 && nests(d, children_at(d, id)[k], (n - 1) as nat)
}

/// Whether no generate block contains itself.
pub open spec fn nested(d: Document) -> bool {
    forall|id: u32| #[trigger] nests(d, id, d.nodes@.len())
}

/// The boxes among the first `n` of `cs`, generate blocks dissolved to depth `fuel`.
pub open spec fn boxes_in(
    d: Document,
    cs: Seq<u32>,
    n: nat,
    projection: Projection,
    fuel: nat,
) -> Seq<u32>
    decreases fuel, n,
{
    if n == 0 {
        Seq::empty()
    } else {
        let r = boxes_in(d, cs, (n - 1) as nat, projection, fuel);
        let c = cs[n - 1];
        match kind_at(d, c) {
            Some(NodeKind::Instance)
            | Some(NodeKind::Interface)
            | Some(NodeKind::Ff)
            | Some(NodeKind::Memory) => r.push(c),
            Some(NodeKind::Comb) | Some(NodeKind::Latch) | Some(NodeKind::Assign) => if projection
                == Projection::GateLevel && gates_of(d, c).len() > 0 {
                r + gates_of(d, c)
            } else {
                r.push(c)
            },
            Some(NodeKind::GenBlock) => if fuel > 0 {
                r + boxes_in(
                    d,
                    children_at(d, c),
                    children_at(d, c).len(),
                    projection,
                    (fuel - 1) as nat,
                )
            } else {
                r
            },
            _ => r,
        }
    }
}

/// The boxes shown inside a scope.
pub open spec fn boxes_of(d: Document, scope: u32, projection: Projection) -> Seq<u32> {
    boxes_in(
        d,
        children_at(d, scope),
        children_at(d, scope).len(),
        projection,
        d.nodes@.len(),
    )
}

/// Whether a node lists a child of kind `k`.
pub open spec fn has_child(d: Document, id: u32, k: NodeKind) -> bool {
    exists|i: int|
        #![trigger children_at(d, id)[i]]
        0 <= i < children_at(d, id).len() && has_kind(d, children_at(d, id)[i], k)
}

/// Whether a node is an interface instance with modport views.
pub open spec fn bare_bundle(d: Document, id: u32) -> bool {
    match node_at(d, id) {
        Some(n) => n.kind == NodeKind::Interface && n.modport is None && has_child(
            d,
            id,
            NodeKind::Modport,
        ),
        None => false,
    }
}

/// Whether an instance or a bare bundle lies below a node, through generate blocks
/// to depth `n`.
pub open spec fn holds_design(d: Document, id: u32, n: nat) -> bool
    decreases n,
{
    exists|k: int|
        #![trigger children_at(d, id)[k]]
        0 <= k < children_at(d, id).len() && match kind_at(d, children_at(d, id)[k]) {
            Some(NodeKind::Instance) => true,
            Some(NodeKind::GenBlock) => n > 0 && holds_design(
                d,
                children_at(d, id)[k],
                (n - 1) as nat,
            ),
            _ => bare_bundle(d, children_at(d, id)[k]),
        }
}

/// Whether a node can be opened as a scope: an instance, a bare bundle, or a generate
/// block with an instance or a bare bundle in it.
pub open spec fn navigable(d: Document, id: u32) -> bool {
    match kind_at(d, id) {
        Some(NodeKind::Instance) => true,
        Some(NodeKind::GenBlock) => holds_design(d, id, d.nodes@.len()),
        _ => bare_bundle(d, id),
    }
}

pub fn kind_of(design: &Design, id: NodeId) -> (r: Option<NodeKind>)
    ensures
        r == kind_at(design.doc, id),
{
    match design.node(id) {
        Some(n) => Some(n.kind),
        None => None,
    }
}

pub fn parent_of(design: &Design, id: NodeId) -> (r: Option<NodeId>)
    ensures
        r == crate::model::parent_at(design.doc, id),
{
    match design.node(id) {
        Some(n) => n.parent,
        None => None,
    }
}

pub fn is_kind(design: &Design, id: NodeId, kind: NodeKind) -> (r: bool)
    ensures
        r == has_kind(design.doc, id, kind),
{
    match design.node(id) {
        Some(n) => n.kind == kind,
        None => false,
    }
}

pub fn is_logic_box(design: &Design, id: NodeId) -> (r: bool)
    ensures
        r == logic_at(design.doc, id),
{
    match kind_of(design, id) {
        Some(NodeKind::Ff)
        | Some(NodeKind::Comb)
        | Some(NodeKind::Latch)
        | Some(NodeKind::Assign)
        | Some(NodeKind::Memory) => true,
        _ => false,
    }
}

pub fn is_gate_kind(kind: NodeKind) -> (r: bool)
    ensures
        r == gate_kind(kind),
{
    match kind {
        NodeKind::And
        | NodeKind::Or
        | NodeKind::Xor
        | NodeKind::Xnor
        | NodeKind::Nand
        | NodeKind::Nor
        | NodeKind::Not
        | NodeKind::Buf
        | NodeKind::Add
        | NodeKind::Sub
        | NodeKind::Mul
        | NodeKind::Cmp
        | NodeKind::Shift
        | NodeKind::Mux
        | NodeKind::Concat => true,
        _ => false,
    }
}

pub fn is_gate(design: &Design, id: NodeId) -> (r: bool)
    ensures
        r == gate_at(design.doc, id),
{
    match kind_of(design, id) {
        Some(k) => is_gate_kind(k),
        None => false,
    }
}

fn edge_passes(t: EdgeTest, e: &Edge, id: NodeId) -> (r: bool)
    ensures
        r == passes(t, *e, id),
{
    match t {
        EdgeTest::AtPort => e.port == id,
        EdgeTest::Feeds => e.port == id && e.dir != Dir::Out,
        EdgeTest::Drives => e.port == id && e.dir == Dir::Out,
        EdgeTest::Reads => e.endpoint == id && e.dir == Dir::In,
    }
}

/// The first edge of a node that passes a test.
pub fn find_edge(design: &Design, id: NodeId, t: EdgeTest) -> (r: Option<&Edge>)
    requires
        design.wf(),
    ensures
        match r {
            Some(e) => first_edge(design.doc, id, t) == Some(*e),
            None => first_edge(design.doc, id, t) is None,
        },
{
    let at: &[u32] = design.edge_indices_of(id);
    let mut i: usize = 0;
    while i < at.len()
        invariant
            i <= at@.len(),
            at@ == incident(design.doc, id),
            forall|k: int| 0 <= k < at@.len() ==> #[trigger] at@[k] < design.doc.edges@.len(),
            first_edge(design.doc, id, t) == edge_from(design.doc, id, t, i as int),
        decreases at@.len() - i,
    {
        let e: &Edge = &design.doc.edges[at[i] as usize];
        if edge_passes(t, e, id) {
            return Some(e);
        }
        i += 1;
    }
    None
}

fn count_edges(design: &Design, id: NodeId, t: EdgeTest) -> (r: usize)
    requires
        design.wf(),
    ensures
        r == edge_count(design.doc, id, t, incident(design.doc, id).len()),
{
    let at: &[u32] = design.edge_indices_of(id);
    let mut n: usize = 0;
    let mut i: usize = 0;
    while i < at.len()
        invariant
            i <= at@.len(),
            n <= i,
            at@ == incident(design.doc, id),
            forall|k: int| 0 <= k < at@.len() ==> #[trigger] at@[k] < design.doc.edges@.len(),
            n == edge_count(design.doc, id, t, i as nat),
        decreases at@.len() - i,
    {
        if edge_passes(t, &design.doc.edges[at[i] as usize], id) {
            n += 1;
        }
        i += 1;
    }
    n
}

pub fn not_operand(design: &Design, not_id: NodeId) -> (r: Option<NodeId>)
    requires
        design.wf(),
    ensures
        r == inverted_by(design.doc, not_id),
{
    match find_edge(design, not_id, EdgeTest::Feeds) {
        Some(e) => Some(e.endpoint),
        None => None,
    }
}

pub fn is_foldable_not(design: &Design, id: NodeId) -> (r: bool)
    requires
        design.wf(),
    ensures
        r == foldable(design.doc, id),
{
    if !is_kind(design, id, NodeKind::Not) {
        return false;
    }
    if find_edge(design, id, EdgeTest::Drives).is_some() {
        return false;
    }
    let gated: bool = match find_edge(design, id, EdgeTest::Reads) {
        Some(e) => is_gate(design, e.port),
        None => false,
    };
    count_edges(design, id, EdgeTest::Reads) == 1 && gated && not_operand(design, id).is_some()
}

pub fn not_reader(design: &Design, id: NodeId) -> (r: Option<NodeId>)
    requires
        design.wf(),
    ensures
        r == reader_of(design.doc, id),
{
    match find_edge(design, id, EdgeTest::Reads) {
        Some(e) => Some(e.port),
        None => None,
    }
}

pub fn is_drawn_inline(design: &Design, id: NodeId, projection: Projection) -> (r: bool)
    requires
        design.wf(),
    ensures
        r == inline_at(design.doc, id, projection),
{
    is_kind(design, id, NodeKind::Const) || (projection == Projection::GateLevel
        && is_foldable_not(design, id))
}

pub fn fold_inverter(design: &Design, endpoint: NodeId) -> (r: (NodeId, bool))
    requires
        design.wf(),
    ensures
        r == folded(design.doc, endpoint),
{
    if is_foldable_not(design, endpoint) {
        if let Some(op) = not_operand(design, endpoint) {
            return (op, true);
        }
    }
    (endpoint, false)
}

/// Appends copies of ids.
pub fn append_ids(out: &mut Vec<NodeId>, ids: &[NodeId])
    ensures
        final(out)@ == old(out)@ + ids@,
{
    let mut i: usize = 0;
    let ghost before = out@;
    assert(out@ =~= before + ids@.subrange(0, 0));
    while i < ids.len()
        invariant
            i <= ids@.len(),
            out@ == before + ids@.subrange(0, i as int),
        decreases ids@.len() - i,
    {
        out.push(ids[i]);
        i += 1;
        assert(out@ =~= before + ids@.subrange(0, i as int));
    }
    assert(ids@.subrange(0, i as int) =~= ids@);
}

pub fn gate_children(design: &Design, block: NodeId) -> (r: Vec<NodeId>)
    requires
        design.wf(),
    ensures
        r@ == gates_of(design.doc, block),
{
    let mut out: Vec<NodeId> = Vec::new();
    if let Some(n) = design.node(block) {
        let mut i: usize = 0;
        while i < n.children.len()
            invariant
                i <= n.children@.len(),
                design.wf(),
                n.children@ == children_at(design.doc, block),
                out@ == gates_in(design.doc, n.children@, i as nat),
            decreases n.children@.len() - i,
        {
            let c: NodeId = n.children[i];
            if is_gate(design, c) && !is_foldable_not(design, c) {
                out.push(c);
            }
            i += 1;
        }
    }
    out
}

fn boxes_to(design: &Design, scope: NodeId, projection: Projection, Ghost(fuel): Ghost<nat>) -> (r:
    Vec<NodeId>)
    requires
        design.wf(),
        nests(design.doc, scope, fuel),
    ensures
        r@ == boxes_in(
            design.doc,
            children_at(design.doc, scope),
            children_at(design.doc, scope).len(),
            projection,
            fuel,
        ),
    decreases fuel,
{
    let mut out: Vec<NodeId> = Vec::new();
    if let Some(n) = design.node(scope) {
        let mut i: usize = 0;
        while i < n.children.len()
            invariant
                i <= n.children@.len(),
                design.wf(),
                nests(design.doc, scope, fuel),
                n.children@ == children_at(design.doc, scope),
                out@ == boxes_in(design.doc, n.children@, i as nat, projection, fuel),
            decreases n.children@.len() - i,
        {
            let c: NodeId = n.children[i];
            assert(c == children_at(design.doc, scope)[i as int]);
            match kind_of(design, c) {
                Some(NodeKind::Instance)
                | Some(NodeKind::Interface)
                | Some(NodeKind::Ff)
                | Some(NodeKind::Memory) => {
                    out.push(c);
                },
                Some(NodeKind::Comb) | Some(NodeKind::Latch) | Some(NodeKind::Assign) => {
                    let gates: Vec<NodeId> = gate_children(design, c);
                    if projection == Projection::GateLevel && gates.len() > 0 {
                        append_ids(&mut out, gates.as_slice());
                    } else {
                        out.push(c);
                    }
                },
                Some(NodeKind::GenBlock) => {
                    let inner: Vec<NodeId> = boxes_to(
                        design,
                        c,
                        projection,
                        Ghost((fuel - 1) as nat),
                    );
                    append_ids(&mut out, inner.as_slice());
                },
                _ => {},
            }
            i += 1;
        }
    }
    out
}

/// The boxes shown inside a scope: instances, bundles, registers, memories and logic
/// blocks, with generate blocks dissolved and, at gate level, logic blocks that carry
/// primitives dissolved into them.
pub fn child_boxes(design: &Design, scope: NodeId, projection: Projection) -> (r: Vec<NodeId>)
    requires
        design.wf(),
        nested(design.doc),
    ensures
        r@ == boxes_of(design.doc, scope, projection),
{
    assert(nests(design.doc, scope, design.doc.nodes@.len()));
    boxes_to(design, scope, projection, Ghost(design.doc.nodes@.len()))
}

/// Whether a node is a bare interface instance with modport views.
pub fn is_bare_interface(design: &Design, id: NodeId) -> (r: bool)
    ensures
        r == bare_bundle(design.doc, id),
{
    match design.node(id) {
        Some(n) => {
            if n.kind != NodeKind::Interface || n.modport.is_some() {
                return false;
            }
            let mut i: usize = 0;
            while i < n.children.len()
                invariant
                    i <= n.children@.len(),
                    n.children@ == children_at(design.doc, id),
                    node_at(design.doc, id) == Some(*n),
                    n.kind == NodeKind::Interface,
                    n.modport is None,
                    forall|k: int|
                        0 <= k < i ==> !has_kind(
                            design.doc,
                            #[trigger] children_at(design.doc, id)[k],
                            NodeKind::Modport,
                        ),
                decreases n.children@.len() - i,
            {
                if is_kind(design, n.children[i], NodeKind::Modport) {
                    assert(has_kind(
                        design.doc,
                        children_at(design.doc, id)[i as int],
                        NodeKind::Modport,
                    ));
                    return true;
                }
                i += 1;
            }
            false
        },
        None => false,
    }
}

fn genblk_has_design_content(design: &Design, id: NodeId, Ghost(fuel): Ghost<nat>) -> (r: bool)
    requires
        nests(design.doc, id, fuel),
    ensures
        r == holds_design(design.doc, id, fuel),
    decreases fuel,
{
    match design.node(id) {
        Some(n) => {
            let mut i: usize = 0;
            while i < n.children.len()
                invariant
                    i <= n.children@.len(),
                    nests(design.doc, id, fuel),
                    n.children@ == children_at(design.doc, id),
                    forall|k: int|
                        0 <= k < i ==> !(match kind_at(
                            design.doc,
                            #[trigger] children_at(design.doc, id)[k],
                        ) {
                            Some(NodeKind::Instance) => true,
                            Some(NodeKind::GenBlock) => fuel > 0 && holds_design(
                                design.doc,
                                children_at(design.doc, id)[k],
                                (fuel - 1) as nat,
                            ),
                            _ => bare_bundle(design.doc, children_at(design.doc, id)[k]),
                        }),
                decreases n.children@.len() - i,
            {
                let c: NodeId = n.children[i];
                assert(c == children_at(design.doc, id)[i as int]);
                let found: bool = match kind_of(design, c) {
                    Some(NodeKind::Instance) => true,
                    Some(NodeKind::GenBlock) => genblk_has_design_content(design, c, Ghost((fuel - 1) as nat)),
                    _ => is_bare_interface(design, c),
                };
                if found {
                    return true;
                }
                i += 1;
            }
            false
        },
        None => false,
    }
}

pub fn genblk_is_navigable(design: &Design, id: NodeId) -> (r: bool)
    requires
        nested(design.doc),
    ensures
        r == (has_kind(design.doc, id, NodeKind::GenBlock) && navigable(design.doc, id)),
{
    assert(nests(design.doc, id, design.doc.nodes@.len()));
    is_kind(design, id, NodeKind::GenBlock) && genblk_has_design_content(
        design,
        id,
        Ghost(design.doc.nodes@.len()),
    )
}

/// Whether a node can be opened as a scope.
pub fn is_navigable_scope(design: &Design, id: NodeId) -> (r: bool)
    requires
        nested(design.doc),
    ensures
        r == navigable(design.doc, id),
{
    match kind_of(design, id) {
        Some(NodeKind::Instance) => true,
        Some(NodeKind::GenBlock) => genblk_is_navigable(design, id),
        _ => is_bare_interface(design, id),
    }
}

} // verus!
