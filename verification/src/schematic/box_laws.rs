//! What boxes show: their pins, and the sides that the pins are on.

use crate::model::{edge_at, incident, node_at, Dir, Document, Node, NodeKind};
use crate::model_laws::law_nodes_list_their_edges;
use crate::schematic::boxes::{
    bundle_pins, child_pin, child_pins, drawn, frame_pin, logic_pins, operand_pins,
};
use crate::schematic::kinds::folded;
use crate::schematic::pins::{lemma_slot, pin_id, slot, with_pin, Pins};
use crate::schematic::types::{PortV, Side};
use vstd::prelude::*;

verus! {

/// Whether a node is a register, a process, a latch, an assignment or a memory.
pub open spec fn is_logic(d: Document, id: u32) -> bool {
    id < d.nodes@.len() && match d.nodes@[id as int].kind {
        NodeKind::Ff
        | NodeKind::Comb
        | NodeKind::Latch
        | NodeKind::Assign
        | NodeKind::Memory => true,
        _ => false,
    }
}

/// Whether a node is a primitive.
pub open spec fn is_primitive(d: Document, id: u32) -> bool {
    id < d.nodes@.len() && match d.nodes@[id as int].kind {
        NodeKind::And
        | NodeKind::Or
        | NodeKind::Xor
        | NodeKind::Xnor
        | NodeKind::Nand
        | NodeKind::Nor
        | NodeKind::Not
        | NodeKind::Buf
        | NodeKind::Add
        | NodeKind::Sub
        | NodeKind::Mul
        | NodeKind::Cmp
        | NodeKind::Shift
        | NodeKind::Mux
        | NodeKind::Concat => true,
        _ => false,
    }
}

// --- Pins that stay -----------------------------------------------------------

/// Whether pins are handed out behind others, and none twice.
pub open spec fn extends(p: Pins, q: Pins) -> bool {
    &&& p.len() <= q.len()
    &&& forall|k: int| 0 <= k < p.len() ==> #[trigger] q[k] == p[k]
    &&& p.no_duplicates() ==> q.no_duplicates()
}

pub(crate) proof fn lemma_with_pin(p: Pins, b: u32, s: u32)
    ensures
        extends(p, with_pin(p, b, s)),
        with_pin(p, b, s).contains((b, s)),
{
    if !p.contains((b, s)) {
        assert(with_pin(p, b, s)[p.len() as int] == (b, s));
    }
}

pub(crate) proof fn lemma_pin_stays(p: Pins, q: Pins, b: u32, s: u32)
    requires
        p.no_duplicates(),
        extends(with_pin(p, b, s), q),
    ensures
        pin_id(q, b, s) == pin_id(p, b, s),
        q.contains((b, s)),
{
    let w = with_pin(p, b, s);
    lemma_with_pin(p, b, s);
    lemma_slot(w, (b, s));
    let i = slot(w, (b, s));
    assert(q[i as int] == w[i as int]);
    assert(q.contains((b, s)));
    lemma_slot(q, (b, s));
}

proof fn lemma_logic_pins(d: Document, bx: u32, n: Node, k: nat, p: Pins)
    ensures
        extends(p, logic_pins(d, bx, n, k, p).1),
    decreases k,
{
    if k > 0 {
        lemma_logic_pins(d, bx, n, (k - 1) as nat, p);
        let e = edge_at(d, incident(d, bx)[k - 1]);
        lemma_with_pin(logic_pins(d, bx, n, (k - 1) as nat, p).1, bx, e.endpoint);
    }
}

proof fn lemma_operand_pins(d: Document, g: u32, k: nat, p: Pins)
    ensures
        extends(p, operand_pins(d, g, k, p).1),
    decreases k,
{
    if k > 0 {
        lemma_operand_pins(d, g, (k - 1) as nat, p);
        let e = edge_at(d, incident(d, g)[k - 1]);
        lemma_with_pin(operand_pins(d, g, (k - 1) as nat, p).1, g, folded(d, e.endpoint).0);
    }
}

pub(crate) proof fn lemma_drawn_extends(d: Document, bx: u32, scope: Seq<char>, p: Pins)
    ensures
        extends(p, drawn(d, bx, scope, p).1),
{
    match node_at(d, bx) {
        Some(n) => {
            lemma_logic_pins(d, bx, n, incident(d, bx).len(), p);
            lemma_operand_pins(d, bx, incident(d, bx).len(), p);
            lemma_with_pin(operand_pins(d, bx, incident(d, bx).len(), p).1, bx, bx);
        },
        None => {},
    }
}

/// A pin that was handed out keeps its id.
pub(crate) proof fn lemma_pin_kept(p: Pins, q: Pins, b: u32, s: u32)
    requires
        p.no_duplicates(),
        p.contains((b, s)),
        extends(p, q),
    ensures
        pin_id(q, b, s) == pin_id(p, b, s),
        q.contains((b, s)),
{
    assert(with_pin(p, b, s) == p);
    lemma_pin_stays(p, q, b, s);
}

// --- Logic --------------------------------------------------------------------

/// The side that a pin of an edge is on: outputs to the east, all others to the west.
pub open spec fn side_by(dir: Dir) -> Side {
    if dir == Dir::Out {
        Side::East
    } else {
        Side::West
    }
}

/// Whether a pin is named after a node and stands for it.
pub open spec fn named_after(p: PortV, d: Document, id: u32) -> bool {
    id < d.nodes@.len() ==> p.name == d.nodes@[id as int].name@ && p.path
        == d.nodes@[id as int].path@
}

/// Whether pins have one with an id, on a side, that stands for a node.
pub open spec fn shows_pin(ports: Seq<PortV>, id: u32, side: Side, d: Document, sig: u32) -> bool {
    exists|k: int|
        0 <= k < ports.len() && (#[trigger] ports[k]).id == id && ports[k].side == side
            && named_after(ports[k], d, sig)
}

proof fn lemma_shows_more(a: Seq<PortV>, x: PortV, id: u32, side: Side, d: Document, sig: u32)
    requires
        shows_pin(a, id, side, d, sig),
    ensures
        shows_pin(a.push(x), id, side, d, sig),
{
    let k = choose|k: int|
        0 <= k < a.len() && (#[trigger] a[k]).id == id && a[k].side == side && named_after(
            a[k],
            d,
            sig,
        );
    assert(a.push(x)[k] == a[k]);
}

proof fn lemma_logic_pin(d: Document, bx: u32, n: Node, k: nat, p: Pins, j: int)
    requires
        0 <= j < k <= incident(d, bx).len(),
        n.kind != NodeKind::Memory,
        p.no_duplicates(),
        edge_at(d, incident(d, bx)[j]).port == bx,
    ensures
        ({
            let (ports, q) = logic_pins(d, bx, n, k, p);
            let e = edge_at(d, incident(d, bx)[j]);
            &&& q.contains((bx, e.endpoint))
            &&& shows_pin(ports, pin_id(q, bx, e.endpoint), side_by(e.dir), d, e.endpoint)
        }),
    decreases k,
{
    let (v, q) = logic_pins(d, bx, n, (k - 1) as nat, p);
    let (ports, r) = logic_pins(d, bx, n, k, p);
    let e = edge_at(d, incident(d, bx)[j]);
    let f = edge_at(d, incident(d, bx)[k - 1]);
    lemma_logic_pins(d, bx, n, (k - 1) as nat, p);
    lemma_with_pin(q, bx, f.endpoint);
    if j == k - 1 {
        assert(crate::schematic::boxes::gives_pin(d, bx, n, k - 1));
        lemma_pin_stays(q, r, bx, e.endpoint);
        assert(ports[v.len() as int].id == pin_id(r, bx, e.endpoint));
    } else {
        lemma_logic_pin(d, bx, n, (k - 1) as nat, p, j);
        if r != q || ports != v {
            lemma_pin_kept(q, r, bx, e.endpoint);
            lemma_shows_more(
                v,
                ports.last(),
                pin_id(q, bx, e.endpoint),
                side_by(e.dir),
                d,
                e.endpoint,
            );
            if crate::schematic::boxes::gives_pin(d, bx, n, k - 1) {
                assert(ports == v.push(ports.last()));
            }
        }
    }
}

/// Every edge of a register, process, latch or assignment gives it a pin for the signal at
/// the edge's other end: outputs to the east, inputs to the west.
pub proof fn law_logic_has_a_pin_for_each_edge(
    d: Document,
    bx: u32,
    scope: Seq<char>,
    p: Pins,
    i: int,
)
    requires
        is_logic(d, bx),
        d.nodes@[bx as int].kind != NodeKind::Memory,
        p.no_duplicates(),
        0 <= i < d.edges@.len() <= 0x1_0000_0000,
        d.edges@[i].port == bx,
    ensures
        ({
            let (b, q) = drawn(d, bx, scope, p);
            &&& b is Some
            &&& q.contains((bx, d.edges@[i].endpoint))
            &&& shows_pin(
                b->0.ports,
                pin_id(q, bx, d.edges@[i].endpoint),
                side_by(d.edges@[i].dir),
                d,
                d.edges@[i].endpoint,
            )
        }),
{
    law_nodes_list_their_edges(d, bx, i as u32);
    let at = incident(d, bx);
    let j = choose|j: int| 0 <= j < at.len() && at[j] == i as u32;
    lemma_logic_pin(d, bx, d.nodes@[bx as int], at.len(), p, j);
}

/// Whether a pin of a logic box is that of an edge of the box.
pub open spec fn pin_of_edge(x: PortV, d: Document, bx: u32) -> bool {
    exists|i: int|
        0 <= i < d.edges@.len() && (#[trigger] d.edges@[i]).port == bx && x.side == side_by(
            d.edges@[i].dir,
        ) && named_after(x, d, d.edges@[i].endpoint)
}

proof fn lemma_logic_only(d: Document, bx: u32, n: Node, k: nat, p: Pins)
    requires
        k <= incident(d, bx).len(),
    ensures
        forall|j: int|
            0 <= j < logic_pins(d, bx, n, k, p).0.len() ==> pin_of_edge(
                #[trigger] logic_pins(d, bx, n, k, p).0[j],
                d,
                bx,
            ),
    decreases k,
{
    if k > 0 {
        lemma_logic_only(d, bx, n, (k - 1) as nat, p);
        let v = logic_pins(d, bx, n, (k - 1) as nat, p).0;
        let ports = logic_pins(d, bx, n, k, p).0;
        let i = incident(d, bx)[k - 1];
        assert(incident(d, bx).contains(i));
        law_nodes_list_their_edges(d, bx, i);
        assert forall|j: int| 0 <= j < ports.len() implies pin_of_edge(
            #[trigger] ports[j],
            d,
            bx,
        ) by {
            if j < v.len() {
                assert(ports[j] == v[j]);
            } else {
                assert(d.edges@[i as int].port == bx);
            }
        }
    }
}

/// A register, process, latch, assignment or memory has no pins but those of its edges, and
/// is drawn as what it is.
pub proof fn law_logic_has_no_other_pins(
    d: Document,
    bx: u32,
    scope: Seq<char>,
    p: Pins,
    j: int,
)
    requires
        is_logic(d, bx),
        drawn(d, bx, scope, p).0 is Some,
        0 <= j < drawn(d, bx, scope, p).0->0.ports.len(),
    ensures
        pin_of_edge(drawn(d, bx, scope, p).0->0.ports[j], d, bx),
{
    lemma_logic_only(d, bx, d.nodes@[bx as int], incident(d, bx).len(), p);
}

/// What is drawn for a node has its id, its kind and its path.
pub proof fn law_boxes_are_drawn_as_they_are(d: Document, bx: u32, scope: Seq<char>, p: Pins)
    ensures
        drawn(d, bx, scope, p).0 is Some <==> bx < d.nodes@.len(),
        drawn(d, bx, scope, p).0 is Some ==> ({
            let b = drawn(d, bx, scope, p).0->0;
            &&& b.id == bx
            &&& b.kind == d.nodes@[bx as int].kind
            &&& b.path == d.nodes@[bx as int].path@
        }),
{
}

// --- Primitives ---------------------------------------------------------------

proof fn lemma_operand_pin(d: Document, g: u32, k: nat, p: Pins, j: int)
    requires
        0 <= j < k <= incident(d, g).len(),
        p.no_duplicates(),
        edge_at(d, incident(d, g)[j]).port == g,
        edge_at(d, incident(d, g)[j]).dir != Dir::Out,
    ensures
        ({
            let (ports, q) = operand_pins(d, g, k, p);
            let sig = folded(d, edge_at(d, incident(d, g)[j]).endpoint).0;
            &&& q.contains((g, sig))
            &&& shows_pin(ports, pin_id(q, g, sig), Side::West, d, sig)
        }),
    decreases k,
{
    let (v, q) = operand_pins(d, g, (k - 1) as nat, p);
    let (ports, r) = operand_pins(d, g, k, p);
    let e = edge_at(d, incident(d, g)[j]);
    let f = edge_at(d, incident(d, g)[k - 1]);
    let sig = folded(d, e.endpoint).0;
    lemma_operand_pins(d, g, (k - 1) as nat, p);
    lemma_with_pin(q, g, folded(d, f.endpoint).0);
    if j == k - 1 {
        lemma_pin_stays(q, r, g, sig);
        assert(ports[v.len() as int].id == pin_id(r, g, sig));
    } else {
        lemma_operand_pin(d, g, (k - 1) as nat, p, j);
        lemma_pin_kept(q, r, g, sig);
        if f.port == g && f.dir != Dir::Out {
            lemma_shows_more(v, ports.last(), pin_id(q, g, sig), Side::West, d, sig);
            assert(ports == v.push(ports.last()));
        }
    }
}

/// A primitive has a pin to the west for each of its inputs and one to the east for its
/// result.
pub proof fn law_primitives_have_inputs_and_a_result(
    d: Document,
    g: u32,
    scope: Seq<char>,
    p: Pins,
    i: int,
)
    requires
        is_primitive(d, g),
        p.no_duplicates(),
        0 <= i < d.edges@.len() <= 0x1_0000_0000,
        d.edges@[i].port == g,
    ensures
        ({
            let (b, q) = drawn(d, g, scope, p);
            let ports = b->0.ports;
            &&& b is Some
            &&& q.contains((g, g))
            &&& ports.len() > 0 && ports.last().id == pin_id(q, g, g) && ports.last().side
                == Side::East
            &&& d.edges@[i].dir != Dir::Out ==> ({
                let sig = folded(d, d.edges@[i].endpoint).0;
                q.contains((g, sig)) && shows_pin(ports, pin_id(q, g, sig), Side::West, d, sig)
            })
        }),
{
    law_nodes_list_their_edges(d, g, i as u32);
    let at = incident(d, g);
    let j = choose|j: int| 0 <= j < at.len() && at[j] == i as u32;
    let (v, r) = operand_pins(d, g, at.len(), p);
    let q = drawn(d, g, scope, p).1;
    lemma_operand_pins(d, g, at.len(), p);
    lemma_with_pin(r, g, g);
    lemma_pin_stays(r, q, g, g);
    if d.edges@[i].dir != Dir::Out {
        let sig = folded(d, d.edges@[i].endpoint).0;
        lemma_operand_pin(d, g, at.len(), p, j);
        lemma_pin_kept(r, q, g, sig);
        let ports = drawn(d, g, scope, p).0->0.ports;
        lemma_shows_more(v, ports.last(), pin_id(r, g, sig), Side::West, d, sig);
        assert(ports == v.push(ports.last()));
    }
}

/// An input of a primitive that is no primitive itself is shown as it is.
pub proof fn law_operands_are_shown_as_they_are(d: Document, id: u32)
    requires
        !is_primitive(d, id),
    ensures
        folded(d, id) == (id, false),
{
}

// --- Instances ----------------------------------------------------------------

/// The side of a port that declares its direction: outputs of an instance to the east, inputs
/// to the west.
pub open spec fn port_side(dir: Option<Dir>, side: Side) -> bool {
    dir is Some ==> side == side_by(dir->0)
}

proof fn lemma_child_pin(d: Document, cs: Seq<u32>, n: nat, c: u32)
    requires
        n <= cs.len(),
        cs.take(n as int).contains(c),
        c < d.nodes@.len(),
        d.nodes@[c as int].kind == NodeKind::Port,
    ensures
        exists|k: int|
            0 <= k < child_pins(d, cs, false, n).len() && (#[trigger] child_pins(
                d,
                cs,
                false,
                n,
            )[k]).id == c && named_after(child_pins(d, cs, false, n)[k], d, c) && port_side(
                d.nodes@[c as int].dir,
                child_pins(d, cs, false, n)[k].side,
            ),
    decreases n,
{
    assert(cs.take(n as int).len() == n);
    let r = child_pins(d, cs, false, (n - 1) as nat);
    let all = child_pins(d, cs, false, n);
    if cs[n - 1] == c {
        assert(all[r.len() as int] == child_pin(d, c, false));
    } else {
        let j = choose|j: int| 0 <= j < n && cs.take(n as int)[j] == c;
        assert(cs.take(n - 1)[j] == c);
        lemma_child_pin(d, cs, (n - 1) as nat, c);
        let k = choose|k: int|
            0 <= k < r.len() && (#[trigger] r[k]).id == c && named_after(r[k], d, c) && port_side(
                d.nodes@[c as int].dir,
                r[k].side,
            );
        assert(all[k] == r[k]);
    }
}

/// An instance has a pin for each port that it lists, on the side of the port's direction.
pub proof fn law_instances_have_a_pin_for_each_port(
    d: Document,
    bx: u32,
    scope: Seq<char>,
    p: Pins,
    c: u32,
)
    requires
        bx < d.nodes@.len(),
        d.nodes@[bx as int].kind == NodeKind::Instance,
        d.nodes@[bx as int].children@.contains(c),
        c < d.nodes@.len(),
        d.nodes@[c as int].kind == NodeKind::Port,
    ensures
        ({
            let b = drawn(d, bx, scope, p).0;
            &&& b is Some
            &&& exists|k: int|
                0 <= k < b->0.ports.len() && (#[trigger] b->0.ports[k]).id == c && named_after(
                    b->0.ports[k],
                    d,
                    c,
                ) && port_side(d.nodes@[c as int].dir, b->0.ports[k].side)
        }),
{
    let n = d.nodes@[bx as int];
    let cs = n.children@;
    assert(cs.take(cs.len() as int) =~= cs);
    lemma_child_pin(d, cs, cs.len(), c);
    let own = child_pins(d, cs, false, cs.len());
    let k = choose|k: int|
        0 <= k < own.len() && (#[trigger] own[k]).id == c && named_after(own[k], d, c) && port_side(
            d.nodes@[c as int].dir,
            own[k].side,
        );
    let ports = drawn(d, bx, scope, p).0->0.ports;
    assert(ports == own + bundle_pins(d, cs, cs.len()));
    assert(ports[k] == own[k]);
}

/// The frame pin of a scope's own port is one pin for the port, facing the design: an input
/// to the east, as it drives the design, and an output to the west.
pub proof fn law_frame_pins_face_the_design(d: Document, p: u32)
    requires
        p < d.nodes@.len(),
    ensures
        ({
            let b = frame_pin(d, p);
            &&& b is Some
            &&& b->0.id == p && b->0.kind == NodeKind::Port && b->0.ports.len() == 1
            &&& b->0.ports[0].id == p && named_after(b->0.ports[0], d, p)
            &&& d.nodes@[p as int].dir == Some(Dir::Out) ==> b->0.ports[0].side == Side::West
            &&& d.nodes@[p as int].dir == Some(Dir::In) ==> b->0.ports[0].side == Side::East
        }),
{
}

} // verus!
