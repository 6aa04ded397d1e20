//! What pins say of the signals behind them, and what boxes are labelled.

use crate::model::{
    edge_at, incident, Dir, Document, Edge, MemPort, MuxPort, Node, NodeKind,
};
use crate::model_laws::law_nodes_list_their_edges;
use crate::schematic::box_laws::{is_logic, is_primitive};
use crate::schematic::boxes::{
    accesses, child_pin, drawn, gives_pin, logic_pins, operand_pins, signal_pin,
};
use crate::schematic::kinds::{
    edge_count, edge_from, first_edge, foldable, folded, inline_at, passes, reader_of, EdgeTest,
};
use crate::schematic::labels::width_in;
use crate::schematic::pins::{pin_id, Pins};
use crate::schematic::types::{PinRole, PortV, Projection};
use vstd::prelude::*;

verus! {

// --- Edges of a node ----------------------------------------------------------

proof fn lemma_edge_from(d: Document, id: u32, t: EdgeTest, from: int)
    requires
        0 <= from <= incident(d, id).len(),
    ensures
        match edge_from(d, id, t, from) {
            Some(e) => exists|k: int|
                from <= k < incident(d, id).len() && e == edge_at(
                    d,
                    #[trigger] incident(d, id)[k],
                ) && passes(t, e, id),
            None => forall|k: int|
                from <= k < incident(d, id).len() ==> !passes(
                    t,
                    edge_at(d, #[trigger] incident(d, id)[k]),
                    id,
                ),
        },
    decreases incident(d, id).len() - from,
{
    if from < incident(d, id).len() {
        if !passes(t, edge_at(d, incident(d, id)[from]), id) {
            lemma_edge_from(d, id, t, from + 1);
            if edge_from(d, id, t, from + 1) is Some {
                let e = edge_from(d, id, t, from + 1)->0;
                let k = choose|k: int|
                    from + 1 <= k < incident(d, id).len() && e == edge_at(
                        d,
                        #[trigger] incident(d, id)[k],
                    ) && passes(t, e, id);
                assert(e == edge_at(d, incident(d, id)[k]));
            }
        } else {
            assert(edge_from(d, id, t, from)->0 == edge_at(d, incident(d, id)[from]));
        }
    }
}

/// Whether an edge of a node is of one sort: the node's own, one that gives it a value, one
/// that it drives, or one that reads it.
pub open spec fn sort_of(t: EdgeTest, e: Edge, id: u32) -> bool {
    match t {
        EdgeTest::AtPort => e.port == id,
        EdgeTest::Feeds => e.port == id && (e.dir == Dir::In || e.dir == Dir::Inout),
        EdgeTest::Drives => e.port == id && e.dir == Dir::Out,
        EdgeTest::Reads => e.endpoint == id && e.dir == Dir::In,
    }
}

/// A node has an edge of a sort where one of the design's edges is one.
pub proof fn law_nodes_know_their_edges(d: Document, id: u32, t: EdgeTest)
    requires
        d.edges@.len() <= 0x1_0000_0000,
    ensures
        first_edge(d, id, t) is Some <==> exists|i: int|
            0 <= i < d.edges@.len() && sort_of(t, #[trigger] d.edges@[i], id),
        first_edge(d, id, t) is Some ==> d.edges@.contains(first_edge(d, id, t)->0) && sort_of(
            t,
            first_edge(d, id, t)->0,
            id,
        ),
{
    lemma_edge_from(d, id, t, 0);
    let at = incident(d, id);
    if first_edge(d, id, t) is Some {
        let e = first_edge(d, id, t)->0;
        let k = choose|k: int|
            0 <= k < at.len() && e == edge_at(d, #[trigger] at[k]) && passes(t, e, id);
        assert(at.contains(at[k]));
        law_nodes_list_their_edges(d, id, at[k]);
        assert(sort_of(t, d.edges@[at[k] as int], id));
    }
    if exists|i: int| 0 <= i < d.edges@.len() && sort_of(t, #[trigger] d.edges@[i], id) {
        let i = choose|i: int| 0 <= i < d.edges@.len() && sort_of(t, #[trigger] d.edges@[i], id);
        law_nodes_list_their_edges(d, id, i as u32);
        let k = choose|k: int| 0 <= k < at.len() && at[k] == i as u32;
        assert(passes(t, edge_at(d, at[k]), id));
    }
}

proof fn lemma_edge_count(d: Document, id: u32, t: EdgeTest, n: nat)
    requires
        n <= incident(d, id).len(),
    ensures
        edge_count(d, id, t, n) >= 1 <==> exists|k: int|
            0 <= k < n && passes(t, edge_at(d, #[trigger] incident(d, id)[k]), id),
        edge_count(d, id, t, n) >= 2 <==> exists|j: int, k: int|
            0 <= j < k < n && passes(t, edge_at(d, #[trigger] incident(d, id)[j]), id) && passes(
                t,
                edge_at(d, #[trigger] incident(d, id)[k]),
                id,
            ),
    decreases n,
{
    if n > 0 {
        lemma_edge_count(d, id, t, (n - 1) as nat);
        let at = incident(d, id);
        let last = passes(t, edge_at(d, at[n - 1]), id);
        if last && edge_count(d, id, t, (n - 1) as nat) >= 1 {
            let k = choose|k: int| 0 <= k < n - 1 && passes(t, edge_at(d, #[trigger] at[k]), id);
            assert(passes(t, edge_at(d, at[k]), id) && passes(t, edge_at(d, at[n - 1]), id));
        }
    }
}

/// Whether edge `i` reads a node, and no other edge does.
pub open spec fn only_reader(d: Document, id: u32, i: int) -> bool {
    &&& 0 <= i < d.edges@.len()
    &&& d.edges@[i].endpoint == id && d.edges@[i].dir == Dir::In
    &&& forall|j: int|
        0 <= j < d.edges@.len() && (#[trigger] d.edges@[j]).endpoint == id && d.edges@[j].dir
            == Dir::In ==> j == i
}

proof fn lemma_read_once(d: Document, id: u32)
    requires
        d.edges@.len() <= 0x1_0000_0000,
        edge_count(d, id, EdgeTest::Reads, incident(d, id).len()) == 1,
    ensures
        exists|i: int| #[trigger]
            only_reader(d, id, i) && first_edge(d, id, EdgeTest::Reads) == Some(d.edges@[i]),
{
    let at = incident(d, id);
    lemma_edge_count(d, id, EdgeTest::Reads, at.len());
    lemma_edge_from(d, id, EdgeTest::Reads, 0);
    let e = first_edge(d, id, EdgeTest::Reads)->0;
    let k = choose|k: int|
        0 <= k < at.len() && e == edge_at(d, #[trigger] at[k]) && passes(EdgeTest::Reads, e, id);
    let i = at[k] as int;
    assert(at.contains(at[k]));
    law_nodes_list_their_edges(d, id, at[k]);
    assert forall|j: int|
        0 <= j < d.edges@.len() && (#[trigger] d.edges@[j]).endpoint == id && d.edges@[j].dir
            == Dir::In implies j == i by {
        law_nodes_list_their_edges(d, id, j as u32);
        let m = choose|m: int| 0 <= m < at.len() && at[m] == j as u32;
        assert(passes(EdgeTest::Reads, edge_at(d, at[m]), id));
        assert(passes(EdgeTest::Reads, edge_at(d, at[k]), id));
    }
    assert(only_reader(d, id, i));
}

proof fn lemma_counted_once(d: Document, id: u32, i: int)
    requires
        d.edges@.len() <= 0x1_0000_0000,
        only_reader(d, id, i),
    ensures
        edge_count(d, id, EdgeTest::Reads, incident(d, id).len()) == 1,
{
    let at = incident(d, id);
    lemma_edge_count(d, id, EdgeTest::Reads, at.len());
    crate::order::lemma_ascending(crate::model::meeting(d.edges@, set![id]));
    law_nodes_list_their_edges(d, id, i as u32);
    let k = choose|k: int| 0 <= k < at.len() && at[k] == i as u32;
    assert(passes(EdgeTest::Reads, edge_at(d, at[k]), id));
    assert forall|m: int|
        0 <= m < at.len() && passes(
            EdgeTest::Reads,
            edge_at(d, #[trigger] at[m]),
            id,
        ) implies m == k by {
        assert(at.contains(at[m]));
        law_nodes_list_their_edges(d, id, at[m]);
        assert(d.edges@[at[m] as int].endpoint == id);
        if m < k {
            assert(at[m] < at[k]);
        } else if m > k {
            assert(at[k] < at[m]);
        }
    }
}

/// Whether a node drives a signal.
pub open spec fn drives_any(d: Document, id: u32) -> bool {
    exists|i: int|
        0 <= i < d.edges@.len() && (#[trigger] d.edges@[i]).port == id && d.edges@[i].dir
            == Dir::Out
}

/// Whether a node takes a value.
pub open spec fn takes_any(d: Document, id: u32) -> bool {
    exists|i: int|
        0 <= i < d.edges@.len() && (#[trigger] d.edges@[i]).port == id && d.edges@[i].dir
            != Dir::Out
}

proof fn lemma_drives(d: Document, id: u32)
    requires
        d.edges@.len() <= 0x1_0000_0000,
    ensures
        first_edge(d, id, EdgeTest::Drives) is Some <==> drives_any(d, id),
        first_edge(d, id, EdgeTest::Feeds) is Some <==> takes_any(d, id),
{
    law_nodes_know_their_edges(d, id, EdgeTest::Drives);
    law_nodes_know_their_edges(d, id, EdgeTest::Feeds);
    if drives_any(d, id) {
        let i = choose|i: int|
            0 <= i < d.edges@.len() && (#[trigger] d.edges@[i]).port == id && d.edges@[i].dir
                == Dir::Out;
        assert(sort_of(EdgeTest::Drives, d.edges@[i], id));
    }
    if first_edge(d, id, EdgeTest::Drives) is Some {
        let i = choose|i: int|
            0 <= i < d.edges@.len() && sort_of(EdgeTest::Drives, #[trigger] d.edges@[i], id);
        assert(d.edges@[i].port == id);
    }
    if takes_any(d, id) {
        let i = choose|i: int|
            0 <= i < d.edges@.len() && (#[trigger] d.edges@[i]).port == id && d.edges@[i].dir
                != Dir::Out;
        assert(sort_of(EdgeTest::Feeds, d.edges@[i], id));
    }
    if first_edge(d, id, EdgeTest::Feeds) is Some {
        let i = choose|i: int|
            0 <= i < d.edges@.len() && sort_of(EdgeTest::Feeds, #[trigger] d.edges@[i], id);
        assert(d.edges@[i].port == id);
    }
}

/// An inverter is folded into the pin of the primitive that reads it exactly where it drives
/// no signal, takes a value, and is read by one edge, of a primitive.
pub proof fn law_inverters_fold_into_their_reader(d: Document, id: u32)
    requires
        d.edges@.len() <= 0x1_0000_0000,
        id < d.nodes@.len(),
    ensures
        foldable(d, id) <==> d.nodes@[id as int].kind == NodeKind::Not && !drives_any(d, id)
            && takes_any(d, id) && exists|i: int| #[trigger]
            only_reader(d, id, i) && is_primitive(d, d.edges@[i].port),
{
    lemma_drives(d, id);
    if foldable(d, id) {
        lemma_read_once(d, id);
        let i = choose|i: int| #[trigger]
            only_reader(d, id, i) && first_edge(d, id, EdgeTest::Reads) == Some(d.edges@[i]);
        assert(is_primitive(d, d.edges@[i].port));
    }
    if exists|i: int| #[trigger] only_reader(d, id, i) && is_primitive(d, d.edges@[i].port) {
        let i = choose|i: int| #[trigger]
            only_reader(d, id, i) && is_primitive(d, d.edges@[i].port);
        lemma_counted_once(d, id, i);
        lemma_read_once(d, id);
        let j = choose|j: int| #[trigger]
            only_reader(d, id, j) && first_edge(d, id, EdgeTest::Reads) == Some(d.edges@[j]);
        assert(d.edges@[j].endpoint == id);
        assert(i == j);
    }
}

/// A folded inverter stands for what it inverts.
pub proof fn law_folded_inverters_stand_for_their_operand(d: Document, id: u32)
    requires
        d.edges@.len() <= 0x1_0000_0000,
        foldable(d, id),
    ensures
        folded(d, id).1,
        exists|i: int|
            0 <= i < d.edges@.len() && (#[trigger] d.edges@[i]).port == id && d.edges@[i].dir
                != Dir::Out && d.edges@[i].endpoint == folded(d, id).0,
        reader_of(d, id) is Some && is_primitive(d, reader_of(d, id)->0),
        exists|i: int|
            0 <= i < d.edges@.len() && (#[trigger] d.edges@[i]).endpoint == id && d.edges@[i].dir
                == Dir::In && reader_of(d, id) == Some(d.edges@[i].port),
        inline_at(d, id, Projection::GateLevel),
{
    law_nodes_know_their_edges(d, id, EdgeTest::Feeds);
    law_nodes_know_their_edges(d, id, EdgeTest::Reads);
    let e = first_edge(d, id, EdgeTest::Feeds)->0;
    let i = choose|i: int| 0 <= i < d.edges@.len() && d.edges@[i] == e;
    assert(d.edges@[i].port == id && d.edges@[i].endpoint == folded(d, id).0);
    let r = first_edge(d, id, EdgeTest::Reads)->0;
    let j = choose|j: int| 0 <= j < d.edges@.len() && d.edges@[j] == r;
    assert(d.edges@[j].endpoint == id);
}

/// Constants are drawn inside what they drive at every level, and signals never are.
pub proof fn law_constants_are_drawn_inside(d: Document, id: u32, projection: Projection)
    requires
        id < d.nodes@.len(),
    ensures
        d.nodes@[id as int].kind == NodeKind::Const ==> inline_at(d, id, projection),
        inline_at(d, id, projection) ==> d.nodes@[id as int].kind == NodeKind::Const || (
        d.nodes@[id as int].kind == NodeKind::Not && projection == Projection::GateLevel),
{
}

// --- Roles --------------------------------------------------------------------

/// Whether pins have one for a signal, with a role.
pub open spec fn has_role(ports: Seq<PortV>, d: Document, sig: u32, role: Option<PinRole>) -> bool {
    exists|k: int|
        0 <= k < ports.len() && (#[trigger] ports[k]).role == role && (sig < d.nodes@.len()
            ==> ports[k].path == d.nodes@[sig as int].path@ && ports[k].width == width_in(
            d,
            d.nodes@[sig as int].type_,
        ))
}

proof fn lemma_role_pushed(
    ports: Seq<PortV>,
    x: PortV,
    d: Document,
    sig: u32,
    role: Option<PinRole>,
)
    requires
        has_role(ports, d, sig, role),
    ensures
        has_role(ports.push(x), d, sig, role),
{
    let k = choose|k: int|
        0 <= k < ports.len() && (#[trigger] ports[k]).role == role && (sig < d.nodes@.len()
            ==> ports[k].path == d.nodes@[sig as int].path@ && ports[k].width == width_in(
            d,
            d.nodes@[sig as int].type_,
        ));
    assert(ports.push(x)[k] == ports[k]);
}

proof fn lemma_role(d: Document, bx: u32, n: Node, k: nat, p: Pins, j: int)
    requires
        0 <= j < k <= incident(d, bx).len(),
        gives_pin(d, bx, n, j),
    ensures
        has_role(
            logic_pins(d, bx, n, k, p).0,
            d,
            edge_at(d, incident(d, bx)[j]).endpoint,
            crate::schematic::boxes::role_of(d, n, edge_at(d, incident(d, bx)[j])),
        ),
    decreases k,
{
    let e = edge_at(d, incident(d, bx)[j]);
    let role = crate::schematic::boxes::role_of(d, n, e);
    let (v, q) = logic_pins(d, bx, n, (k - 1) as nat, p);
    let ports = logic_pins(d, bx, n, k, p).0;
    if j == k - 1 {
        assert(ports[v.len() as int] == signal_pin(
            d,
            pin_id(q, bx, e.endpoint),
            e.endpoint,
            crate::schematic::types::side_for(e.dir),
            role,
        ));
    } else {
        lemma_role(d, bx, n, (k - 1) as nat, p, j);
        if gives_pin(d, bx, n, k - 1) {
            lemma_role_pushed(v, ports.last(), d, e.endpoint, role);
            assert(ports == v.push(ports.last()));
        }
    }
}

/// Whether a node is one that a name or path was given for.
pub open spec fn names(o: Option<String>, s: Seq<char>) -> bool {
    o is Some && o->0@ == s
}

/// The pin of an input of a register is marked as its reset where the signal's path is that
/// of the reset, and else as its clock where the signal's name is that of the clock; no other
/// pin of a register is marked.
pub proof fn law_registers_mark_clock_and_reset(
    d: Document,
    bx: u32,
    scope: Seq<char>,
    p: Pins,
    i: int,
)
    requires
        bx < d.nodes@.len(),
        d.nodes@[bx as int].kind == NodeKind::Ff,
        0 <= i < d.edges@.len() <= 0x1_0000_0000,
        d.edges@[i].port == bx,
        d.edges@[i].endpoint < d.nodes@.len(),
    ensures
        ({
            let n = d.nodes@[bx as int];
            let e = d.edges@[i];
            let s = d.nodes@[e.endpoint as int];
            let ports = drawn(d, bx, scope, p).0->0.ports;
            &&& e.dir != Dir::Out && names(n.reset, s.path@) ==> has_role(
                ports,
                d,
                e.endpoint,
                Some(PinRole::Reset),
            )
            &&& e.dir != Dir::Out && !names(n.reset, s.path@) && names(n.type_, s.name@)
                ==> has_role(ports, d, e.endpoint, Some(PinRole::Clk))
            &&& e.dir == Dir::Out || (!names(n.reset, s.path@) && !names(n.type_, s.name@))
                ==> has_role(ports, d, e.endpoint, None)
        }),
{
    let n = d.nodes@[bx as int];
    law_nodes_list_their_edges(d, bx, i as u32);
    let at = incident(d, bx);
    let j = choose|j: int| 0 <= j < at.len() && at[j] == i as u32;
    assert(gives_pin(d, bx, n, j));
    lemma_role(d, bx, n, at.len(), p, j);
}

/// The pin of an input of a latch is marked as its enable where the signal's path is that of
/// the enable, and no other pin of a latch is marked.
pub proof fn law_latches_mark_their_enable(
    d: Document,
    bx: u32,
    scope: Seq<char>,
    p: Pins,
    i: int,
)
    requires
        bx < d.nodes@.len(),
        d.nodes@[bx as int].kind == NodeKind::Latch,
        0 <= i < d.edges@.len() <= 0x1_0000_0000,
        d.edges@[i].port == bx,
        d.edges@[i].endpoint < d.nodes@.len(),
    ensures
        ({
            let n = d.nodes@[bx as int];
            let e = d.edges@[i];
            let s = d.nodes@[e.endpoint as int];
            has_role(
                drawn(d, bx, scope, p).0->0.ports,
                d,
                e.endpoint,
                if e.dir != Dir::Out && names(n.enable, s.path@) {
                    Some(PinRole::Enable)
                } else {
                    None
                },
            )
        }),
{
    let n = d.nodes@[bx as int];
    law_nodes_list_their_edges(d, bx, i as u32);
    let at = incident(d, bx);
    let j = choose|j: int| 0 <= j < at.len() && at[j] == i as u32;
    assert(gives_pin(d, bx, n, j));
    lemma_role(d, bx, n, at.len(), p, j);
}

proof fn lemma_first_access(d: Document, bx: u32, n: Node, j: int) -> (k: int)
    requires
        0 <= j < incident(d, bx).len(),
        n.kind == NodeKind::Memory,
        accesses(d, bx, j),
    ensures
        0 <= k <= j,
        gives_pin(d, bx, n, k),
        edge_at(d, incident(d, bx)[k]).endpoint == edge_at(d, incident(d, bx)[j]).endpoint,
    decreases j,
{
    if gives_pin(d, bx, n, j) {
        j
    } else {
        let i = choose|i: int|
            0 <= i < j && #[trigger] accesses(d, bx, i) && edge_at(d, incident(d, bx)[i]).endpoint
                == edge_at(d, incident(d, bx)[j]).endpoint;
        lemma_first_access(d, bx, n, i)
    }
}

/// A memory has a pin for each signal that it is accessed by, marked as its address, the
/// value written or the value read, by one of the accesses.
pub proof fn law_memories_mark_their_accesses(
    d: Document,
    bx: u32,
    scope: Seq<char>,
    p: Pins,
    i: int,
)
    requires
        bx < d.nodes@.len(),
        d.nodes@[bx as int].kind == NodeKind::Memory,
        0 <= i < d.edges@.len() <= 0x1_0000_0000,
        d.edges@[i].port == bx,
        d.edges@[i].mem_port is Some,
    ensures
        exists|k: int|
            {
                &&& 0 <= k <= i
                &&& (#[trigger] d.edges@[k]).port == bx
                &&& d.edges@[k].endpoint == d.edges@[i].endpoint
                &&& d.edges@[k].mem_port is Some
                &&& has_role(
                    drawn(d, bx, scope, p).0->0.ports,
                    d,
                    d.edges@[i].endpoint,
                    Some(
                        match d.edges@[k].mem_port->0 {
                            MemPort::Addr => PinRole::Addr,
                            MemPort::Din => PinRole::Din,
                            MemPort::Dout => PinRole::Dout,
                        },
                    ),
                )
            },
{
    let n = d.nodes@[bx as int];
    law_nodes_list_their_edges(d, bx, i as u32);
    let at = incident(d, bx);
    crate::order::lemma_ascending(crate::model::meeting(d.edges@, set![bx]));
    let j = choose|j: int| 0 <= j < at.len() && at[j] == i as u32;
    assert(accesses(d, bx, j));
    let m = lemma_first_access(d, bx, n, j);
    lemma_role(d, bx, n, at.len(), p, m);
    if m < j {
        assert(at[m] < at[j]);
    }
    assert(d.edges@[at[m] as int].port == bx);
}

// --- Primitives ---------------------------------------------------------------

/// Whether pins have one for an operand, with a role and the value tied to the operand.
pub open spec fn has_operand(
    ports: Seq<PortV>,
    d: Document,
    sig: u32,
    role: Option<PinRole>,
) -> bool {
    exists|k: int|
        0 <= k < ports.len() && (#[trigger] ports[k]).role == role && (sig < d.nodes@.len()
            ==> ports[k].path == d.nodes@[sig as int].path@ && (
        d.nodes@[sig as int].const_value is Some ==> ports[k].constant == Some(
            d.nodes@[sig as int].const_value->0@,
        )) && (d.nodes@[sig as int].const_value is None ==> ports[k].constant is None))
}

proof fn lemma_operand(d: Document, g: u32, k: nat, p: Pins, j: int)
    requires
        0 <= j < k <= incident(d, g).len(),
        edge_at(d, incident(d, g)[j]).port == g,
        edge_at(d, incident(d, g)[j]).dir != Dir::Out,
    ensures
        ({
            let e = edge_at(d, incident(d, g)[j]);
            has_operand(
                operand_pins(d, g, k, p).0,
                d,
                folded(d, e.endpoint).0,
                crate::schematic::boxes::operand_role(e, folded(d, e.endpoint).1),
            )
        }),
    decreases k,
{
    let e = edge_at(d, incident(d, g)[j]);
    let sig = folded(d, e.endpoint).0;
    let role = crate::schematic::boxes::operand_role(e, folded(d, e.endpoint).1);
    let v = operand_pins(d, g, (k - 1) as nat, p).0;
    let ports = operand_pins(d, g, k, p).0;
    if j == k - 1 {
        assert(ports[v.len() as int].role == role);
    } else {
        lemma_operand(d, g, (k - 1) as nat, p, j);
        let m = choose|m: int|
            0 <= m < v.len() && (#[trigger] v[m]).role == role && (sig < d.nodes@.len() ==> v[m].path
                == d.nodes@[sig as int].path@ && (d.nodes@[sig as int].const_value is Some
                ==> v[m].constant == Some(d.nodes@[sig as int].const_value->0@)) && (
            d.nodes@[sig as int].const_value is None ==> v[m].constant is None));
        assert(ports[m] == v[m]);
    }
}

/// The pin of a primitive's input is marked as the selector where the edge is the selector's,
/// and else as inverted where an inverter is folded into it; it shows the value tied to it.
pub proof fn law_primitives_mark_their_inputs(
    d: Document,
    g: u32,
    scope: Seq<char>,
    p: Pins,
    i: int,
)
    requires
        is_primitive(d, g),
        0 <= i < d.edges@.len() <= 0x1_0000_0000,
        d.edges@[i].port == g,
        d.edges@[i].dir != Dir::Out,
    ensures
        ({
            let e = d.edges@[i];
            has_operand(
                drawn(d, g, scope, p).0->0.ports,
                d,
                folded(d, e.endpoint).0,
                if e.mux_port == Some(MuxPort::Sel) {
                    Some(PinRole::Sel)
                } else if foldable(d, e.endpoint) {
                    Some(PinRole::Inv)
                } else {
                    None
                },
            )
        }),
{
    law_nodes_list_their_edges(d, g, i as u32);
    let at = incident(d, g);
    let j = choose|j: int| 0 <= j < at.len() && at[j] == i as u32;
    lemma_operand(d, g, at.len(), p, j);
    let v = operand_pins(d, g, at.len(), p).0;
    let ports = drawn(d, g, scope, p).0->0.ports;
    let e = d.edges@[i];
    let sig = folded(d, e.endpoint).0;
    let role = crate::schematic::boxes::operand_role(e, folded(d, e.endpoint).1);
    let m = choose|m: int|
        0 <= m < v.len() && (#[trigger] v[m]).role == role && (sig < d.nodes@.len() ==> v[m].path
            == d.nodes@[sig as int].path@ && (d.nodes@[sig as int].const_value is Some
            ==> v[m].constant == Some(d.nodes@[sig as int].const_value->0@)) && (
        d.nodes@[sig as int].const_value is None ==> v[m].constant is None));
    assert(ports == v.push(ports.last()));
    assert(ports[m] == v[m]);
}

// --- Ports of instances -------------------------------------------------------

/// The pin of an instance's port dangles exactly where no edge is the port's and no value is
/// tied to it.
pub proof fn law_unconnected_ports_dangle(d: Document, c: u32)
    requires
        d.edges@.len() <= 0x1_0000_0000,
        c < d.nodes@.len(),
    ensures
        child_pin(d, c, false).dangling <==> d.nodes@[c as int].const_value is None && forall|i: int|
            0 <= i < d.edges@.len() ==> (#[trigger] d.edges@[i]).port != c,
        child_pin(d, c, false).width == width_in(d, d.nodes@[c as int].type_),
{
    law_nodes_know_their_edges(d, c, EdgeTest::AtPort);
    if first_edge(d, c, EdgeTest::AtPort) is Some {
        let i = choose|i: int|
            0 <= i < d.edges@.len() && sort_of(EdgeTest::AtPort, #[trigger] d.edges@[i], c);
        assert(d.edges@[i].port == c);
    } else {
        assert forall|i: int| 0 <= i < d.edges@.len() implies (#[trigger] d.edges@[i]).port != c by {
            assert(!sort_of(EdgeTest::AtPort, d.edges@[i], c));
        }
    }
}

// --- Labels -------------------------------------------------------------------

/// Processes, latches, assignments and unnamed registers are labelled by what they are.
pub proof fn law_logic_is_labelled_by_what_it_is(d: Document, bx: u32, scope: Seq<char>, p: Pins)
    requires
        bx < d.nodes@.len(),
    ensures
        ({
            let n = d.nodes@[bx as int];
            let b = drawn(d, bx, scope, p).0->0;
            &&& n.kind == NodeKind::Comb ==> b.label == "comb"@
            &&& n.kind == NodeKind::Latch ==> b.label == "latch"@
            &&& n.kind == NodeKind::Assign ==> b.label == "assign"@
            &&& n.kind == NodeKind::Ff && n.name@.len() == 0 ==> b.label == "FF"@
            &&& is_primitive(d, bx) && n.op is Some ==> b.label == n.op->0@
            &&& is_primitive(d, bx) && n.op is None ==> b.label == n.name@
        }),
{
    reveal_strlit("comb");
    reveal_strlit("latch");
    reveal_strlit("assign");
    reveal_strlit("FF");
    let b = drawn(d, bx, scope, p).0->0;
    assert(seq!['c', 'o', 'm', 'b'] =~= "comb"@);
    assert(seq!['l', 'a', 't', 'c', 'h'] =~= "latch"@);
    assert(seq!['a', 's', 's', 'i', 'g', 'n'] =~= "assign"@);
    assert(seq!['F', 'F'] =~= "FF"@);
}

/// A named register, a memory and an instance are labelled by their path as seen from the
/// scope that they are drawn in.
pub proof fn law_named_boxes_are_labelled_by_their_path(
    d: Document,
    bx: u32,
    scope: Seq<char>,
    rest: Seq<char>,
    p: Pins,
)
    requires
        bx < d.nodes@.len(),
        d.nodes@[bx as int].path@ == scope + seq!['.'] + rest,
        d.nodes@[bx as int].kind == NodeKind::Instance || d.nodes@[bx as int].kind
            == NodeKind::Memory || (d.nodes@[bx as int].kind == NodeKind::Ff
            && d.nodes@[bx as int].name@.len() > 0),
    ensures
        drawn(d, bx, scope, p).0->0.label == rest,
{
    crate::schematic::label_laws::law_labels_leave_their_scope_out(scope, rest);
}

/// An instance can always be opened, and a memory shows its depth and what it starts with.
pub proof fn law_boxes_show_what_they_hold(d: Document, bx: u32, scope: Seq<char>, p: Pins)
    requires
        bx < d.nodes@.len(),
    ensures
        ({
            let n = d.nodes@[bx as int];
            let b = drawn(d, bx, scope, p).0->0;
            &&& n.kind == NodeKind::Instance ==> b.expandable
            &&& is_logic(d, bx) || is_primitive(d, bx) ==> !b.expandable
            &&& n.kind == NodeKind::Memory ==> b.mem_depth == n.mem_depth
            &&& n.kind == NodeKind::Memory && n.init_source is Some ==> b.init_source == Some(
                n.init_source->0@,
            )
            &&& n.kind == NodeKind::Interface && n.modport is Some ==> b.modport == Some(
                n.modport->0@,
            )
        }),
{
}

} // verus!
