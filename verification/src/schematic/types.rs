//! The parts of a schematic graph, and their mathematical models.

use crate::model::{Dir, NodeId, NodeKind};
use crate::text::opt_chars;
use vstd::prelude::*;

verus! {

/// Which border a port sits on.
#[derive(Debug, Clone, Copy, PartialEq, Eq, Structural)]
pub enum Side {
    West,
    East,
}

/// Structural role of a synthesized pin.
#[derive(Debug, Clone, Copy, PartialEq, Eq, Structural)]
pub enum PinRole {
    Clk,
    Reset,
    Enable,
    /// Address input of a memory.
    Addr,
    /// Data input of a memory.
    Din,
    /// Data output of a memory.
    Dout,
    /// Write-enable of a memory.
    Write,
    /// Read-enable of a memory.
    Read,
    /// Select input of a multiplexer.
    Sel,
    /// An inverted gate input.
    Inv,
}

/// How finely combinational logic is drawn.
#[derive(Debug, Clone, Copy, PartialEq, Eq, Structural)]
pub enum Projection {
    /// One box per source construct.
    ProcessLevel,
    /// Combinational blocks dissolved into their primitives.
    GateLevel,
}

impl Default for Projection {
    fn default() -> (r: Self)
        ensures
            r == Projection::ProcessLevel,
    {
        Projection::ProcessLevel
    }
}

/// A pin on a box.
#[derive(Debug, Clone, PartialEq, Eq)]
pub struct SchPort {
    pub id: NodeId,
    pub name: String,
    pub side: Side,
    /// Path of the signal that the pin stands for; empty for a synthetic pin.
    pub path: String,
    /// Bit range, or `None` for a scalar.
    pub width: Option<String>,
    /// Structural role of a synthesized pin.
    pub role: Option<PinRole>,
    /// Whether the pin stands for a whole interface connection.
    pub bundle: bool,
    /// Whether nothing connects to the pin.
    pub dangling: bool,
    /// Literal or parameter value tied to this input.
    pub constant: Option<String>,
    /// Connections that a fan-out cap dropped.
    pub more: Option<u32>,
}

/// A box in the schematic.
#[derive(Debug, Clone, PartialEq, Eq)]
pub struct SchNode {
    pub id: NodeId,
    pub kind: NodeKind,
    pub label: String,
    pub path: String,
    pub expandable: bool,
    pub ports: Vec<SchPort>,
    /// Definition type of an instance.
    pub module: Option<String>,
    /// Literal of a constant source.
    pub constant: Option<String>,
    /// View of a modport-qualified interface port.
    pub modport: Option<String>,
    /// The instance that contains the box, in a graph that spans scopes.
    pub parent: Option<NodeId>,
    /// Word count of a memory.
    pub mem_depth: Option<u32>,
    /// Initializer of a memory.
    pub init_source: Option<String>,
}

/// A wire between two pins or boxes.
#[derive(Debug, Clone, PartialEq, Eq)]
pub struct SchEdge {
    pub id: u32,
    pub source: NodeId,
    pub target: NodeId,
    /// Label of the connecting signal.
    pub net: Option<String>,
    /// Path of the connecting signal.
    pub net_path: Option<String>,
}

/// A graph for one scope or cone.
#[derive(Debug, Clone, PartialEq, Eq)]
pub struct SchematicGraph {
    pub root: String,
    pub nodes: Vec<SchNode>,
    pub edges: Vec<SchEdge>,
    /// Whether a traversal cap engaged.
    pub truncated: bool,
}

/// A pin by its contents.
#[verifier::ext_equal]
pub struct PortV {
    pub id: u32,
    pub name: Seq<char>,
    pub side: Side,
    pub path: Seq<char>,
    pub width: Option<Seq<char>>,
    pub role: Option<PinRole>,
    pub bundle: bool,
    pub dangling: bool,
    pub constant: Option<Seq<char>>,
    pub more: Option<u32>,
}

/// A box by its contents.
#[verifier::ext_equal]
pub struct NodeV {
    pub id: u32,
    pub kind: NodeKind,
    pub label: Seq<char>,
    pub path: Seq<char>,
    pub expandable: bool,
    pub ports: Seq<PortV>,
    pub module: Option<Seq<char>>,
    pub constant: Option<Seq<char>>,
    pub modport: Option<Seq<char>>,
    pub parent: Option<u32>,
    pub mem_depth: Option<u32>,
    pub init_source: Option<Seq<char>>,
}

/// A wire by its contents.
#[verifier::ext_equal]
pub struct EdgeV {
    pub id: u32,
    pub source: u32,
    pub target: u32,
    pub net: Option<Seq<char>>,
    pub net_path: Option<Seq<char>>,
}

/// A graph by its contents.
#[verifier::ext_equal]
pub struct GraphV {
    pub root: Seq<char>,
    pub nodes: Seq<NodeV>,
    pub edges: Seq<EdgeV>,
    pub truncated: bool,
}

impl View for SchPort {
    type V = PortV;

    open spec fn view(&self) -> PortV {
        PortV {
            id: self.id,
            name: self.name@,
            side: self.side,
            path: self.path@,
            width: opt_chars(self.width),
            role: self.role,
            bundle: self.bundle,
            dangling: self.dangling,
            constant: opt_chars(self.constant),
            more: self.more,
        }
    }
}

/// Pins by their contents.
pub open spec fn port_views(s: Seq<SchPort>) -> Seq<PortV> {
    s.map_values(|p: SchPort| p@)
}

impl View for SchNode {
    type V = NodeV;

    open spec fn view(&self) -> NodeV {
        NodeV {
            id: self.id,
            kind: self.kind,
            label: self.label@,
            path: self.path@,
            expandable: self.expandable,
            ports: port_views(self.ports@),
            module: opt_chars(self.module),
            constant: opt_chars(self.constant),
            modport: opt_chars(self.modport),
            parent: self.parent,
            mem_depth: self.mem_depth,
            init_source: opt_chars(self.init_source),
        }
    }
}

impl View for SchEdge {
    type V = EdgeV;

    open spec fn view(&self) -> EdgeV {
        EdgeV {
            id: self.id,
            source: self.source,
            target: self.target,
            net: opt_chars(self.net),
            net_path: opt_chars(self.net_path),
        }
    }
}

/// Boxes by their contents.
pub open spec fn node_views(s: Seq<SchNode>) -> Seq<NodeV> {
    s.map_values(|n: SchNode| n@)
}

/// Wires by their contents.
pub open spec fn edge_views(s: Seq<SchEdge>) -> Seq<EdgeV> {
    s.map_values(|e: SchEdge| e@)
}

impl View for SchematicGraph {
    type V = GraphV;

    open spec fn view(&self) -> GraphV {
        GraphV {
            root: self.root@,
            nodes: node_views(self.nodes@),
            edges: edge_views(self.edges@),
            truncated: self.truncated,
        }
    }
}

pub broadcast proof fn lemma_port_views_push(s: Seq<SchPort>, p: SchPort)
    ensures
        #[trigger] port_views(s.push(p)) == port_views(s).push(p@),
{
    assert(port_views(s.push(p)) =~= port_views(s).push(p@));
}

pub broadcast proof fn lemma_node_views_push(s: Seq<SchNode>, n: SchNode)
    ensures
        #[trigger] node_views(s.push(n)) == node_views(s).push(n@),
{
    assert(node_views(s.push(n)) =~= node_views(s).push(n@));
}

pub broadcast proof fn lemma_edge_views_push(s: Seq<SchEdge>, e: SchEdge)
    ensures
        #[trigger] edge_views(s.push(e)) == edge_views(s).push(e@),
{
    assert(edge_views(s.push(e)) =~= edge_views(s).push(e@));
}

pub broadcast proof fn lemma_views_empty()
    ensures
        #[trigger] port_views(Seq::empty()) == Seq::<PortV>::empty(),
        #[trigger] node_views(Seq::empty()) == Seq::<NodeV>::empty(),
        #[trigger] edge_views(Seq::empty()) == Seq::<EdgeV>::empty(),
{
    assert(port_views(Seq::empty()) =~= Seq::<PortV>::empty());
    assert(node_views(Seq::empty()) =~= Seq::<NodeV>::empty());
    assert(edge_views(Seq::empty()) =~= Seq::<EdgeV>::empty());
}

pub broadcast group group_views {
    lemma_port_views_push,
    lemma_node_views_push,
    lemma_edge_views_push,
    lemma_views_empty,
}

/// A pin without width, role, tie or marks.
pub open spec fn bare_pin(id: u32, name: Seq<char>, side: Side, path: Seq<char>) -> PortV {
    PortV {
        id,
        name,
        side,
        path,
        width: None,
        role: None,
        bundle: false,
        dangling: false,
        constant: None,
        more: None,
    }
}

/// A box with the given pins and nothing else on it.
pub open spec fn bare_box(
    id: u32,
    kind: NodeKind,
    label: Seq<char>,
    path: Seq<char>,
    ports: Seq<PortV>,
) -> NodeV {
    NodeV {
        id,
        kind,
        label,
        path,
        expandable: false,
        ports,
        module: None,
        constant: None,
        modport: None,
        parent: None,
        mem_depth: None,
        init_source: None,
    }
}

impl SchPort {
    /// A pin without width, role, tie or marks.
    pub fn bare(id: NodeId, name: String, side: Side, path: String) -> (r: SchPort)
        ensures
            r@ == bare_pin(id, name@, side, path@),
    {
        SchPort {
            id,
            name,
            side,
            path,
            width: None,
            role: None,
            bundle: false,
            dangling: false,
            constant: None,
            more: None,
        }
    }
}

impl SchNode {
    /// A box with the given pins and nothing else on it.
    pub fn bare(
        id: NodeId,
        kind: NodeKind,
        label: String,
        path: String,
        ports: Vec<SchPort>,
    ) -> (r: SchNode)
        ensures
            r@ == bare_box(id, kind, label@, path@, port_views(ports@)),
    {
        SchNode {
            id,
            kind,
            label,
            path,
            expandable: false,
            ports,
            module: None,
            constant: None,
            modport: None,
            parent: None,
            mem_depth: None,
            init_source: None,
        }
    }
}

/// The border of a pin with direction `dir`.
pub open spec fn side_for(dir: Dir) -> Side {
    if dir == Dir::Out {
        Side::East
    } else {
        Side::West
    }
}

/// The border of a boundary pin, which faces the design.
pub open spec fn facing_side(dir: Dir) -> Side {
    if dir == Dir::Out {
        Side::West
    } else {
        Side::East
    }
}

pub fn side_of(dir: Dir) -> (r: Side)
    ensures
        r == side_for(dir),
{
    match dir {
        Dir::Out => Side::East,
        _ => Side::West,
    }
}

pub fn boundary_side(dir: Dir) -> (r: Side)
    ensures
        r == facing_side(dir),
{
    match dir {
        Dir::Out => Side::West,
        _ => Side::East,
    }
}

/// Traversal budget of a cone.
#[derive(Debug, Clone, Copy, PartialEq, Eq, Structural)]
pub struct ConeLimits {
    /// Maximum hops from the seed.
    pub depth: usize,
    /// Maximum boxes reached through one signal per hop.
    pub fanout: usize,
    /// Maximum boxes in the whole graph.
    pub boxes: usize,
}

impl Default for ConeLimits {
    fn default() -> (r: Self)
        ensures
            r == (ConeLimits { depth: 4, fanout: 32, boxes: 500 }),
    {
        ConeLimits { depth: 4, fanout: 32, boxes: 500 }
    }
}

impl ConeLimits {
    /// Default caps with an explicit hop count.
    pub fn depth(depth: usize) -> (r: Self)
        ensures
            r == (ConeLimits { depth, fanout: 32, boxes: 500 }),
    {
        let d: ConeLimits = ConeLimits::default();
        ConeLimits { depth, fanout: d.fanout, boxes: d.boxes }
    }
}

/// One expansion request of a trace.
#[derive(Debug, Clone, Copy, PartialEq, Eq, Structural)]
pub struct TraceStep {
    /// The node to expand from.
    pub seed: NodeId,
    /// Which way to follow connectivity.
    pub dir: Dir,
    /// Hops for this step alone.
    pub depth: usize,
    /// Overrides the fan-out cap for this step.
    pub fanout: Option<usize>,
}

} // verus!
