//! The elaborated node model and the lookups over it.
//!
//! The hierarchy of nodes is the one source of truth; source text, schematic and
//! waveform are views of it. A [`Document`] holds the nodes, their connection
//! edges and their source ranges; a [`Design`] adds the indices that make a
//! lookup by path, by source offset or by connection cheap.

use crate::groups::{lemma_under_push, under, Groups};
use crate::order::{ascending, increasing, lemma_ascending_unique};
use crate::paths::{ids_at, paths_in, PathIndex};
use crate::spans::{overlapping, Span, SpanIndex};
use crate::text::{dotted, same, strip_prefix, without_prefix};
use std::collections::BTreeMap;
use vstd::prelude::*;
use vstd::string::*;

verus! {

broadcast use {
    vstd::string::group_string_axioms,
    vstd::std_specs::btree::group_btree_axioms,
    vstd::laws_cmp::group_laws_cmp,
};

/// Index of a node within [`Document::nodes`].
pub type NodeId = u32;

/// Kinds of node.
#[derive(Debug, Clone, Copy, PartialEq, Eq, Hash, Structural)]
pub enum NodeKind {
    Instance,
    Net,
    Port,
    Var,
    Param,
    ModuleDef,
    GenBlock,
    /// Inferred sequential register.
    Ff,
    /// Combinational process.
    Comb,
    /// Level-sensitive latch.
    Latch,
    /// Continuous assignment.
    Assign,
    /// An interface instance (a signal bundle), or a modport-specialized interface
    /// port on a consumer.
    Interface,
    /// A named view of an interface bundle.
    Modport,
    /// A memory array.
    Memory,
    /// N-input AND.
    And,
    /// N-input OR.
    Or,
    /// N-input XOR.
    Xor,
    /// N-input XNOR.
    Xnor,
    /// N-input NAND.
    Nand,
    /// N-input NOR.
    Nor,
    /// Inverter.
    Not,
    /// Buffer.
    Buf,
    /// Adder.
    Add,
    /// Subtractor.
    Sub,
    /// Multiplier, divider, modulus or power; the operator is on [`Node::op`].
    Mul,
    /// Comparator; the operator is on [`Node::op`].
    Cmp,
    /// Shifter; the operator is on [`Node::op`].
    Shift,
    /// Multiplexer; its inputs are tagged on the edges by [`MuxPort`].
    Mux,
    /// A constant operand of a primitive, with its value on [`Node::const_value`].
    Const,
    /// A bit concatenation that feeds a primitive.
    Concat,
}

impl NodeKind {
    /// The name of a kind.
    pub open spec fn text(self) -> Seq<char> {
        match self {
            NodeKind::Instance => "Instance"@,
            NodeKind::Net => "Net"@,
            NodeKind::Port => "Port"@,
            NodeKind::Var => "Var"@,
            NodeKind::Param => "Param"@,
            NodeKind::ModuleDef => "ModuleDef"@,
            NodeKind::GenBlock => "GenBlock"@,
            NodeKind::Ff => "Ff"@,
            NodeKind::Comb => "Comb"@,
            NodeKind::Latch => "Latch"@,
            NodeKind::Assign => "Assign"@,
            NodeKind::Interface => "Interface"@,
            NodeKind::Modport => "Modport"@,
            NodeKind::Memory => "Memory"@,
            NodeKind::And => "And"@,
            NodeKind::Or => "Or"@,
            NodeKind::Xor => "Xor"@,
            NodeKind::Xnor => "Xnor"@,
            NodeKind::Nand => "Nand"@,
            NodeKind::Nor => "Nor"@,
            NodeKind::Not => "Not"@,
            NodeKind::Buf => "Buf"@,
            NodeKind::Add => "Add"@,
            NodeKind::Sub => "Sub"@,
            NodeKind::Mul => "Mul"@,
            NodeKind::Cmp => "Cmp"@,
            NodeKind::Shift => "Shift"@,
            NodeKind::Mux => "Mux"@,
            NodeKind::Const => "Const"@,
            NodeKind::Concat => "Concat"@,
        }
    }

    /// The name of a kind.
    pub fn name(self) -> (r: &'static str)
        ensures
            r@ == self.text(),
    {
        match self {
            NodeKind::Instance => "Instance",
            NodeKind::Net => "Net",
            NodeKind::Port => "Port",
            NodeKind::Var => "Var",
            NodeKind::Param => "Param",
            NodeKind::ModuleDef => "ModuleDef",
            NodeKind::GenBlock => "GenBlock",
            NodeKind::Ff => "Ff",
            NodeKind::Comb => "Comb",
            NodeKind::Latch => "Latch",
            NodeKind::Assign => "Assign",
            NodeKind::Interface => "Interface",
            NodeKind::Modport => "Modport",
            NodeKind::Memory => "Memory",
            NodeKind::And => "And",
            NodeKind::Or => "Or",
            NodeKind::Xor => "Xor",
            NodeKind::Xnor => "Xnor",
            NodeKind::Nand => "Nand",
            NodeKind::Nor => "Nor",
            NodeKind::Not => "Not",
            NodeKind::Buf => "Buf",
            NodeKind::Add => "Add",
            NodeKind::Sub => "Sub",
            NodeKind::Mul => "Mul",
            NodeKind::Cmp => "Cmp",
            NodeKind::Shift => "Shift",
            NodeKind::Mux => "Mux",
            NodeKind::Const => "Const",
            NodeKind::Concat => "Concat",
        }
    }
}

/// A point in a source file.
#[derive(Debug, Clone, Copy, PartialEq, Eq, Structural)]
pub struct Location {
    pub line: u32,
    pub col: u32,
    pub offset: u32,
}

/// A half-open source range, with `file` an id of [`Document::files`].
#[derive(Debug, Clone, Copy, PartialEq, Eq, Structural)]
pub struct Range {
    pub file: u32,
    pub start: Location,
    pub end: Location,
}

/// A span of generated code and the high-level span it came from.
#[derive(Debug, Clone, Copy, PartialEq, Eq, Structural)]
pub struct SourceMapEntry {
    /// Span in a generated file.
    pub generated: Range,
    /// Span in the high-level source file.
    pub source: Range,
}

/// What an identifier occurrence resolved to.
#[derive(Debug, Clone, Copy, PartialEq, Eq, Hash, Structural)]
pub enum NameClass {
    Module,
    Instance,
    Port,
    Signal,
    Param,
    Type,
    EnumMember,
    Function,
    Interface,
    Modport,
    Genvar,
}

/// One identifier occurrence in a source file.
#[derive(Debug, Clone, PartialEq, Eq)]
pub struct NameRef {
    pub file: u32,
    /// 1-based line.
    pub line: u32,
    /// 1-based byte column of the first character.
    pub col: u32,
    /// Byte offset, on the same basis as a node's `def_range`.
    pub offset: u32,
    /// Byte length.
    pub len: u32,
    pub class: NameClass,
    /// Symbol path relative to the enclosing scope; empty for the scope itself; a
    /// symbol outside the scope is stored absolute, with a leading `/`.
    pub rel: String,
}

impl NameRef {
    /// Byte range `[start, end)` of the occurrence.
    pub fn span(&self) -> (r: (usize, usize))
        requires
            self.offset + self.len <= u32::MAX,
        ensures
            r.0 == self.offset,
            r.1 == self.offset + self.len,
    {
        (self.offset as usize, (self.offset + self.len) as usize)
    }

    /// The absolute path this occurrence names, if it was stored absolute.
    pub fn absolute_path(&self) -> (r: Option<&str>)
        ensures
            match r {
                Some(p) => without_prefix(self.rel@, seq!['/']) == Some(p@),
                None => without_prefix(self.rel@, seq!['/']) is None,
            },
    {
        proof {
            reveal_strlit("/");
            assert("/"@ =~= seq!['/']);
        }
        strip_prefix(self.rel.as_str(), "/")
    }
}

/// One source file that ranges refer to.
#[derive(Debug, Clone, PartialEq, Eq)]
pub struct FileEntry {
    pub id: u32,
    pub path: String,
    /// Source language; `None` stands for SystemVerilog.
    pub language: Option<String>,
}

/// A node in the elaborated hierarchy.
#[derive(Debug, Clone)]
pub struct Node {
    pub id: NodeId,
    pub kind: NodeKind,
    pub name: String,
    pub path: String,
    pub parent: Option<NodeId>,
    pub children: Vec<NodeId>,
    pub symbol_key: String,
    pub def_range: Option<Range>,
    pub inst_range: Option<Range>,
    pub type_: Option<String>,
    /// Declared direction of a `Port`.
    pub dir: Option<Dir>,
    /// Literal or resolved parameter value tied to an input.
    pub const_value: Option<String>,
    /// View name on a modport-specialized interface port.
    pub modport: Option<String>,
    /// The members that a `Modport` shows, with their directions.
    pub members: Option<Vec<ModportMember>>,
    /// Path of a register's asynchronous reset signal.
    pub reset: Option<String>,
    /// Path of a latch's enable signal.
    pub enable: Option<String>,
    /// Word count of a `Memory`.
    pub mem_depth: Option<u32>,
    /// Initializer argument of a `Memory`.
    pub init_source: Option<String>,
    /// Exact operator of a datapath primitive.
    pub op: Option<String>,
    pub drivers: Vec<NodeId>,
    pub loads: Vec<NodeId>,
}

/// One member of a modport view: its name and its direction through the view.
#[derive(Debug, Clone, PartialEq, Eq)]
pub struct ModportMember {
    pub name: String,
    pub dir: Dir,
}

/// Provenance of a serialization.
#[derive(Debug, Clone)]
pub struct Generator {
    pub tool: String,
    pub version: String,
}

/// Connection direction, from the module port's perspective.
#[derive(Debug, Clone, Copy, PartialEq, Eq, Structural)]
pub enum Dir {
    In,
    Out,
    Inout,
}

/// Which port of a `Memory` an edge feeds.
#[derive(Debug, Clone, Copy, PartialEq, Eq, Structural)]
pub enum MemPort {
    /// The array index.
    Addr,
    /// The value written.
    Din,
    /// The value read.
    Dout,
}

/// Which port of a `Mux` an edge feeds.
#[derive(Debug, Clone, Copy, PartialEq, Eq, Structural)]
pub enum MuxPort {
    /// The condition.
    Sel,
    /// The value when the condition is false.
    D0,
    /// The value when the condition is true.
    D1,
}

/// A module `port` wired to an outer `endpoint`.
#[derive(Debug, Clone, PartialEq, Eq)]
pub struct Edge {
    pub id: u32,
    pub port: NodeId,
    pub endpoint: NodeId,
    pub dir: Dir,
    /// Bit-select of the connected expression; `None` for the whole signal.
    pub select: Option<String>,
    /// Memory-access role of the edge.
    pub mem_port: Option<MemPort>,
    /// Multiplexer role of the edge.
    pub mux_port: Option<MuxPort>,
}

/// An elaborated design as it was written down.
#[derive(Debug, Clone)]
pub struct Document {
    pub schema_version: u32,
    pub design: String,
    pub generator: Generator,
    pub files: Vec<FileEntry>,
    pub nodes: Vec<Node>,
    pub edges: Vec<Edge>,
    /// Enum definitions by canonical type string.
    pub enums: Vec<(String, EnumDef)>,
    pub source_map: Vec<SourceMapEntry>,
    /// Identifier occurrences, sorted by file and offset.
    pub name_refs: Vec<NameRef>,
}

/// An enum type's bit width and its members.
#[derive(Debug, Clone)]
pub struct EnumDef {
    pub width: u32,
    pub members: Vec<EnumMember>,
}

/// One enum member: its name and encoded value.
#[derive(Debug, Clone)]
pub struct EnumMember {
    pub name: String,
    pub value: u64,
}

/// Reference to a signal in a loaded waveform.
#[derive(Debug, Clone, Copy, PartialEq, Eq, Hash, Structural)]
pub struct WaveSignalRef(pub u64);

// --- What the document says ---------------------------------------------------

/// The node with index `id`.
pub open spec fn node_at(d: Document, id: u32) -> Option<Node> {
    if id < d.nodes@.len() {
        Some(d.nodes@[id as int])
    } else {
        None
    }
}

/// The kind of the node with index `id`.
pub open spec fn kind_at(d: Document, id: u32) -> Option<NodeKind> {
    match node_at(d, id) {
        Some(n) => Some(n.kind),
        None => None,
    }
}

/// The parent that the node with index `id` names.
pub open spec fn parent_at(d: Document, id: u32) -> Option<u32> {
    match node_at(d, id) {
        Some(n) => n.parent,
        None => None,
    }
}

/// The children that the node with index `id` lists.
pub open spec fn children_at(d: Document, id: u32) -> Seq<u32> {
    match node_at(d, id) {
        Some(n) => n.children@,
        None => Seq::empty(),
    }
}

/// The characters of the path of the node with index `id`.
pub open spec fn path_at(d: Document, id: u32) -> Option<Seq<char>> {
    match node_at(d, id) {
        Some(n) => Some(n.path@),
        None => None,
    }
}

/// Path and id of each of the first `n` nodes.
pub open spec fn path_log(nodes: Seq<Node>, n: nat) -> Seq<(Seq<char>, u32)>
    decreases n,
{
    if n == 0 {
        Seq::empty()
    } else {
        path_log(nodes, (n - 1) as nat).push((nodes[n - 1].path@, nodes[n - 1].id))
    }
}

/// The ids of the nodes at a path, in node order.
pub open spec fn at_path(d: Document, path: Seq<char>) -> Seq<u32> {
    ids_at(path_log(d.nodes@, d.nodes@.len()), path)
}

/// Whether an edge has an end in `ids`.
pub open spec fn meets(e: Edge, ids: Set<u32>) -> bool {
    ids.contains(e.port) || ids.contains(e.endpoint)
}

/// The indices of the edges with an end in `ids`.
pub open spec fn meeting(edges: Seq<Edge>, ids: Set<u32>) -> Set<u32> {
    Set::new(|i: u32| i < edges.len() && meets(edges[i as int], ids))
}

/// The indices of the edges with an end in `ids`, ascending.
pub open spec fn touching(edges: Seq<Edge>, ids: Set<u32>) -> Seq<u32> {
    ascending(meeting(edges, ids))
}

/// The indices of the edges that have `id` as an end, ascending.
pub open spec fn incident(d: Document, id: u32) -> Seq<u32> {
    touching(d.edges@, set![id])
}

/// The edge with index `i`.
pub open spec fn edge_at(d: Document, i: u32) -> Edge {
    d.edges@[i as int]
}

/// `[lo, hi)`, widened to one place where it is empty.
pub open spec fn widened(lo: int, hi: int, v: int) -> Span {
    (lo as u64, (if hi > lo { hi } else { lo + 1 }) as u64, v as u64)
}

/// A source range as a log entry that carries `v`.
pub open spec fn range_entry(r: Range, v: int) -> (u32, Span) {
    (r.file, widened(r.start.offset as int, r.end.offset as int, v))
}

/// The ranges of the first `n` nodes with their ids: definition, then instance.
pub open spec fn node_ranges(nodes: Seq<Node>, n: nat) -> Seq<(u32, Span)>
    decreases n,
{
    if n == 0 {
        Seq::empty()
    } else {
        let node = nodes[n - 1];
        let r = node_ranges(nodes, (n - 1) as nat);
        let r = match node.def_range {
            Some(x) => r.push(range_entry(x, node.id as int)),
            None => r,
        };
        match node.inst_range {
            Some(x) => r.push(range_entry(x, node.id as int)),
            None => r,
        }
    }
}

/// One side of the first `n` source-map entries, with their indices.
pub open spec fn map_ranges(m: Seq<SourceMapEntry>, generated: bool, n: nat) -> Seq<(u32, Span)>
    decreases n,
{
    if n == 0 {
        Seq::empty()
    } else {
        map_ranges(m, generated, (n - 1) as nat).push(
            range_entry(side_of(m[n - 1], generated), n - 1),
        )
    }
}

/// The spans of the first `n` identifier occurrences, with their indices.
pub open spec fn name_ranges(m: Seq<NameRef>, n: nat) -> Seq<(u32, Span)>
    decreases n,
{
    if n == 0 {
        Seq::empty()
    } else {
        let r = m[n - 1];
        name_ranges(m, (n - 1) as nat).push(
            (r.file, widened(r.offset as int, r.offset + r.len, n - 1)),
        )
    }
}

/// The ids of the nodes whose definition or instance range overlaps `[lo, hi)` in
/// `file`, by start and then by end of the range.
pub open spec fn nodes_over(d: Document, file: u32, lo: int, hi: int) -> Seq<u32> {
    overlapping(
        node_ranges(d.nodes@, d.nodes@.len()),
        file,
        lo as u64,
        hi as u64,
    ).map_values(|v: u64| v as u32)
}

/// Length of a range, none for one that ends before it starts.
pub open spec fn range_len(r: Range) -> int {
    if r.end.offset >= r.start.offset {
        r.end.offset - r.start.offset
    } else {
        0
    }
}

/// One side of a source-map entry.
pub open spec fn side_of(m: SourceMapEntry, generated: bool) -> Range {
    if generated {
        m.generated
    } else {
        m.source
    }
}

/// Of the source-map entries listed, the first whose one side is shortest.
pub open spec fn shortest_entry(
    m: Seq<SourceMapEntry>,
    at: Seq<u64>,
    generated: bool,
) -> Option<int>
    decreases at.len(),
{
    if at.len() == 0 {
        None
    } else {
        let i = at.last() as int;
        match shortest_entry(m, at.drop_last(), generated) {
            Some(j) => if range_len(side_of(m[i], generated)) < range_len(
                side_of(m[j], generated),
            ) {
                Some(i)
            } else {
                Some(j)
            },
            None => Some(i),
        }
    }
}

/// Of the occurrences listed, the first that is shortest.
pub open spec fn shortest_name(m: Seq<NameRef>, at: Seq<u64>) -> Option<int>
    decreases at.len(),
{
    if at.len() == 0 {
        None
    } else {
        let i = at.last() as int;
        match shortest_name(m, at.drop_last()) {
            Some(j) => if m[i].len < m[j].len {
                Some(i)
            } else {
                Some(j)
            },
            None => Some(i),
        }
    }
}

/// Of the source-map entries whose one side covers `offset` in `file`, the first where that
/// side is shortest.
pub open spec fn mapped(d: Document, generated: bool, file: u32, offset: int) -> Option<
    SourceMapEntry,
> {
    let at = overlapping(
        map_ranges(d.source_map@, generated, d.source_map@.len()),
        file,
        offset as u64,
        (offset + 1) as u64,
    );
    match shortest_entry(d.source_map@, at, generated) {
        Some(i) => Some(d.source_map@[i]),
        None => None,
    }
}

/// The shortest identifier occurrence that covers `offset` in `file`.
pub open spec fn name_over(d: Document, file: u32, offset: int) -> Option<NameRef> {
    let at = overlapping(
        name_ranges(d.name_refs@, d.name_refs@.len()),
        file,
        offset as u64,
        (offset + 1) as u64,
    );
    match shortest_name(d.name_refs@, at) {
        Some(i) => Some(d.name_refs@[i]),
        None => None,
    }
}

/// The first of the first `n` enum table entries for a type string.
pub open spec fn enum_entry(t: Seq<(String, EnumDef)>, type_: Seq<char>, n: nat) -> Option<int>
    decreases n,
{
    if n == 0 || n > t.len() {
        None
    } else {
        match enum_entry(t, type_, (n - 1) as nat) {
            Some(i) => Some(i),
            None => if t[n - 1].0@ == type_ {
                Some(n - 1)
            } else {
                None
            },
        }
    }
}

/// The enum definition of a type string.
pub open spec fn enum_of(d: Document, type_: Seq<char>) -> Option<EnumDef> {
    match enum_entry(d.enums@, type_, d.enums@.len()) {
        Some(i) => Some(d.enums@[i].1),
        None => None,
    }
}

/// The occurrences in `file` among the first `n`.
pub open spec fn names_in(m: Seq<NameRef>, file: u32, n: nat) -> Seq<NameRef>
    decreases n,
{
    if n == 0 {
        Seq::empty()
    } else {
        let r = names_in(m, file, (n - 1) as nat);
        if m[n - 1].file == file {
            r.push(m[n - 1])
        } else {
            r
        }
    }
}

/// The ids at `<parent path>.<member>` for a modport's parent.
pub open spec fn member_nodes(d: Document, modport: u32, member: Seq<char>) -> Seq<u32> {
    match parent_at(d, modport) {
        Some(p) => match node_at(d, p) {
            Some(n) => at_path(d, n.path@ + seq!['.'] + member),
            None => Seq::empty(),
        },
        None => Seq::empty(),
    }
}

/// Edge index entries of the first `n` edges: under the port, and under the
/// endpoint where it is another node.
pub open spec fn edge_log(edges: Seq<Edge>, n: nat) -> Seq<(u32, u32)>
    decreases n,
{
    if n == 0 {
        Seq::empty()
    } else {
        let e = edges[n - 1];
        let r = edge_log(edges, (n - 1) as nat).push((e.port, (n - 1) as u32));
        if e.endpoint != e.port {
            r.push((e.endpoint, (n - 1) as u32))
        } else {
            r
        }
    }
}

proof fn lemma_edge_log(edges: Seq<Edge>, id: u32, n: nat)
    requires
        n <= edges.len(),
        n <= 0x1_0000_0000,
    ensures
        increasing(under(edge_log(edges, n), id)),
        forall|k: int|
            0 <= k < under(edge_log(edges, n), id).len() ==> #[trigger] under(
                edge_log(edges, n),
                id,
            )[k] < n,
        forall|i: u32|
            under(edge_log(edges, n), id).contains(i) <==> i < n && (edges[i as int].port == id
                || edges[i as int].endpoint == id),
    decreases n,
{
    if n > 0 {
        let m = (n - 1) as nat;
        lemma_edge_log(edges, id, m);
        let e = edges[n - 1];
        let old_log = edge_log(edges, m);
        let mid = old_log.push((e.port, m as u32));
        lemma_under_push(old_log, e.port, m as u32, id);
        if e.endpoint != e.port {
            lemma_under_push(mid, e.endpoint, m as u32, id);
        }
        let r = under(old_log, id);
        let s = under(edge_log(edges, n), id);
        if e.port == id || e.endpoint == id {
            assert(s == r.push(m as u32));
            assert forall|i: u32| s.contains(i) <==> r.contains(i) || i == m as u32 by {
                if r.contains(i) {
                    let k = choose|k: int| 0 <= k < r.len() && r[k] == i;
                    assert(s[k] == i);
                }
                if i == m as u32 {
                    assert(s[r.len() as int] == i);
                }
                if s.contains(i) && i != m as u32 {
                    let k = choose|k: int| 0 <= k < s.len() && s[k] == i;
                    assert(r[k] == i);
                }
            }
        } else {
            assert(s == r);
        }
    }
}

/// The edge index lists under a node the edges that have it as an end.
pub proof fn lemma_edge_index(d: Document, id: u32)
    requires
        d.edges@.len() <= 0x1_0000_0000,
    ensures
        under(edge_log(d.edges@, d.edges@.len()), id) == incident(d, id),
{
    lemma_edge_log(d.edges@, id, d.edges@.len());
    let q = under(edge_log(d.edges@, d.edges@.len()), id);
    assert forall|i: u32| meeting(d.edges@, set![id]).contains(i) <==> q.contains(i) by {
        if i < d.edges@.len() {
            assert(meets(d.edges@[i as int], set![id]) <==> d.edges@[i as int].port == id
                || d.edges@[i as int].endpoint == id);
        }
    }
    lemma_ascending_unique(meeting(d.edges@, set![id]), q);
}

/// What incident edges are: in range, touching the node.
pub proof fn lemma_incident(d: Document, id: u32)
    ensures
        increasing(incident(d, id)),
        forall|k: int|
            #![trigger incident(d, id)[k]]
            0 <= k < incident(d, id).len() ==> incident(d, id)[k] < d.edges@.len() && (edge_at(
                d,
                incident(d, id)[k],
            ).port == id || edge_at(d, incident(d, id)[k]).endpoint == id),
{
    crate::order::lemma_ascending(meeting(d.edges@, set![id]));
    assert forall|k: int|
        #![trigger incident(d, id)[k]]
        0 <= k < incident(d, id).len() implies incident(d, id)[k] < d.edges@.len() && (edge_at(
        d,
        incident(d, id)[k],
    ).port == id || edge_at(d, incident(d, id)[k]).endpoint == id) by {
        assert(incident(d, id).contains(incident(d, id)[k]));
        assert(meeting(d.edges@, set![id]).contains(incident(d, id)[k]));
    }
}

// --- Waveform index -----------------------------------------------------------

/// Nodes and waveform signals, one to one, each by the other.
pub struct WaveIndex {
    by_node: BTreeMap<u32, u64>,
    by_signal: BTreeMap<u64, u32>,
}

/// A waveform index as two maps.
#[verifier::ext_equal]
pub struct WaveMaps {
    pub by_node: Map<u32, u64>,
    pub by_signal: Map<u64, u32>,
}

impl View for WaveIndex {
    type V = WaveMaps;

    closed spec fn view(&self) -> WaveMaps {
        WaveMaps { by_node: self.by_node@, by_signal: self.by_signal@ }
    }
}

impl WaveMaps {
    /// No links.
    pub open spec fn empty() -> WaveMaps {
        WaveMaps { by_node: Map::empty(), by_signal: Map::empty() }
    }

    /// The maps after linking `node` and `sig`: the links that either had are gone, in both
    /// directions.
    pub open spec fn linked(self, node: u32, sig: u64) -> WaveMaps {
        WaveMaps {
            by_node: (if self.by_signal.contains_key(sig) {
                self.by_node.remove(self.by_signal[sig])
            } else {
                self.by_node
            }).insert(node, sig),
            by_signal: (if self.by_node.contains_key(node) {
                self.by_signal.remove(self.by_node[node])
            } else {
                self.by_signal
            }).insert(sig, node),
        }
    }

    /// The maps after linking the first `n` pairs in order.
    pub open spec fn linking(pairs: Seq<(u32, WaveSignalRef)>, n: nat) -> WaveMaps
        decreases n,
    {
        if n == 0 {
            WaveMaps::empty()
        } else {
            WaveMaps::linking(pairs, (n - 1) as nat).linked(pairs[n - 1].0, pairs[n - 1].1.0)
        }
    }

    /// Whether the two maps are inverse to each other.
    pub open spec fn bijective(self) -> bool {
        &&& forall|k: u32| #[trigger]
            self.by_node.contains_key(k) ==> self.by_signal.contains_key(self.by_node[k])
                && self.by_signal[self.by_node[k]] == k
        &&& forall|s: u64| #[trigger]
            self.by_signal.contains_key(s) ==> self.by_node.contains_key(self.by_signal[s])
                && self.by_node[self.by_signal[s]] == s
    }

    /// The links by ascending node.
    pub open spec fn pairs(self) -> Seq<(u32, WaveSignalRef)> {
        ascending(self.by_node.dom()).map_values(
            |k: u32| (k, WaveSignalRef(self.by_node[k])),
        )
    }
}

proof fn lemma_linking(m: WaveMaps, n: nat)
    requires
        n <= m.pairs().len(),
        m.bijective(),
    ensures
        ({
            let r = WaveMaps::linking(m.pairs(), n);
            let first = ascending(m.by_node.dom()).take(n as int);
            &&& forall|x: u32| #[trigger] r.by_node.contains_key(x) <==> first.contains(x)
            &&& forall|x: u32| #[trigger]
                r.by_node.contains_key(x) ==> r.by_node[x] == m.by_node[x]
            &&& forall|s: u64| #[trigger]
                r.by_signal.contains_key(s) <==> m.by_signal.contains_key(s) && first.contains(
                    m.by_signal[s],
                )
            &&& forall|s: u64| #[trigger]
                r.by_signal.contains_key(s) ==> r.by_signal[s] == m.by_signal[s]
        }),
    decreases n,
{
    let q = ascending(m.by_node.dom());
    if n == 0 {
        assert(q.take(0) =~= Seq::empty());
    } else {
        lemma_linking(m, (n - 1) as nat);
        crate::order::lemma_take_contains(q, n - 1);
        crate::order::lemma_ascending(m.by_node.dom());
        let k = q[n - 1];
        let t = m.by_node[k];
        assert(q.contains(k));
        assert(m.by_node.contains_key(k));
        assert(m.by_signal[t] == k);
        let prev = WaveMaps::linking(m.pairs(), (n - 1) as nat);
        let r = WaveMaps::linking(m.pairs(), n);
        assert(m.pairs()[n - 1] == (k, WaveSignalRef(t)));
        assert(r == prev.linked(k, t));
        assert(!q.take(n - 1).contains(k)) by {
            if q.take(n - 1).contains(k) {
                let first = q.take(n - 1);
                let j = choose|j: int| 0 <= j < first.len() && first[j] == k;
                assert(q[j] < q[n - 1]);
            }
        }
        assert(!prev.by_node.contains_key(k));
        assert(!prev.by_signal.contains_key(t));
        assert forall|x: u32| #[trigger] r.by_node.contains_key(x) <==> q.take(
            n as int,
        ).contains(x) by {
            assert(prev.by_node.contains_key(x) <==> q.take(n - 1).contains(x));
        }
        assert forall|x: u32| #[trigger] r.by_node.contains_key(x) implies r.by_node[x]
            == m.by_node[x] by {
            if x != k {
                assert(prev.by_node.contains_key(x));
            }
        }
        assert forall|s: u64| #[trigger] r.by_signal.contains_key(s) <==> m.by_signal.contains_key(
            s,
        ) && q.take(n as int).contains(m.by_signal[s]) by {
            assert(prev.by_signal.contains_key(s) <==> m.by_signal.contains_key(s) && q.take(
                n - 1,
            ).contains(m.by_signal[s]));
        }
        assert forall|s: u64| #[trigger] r.by_signal.contains_key(s) implies r.by_signal[s]
            == m.by_signal[s] by {
            if s != t {
                assert(prev.by_signal.contains_key(s));
            }
        }
    }
}

/// Written down as pairs and read back, links are what they were.
pub proof fn law_links_survive_as_pairs(m: WaveMaps)
    requires
        m.bijective(),
    ensures
        WaveMaps::linking(m.pairs(), m.pairs().len()) == m,
{
    let q = ascending(m.by_node.dom());
    let n = m.pairs().len();
    crate::order::lemma_ascending(m.by_node.dom());
    assert(q.take(n as int) =~= q);
    lemma_linking(m, n);
    let r = WaveMaps::linking(m.pairs(), n);
    assert(r.by_node =~= m.by_node);
    assert forall|s: u64| r.by_signal.contains_key(s) == m.by_signal.contains_key(s) by {
        if m.by_signal.contains_key(s) {
            assert(m.by_node.contains_key(m.by_signal[s]));
            assert(q.contains(m.by_signal[s]));
        }
    }
    assert(r.by_signal =~= m.by_signal);
}

/// Links stay one to one, whatever is linked next.
pub proof fn law_new_links_stay_one_to_one(m: WaveMaps, node: u32, sig: u64)
    requires
        m.bijective(),
    ensures
        m.linked(node, sig).bijective(),
        m.linked(node, sig).by_node[node] == sig,
        m.linked(node, sig).by_signal[sig] == node,
{
    let r = m.linked(node, sig);
    assert forall|k: u32| #[trigger] r.by_node.contains_key(k) implies r.by_signal.contains_key(
        r.by_node[k],
    ) && r.by_signal[r.by_node[k]] == k by {
        if k != node {
            assert(m.by_node.contains_key(k));
        }
    }
    assert forall|s: u64| #[trigger] r.by_signal.contains_key(s) implies r.by_node.contains_key(
        r.by_signal[s],
    ) && r.by_node[r.by_signal[s]] == s by {
        if s != sig {
            assert(m.by_signal.contains_key(s));
        }
    }
}

/// Links made of any list of pairs are one to one.
pub proof fn law_links_are_one_to_one(pairs: Seq<(u32, WaveSignalRef)>, n: nat)
    requires
        n <= pairs.len(),
    ensures
        WaveMaps::linking(pairs, n).bijective(),
    decreases n,
{
    if n > 0 {
        law_links_are_one_to_one(pairs, (n - 1) as nat);
        law_new_links_stay_one_to_one(
            WaveMaps::linking(pairs, (n - 1) as nat),
            pairs[n - 1].0,
            pairs[n - 1].1.0,
        );
    }
}

impl Default for WaveIndex {
    fn default() -> (r: Self)
        ensures
            r@ == WaveMaps::empty(),
            r@.bijective(),
    {
        WaveIndex { by_node: BTreeMap::new(), by_signal: BTreeMap::new() }
    }
}

impl WaveIndex {
    /// Links a node and a signal. The links that either had are gone.
    pub fn insert(&mut self, node: NodeId, sig: WaveSignalRef)
        ensures
            final(self)@ == old(self)@.linked(node, sig.0),
            old(self)@.bijective() ==> final(self)@.bijective(),
    {
        proof {
            if self@.bijective() {
                law_new_links_stay_one_to_one(self@, node, sig.0);
            }
        }
        let had: Option<u64> = match self.by_node.get(&node) {
            Some(s) => Some(*s),
            None => None,
        };
        let was: Option<u32> = match self.by_signal.get(&sig.0) {
            Some(n) => Some(*n),
            None => None,
        };
        if let Some(s) = had {
            self.by_signal.remove(&s);
        }
        if let Some(n) = was {
            self.by_node.remove(&n);
        }
        self.by_node.insert(node, sig.0);
        self.by_signal.insert(sig.0, node);
    }

    /// The index over a list of pairs, taken in order.
    pub fn from_pairs(pairs: &[(NodeId, WaveSignalRef)]) -> (r: WaveIndex)
        ensures
            r@ == WaveMaps::linking(pairs@, pairs@.len()),
            r@.bijective(),
    {
        proof {
            law_links_are_one_to_one(pairs@, pairs@.len());
        }
        let mut idx: WaveIndex = WaveIndex::default();
        let mut i: usize = 0;
        while i < pairs.len()
            invariant
                i <= pairs@.len(),
                idx@ == WaveMaps::linking(pairs@, i as nat),
            decreases pairs@.len() - i,
        {
            idx.insert(pairs[i].0, pairs[i].1);
            i += 1;
        }
        idx
    }

    /// The links as a list.
    pub fn pairs(&self) -> (r: Vec<(NodeId, WaveSignalRef)>)
        ensures
            r@ == self@.pairs(),
    {
        let mut out: Vec<(NodeId, WaveSignalRef)> = Vec::new();
        let keys: Vec<u32> = self.node_ids();
        proof {
            crate::order::lemma_ascending(self@.by_node.dom());
        }
        let mut i: usize = 0;
        while i < keys.len()
            invariant
                i <= keys@.len(),
                keys@ == ascending(self@.by_node.dom()),
                forall|x: u32| keys@.contains(x) <==> self@.by_node.dom().contains(x),
                out@ == self@.pairs().subrange(0, i as int),
            decreases keys@.len() - i,
        {
            let k: u32 = keys[i];
            assert(keys@.contains(k));
            match self.by_node.get(&k) {
                Some(s) => {
                    out.push((k, WaveSignalRef(*s)));
                },
                None => {},
            }
            i += 1;
            assert(out@ =~= self@.pairs().subrange(0, i as int));
        }
        assert(out@ =~= self@.pairs());
        out
    }

    fn node_ids(&self) -> (r: Vec<u32>)
        ensures
            r@ == ascending(self@.by_node.dom()),
    {
        crate::order::map_keys(&self.by_node)
    }

    /// The node linked to a signal.
    pub fn node_of(&self, sig: WaveSignalRef) -> (r: Option<NodeId>)
        ensures
            r == if self@.by_signal.contains_key(sig.0) {
                Some(self@.by_signal[sig.0])
            } else {
                None
            },
    {
        match self.by_signal.get(&sig.0) {
            Some(n) => Some(*n),
            None => None,
        }
    }

    /// The signal linked to a node.
    pub fn signal_of(&self, node: NodeId) -> (r: Option<WaveSignalRef>)
        ensures
            r == if self@.by_node.contains_key(node) {
                Some(WaveSignalRef(self@.by_node[node]))
            } else {
                None
            },
    {
        match self.by_node.get(&node) {
            Some(s) => Some(WaveSignalRef(*s)),
            None => None,
        }
    }

    /// The number of linked nodes.
    pub fn len(&self) -> (r: usize)
        ensures
            r == self@.by_node.len(),
    {
        self.by_node.len()
    }

    /// Whether no node is linked.
    pub fn is_empty(&self) -> (r: bool)
        ensures
            r == (self@.by_node =~= Map::<u32, u64>::empty()),
    {
        let r = self.by_node.is_empty();
        proof {
            if r {
                assert(self@.by_node =~= Map::<u32, u64>::empty());
            }
        }
        r
    }
}

// --- Design -------------------------------------------------------------------

/// The lookup indices of a document.
pub struct Indices {
    path_index: PathIndex,
    src_index: SpanIndex,
    conn_index: Groups<u32>,
    gen_map_index: SpanIndex,
    src_map_index: SpanIndex,
    name_ref_index: SpanIndex,
}

/// The elaborated design plus its lookup indices.
pub struct Design {
    pub doc: Document,
    pub index: Indices,
    pub wave_index: WaveIndex,
}

/// Whether the edges of a document can be numbered and its identifier spans end
/// within the offset range.
pub open spec fn indexable(d: Document) -> bool {
    &&& d.edges@.len() <= 0x1_0000_0000
    &&& forall|i: int|
        0 <= i < d.name_refs@.len() ==> (#[trigger] d.name_refs@[i]).offset + d.name_refs@[i].len
            <= u32::MAX
}

fn span_of(r: &Range, v: u64) -> (s: Span)
    ensures
        (r.file, s) == range_entry(*r, v as int),
{
    let lo: u64 = r.start.offset as u64;
    let hi: u64 = r.end.offset as u64;
    let stop: u64 = if hi > lo {
        hi
    } else {
        lo + 1
    };
    (lo, stop, v)
}

proof fn lemma_map_values(m: Seq<SourceMapEntry>, generated: bool, n: nat)
    requires
        n <= m.len(),
        m.len() <= u64::MAX,
    ensures
        forall|k: int|
            0 <= k < map_ranges(m, generated, n).len() ==> (#[trigger] map_ranges(m, generated, n)[k]).1.2
                < n,
    decreases n,
{
    if n > 0 {
        lemma_map_values(m, generated, (n - 1) as nat);
        let r = map_ranges(m, generated, (n - 1) as nat);
        assert forall|k: int| 0 <= k < r.len() + 1 implies (#[trigger] map_ranges(
            m,
            generated,
            n,
        )[k]).1.2 < n by {
            if k < r.len() {
                assert(r[k].1.2 < n - 1);
            }
        }
    }
}

proof fn lemma_name_values(m: Seq<NameRef>, n: nat)
    requires
        n <= m.len(),
        m.len() <= u64::MAX,
    ensures
        forall|k: int|
            0 <= k < name_ranges(m, n).len() ==> (#[trigger] name_ranges(m, n)[k]).1.2 < n,
    decreases n,
{
    if n > 0 {
        lemma_name_values(m, (n - 1) as nat);
        let r = name_ranges(m, (n - 1) as nat);
        assert forall|k: int| 0 <= k < r.len() + 1 implies (#[trigger] name_ranges(m, n)[k]).1.2
            < n by {
            if k < r.len() {
                assert(r[k].1.2 < n - 1);
            }
        }
    }
}

impl Indices {
    /// The indices say what the document says.
    pub closed spec fn describe(&self, doc: Document) -> bool {
        &&& self.path_index.wf()
        &&& self.path_index@ == path_log(doc.nodes@, doc.nodes@.len())
        &&& self.src_index.wf()
        &&& self.src_index@ == node_ranges(doc.nodes@, doc.nodes@.len())
        &&& self.conn_index.wf()
        &&& self.conn_index@ == edge_log(doc.edges@, doc.edges@.len())
        &&& self.gen_map_index.wf()
        &&& self.gen_map_index@ == map_ranges(
            doc.source_map@,
            true,
            doc.source_map@.len(),
        )
        &&& self.src_map_index.wf()
        &&& self.src_map_index@ == map_ranges(
            doc.source_map@,
            false,
            doc.source_map@.len(),
        )
        &&& self.name_ref_index.wf()
        &&& self.name_ref_index@ == name_ranges(doc.name_refs@, doc.name_refs@.len())
    }
}

impl Design {
    /// The document can be indexed and the indices say what it says.
    pub open spec fn wf(&self) -> bool {
        &&& indexable(self.doc)
        &&& self.index.describe(self.doc)
    }

    /// Builds a design and its indices from a document.
    pub fn from_document(doc: Document) -> (r: Design)
        requires
            indexable(doc),
        ensures
            r.wf(),
            r.doc == doc,
            r.wave_index@ == WaveMaps::empty(),
    {
        let mut path_index: PathIndex = PathIndex::new();
        let mut per_file: Groups<Span> = Groups::new();
        let mut i: usize = 0;
        while i < doc.nodes.len()
            invariant
                i <= doc.nodes@.len(),
                path_index.wf(),
                path_index@ == path_log(doc.nodes@, i as nat),
                per_file.wf(),
                per_file@ == node_ranges(doc.nodes@, i as nat),
            decreases doc.nodes@.len() - i,
        {
            let node: &Node = &doc.nodes[i];
            path_index.insert(node.path.as_str(), node.id);
            if let Some(r) = &node.def_range {
                per_file.push(r.file, span_of(r, node.id as u64));
            }
            if let Some(r) = &node.inst_range {
                per_file.push(r.file, span_of(r, node.id as u64));
            }
            i += 1;
        }
        let src_index: SpanIndex = SpanIndex::build(&per_file);

        let mut conn_index: Groups<u32> = Groups::new();
        let mut i: usize = 0;
        while i < doc.edges.len()
            invariant
                i <= doc.edges@.len(),
                doc.edges@.len() <= 0x1_0000_0000,
                conn_index.wf(),
                conn_index@ == edge_log(doc.edges@, i as nat),
            decreases doc.edges@.len() - i,
        {
            let e: &Edge = &doc.edges[i];
            conn_index.push(e.port, i as u32);
            if e.endpoint != e.port {
                conn_index.push(e.endpoint, i as u32);
            }
            i += 1;
        }

        let mut gen_spans: Groups<Span> = Groups::new();
        let mut src_spans: Groups<Span> = Groups::new();
        let mut i: usize = 0;
        while i < doc.source_map.len()
            invariant
                i <= doc.source_map@.len(),
                gen_spans.wf(),
                gen_spans@ == map_ranges(doc.source_map@, true, i as nat),
                src_spans.wf(),
                src_spans@ == map_ranges(doc.source_map@, false, i as nat),
            decreases doc.source_map@.len() - i,
        {
            let m: &SourceMapEntry = &doc.source_map[i];
            gen_spans.push(m.generated.file, span_of(&m.generated, i as u64));
            src_spans.push(m.source.file, span_of(&m.source, i as u64));
            i += 1;
        }
        let gen_map_index: SpanIndex = SpanIndex::build(&gen_spans);
        let src_map_index: SpanIndex = SpanIndex::build(&src_spans);

        let mut name_spans: Groups<Span> = Groups::new();
        let mut i: usize = 0;
        while i < doc.name_refs.len()
            invariant
                i <= doc.name_refs@.len(),
                indexable(doc),
                name_spans.wf(),
                name_spans@ == name_ranges(doc.name_refs@, i as nat),
            decreases doc.name_refs@.len() - i,
        {
            let r: &NameRef = &doc.name_refs[i];
            let s: (usize, usize) = r.span();
            let lo: u64 = s.0 as u64;
            let hi: u64 = s.1 as u64;
            let stop: u64 = if hi > lo {
                hi
            } else {
                lo + 1
            };
            name_spans.push(r.file, (lo, stop, i as u64));
            i += 1;
        }
        let name_ref_index: SpanIndex = SpanIndex::build(&name_spans);

        let index: Indices = Indices {
            path_index,
            src_index,
            conn_index,
            gen_map_index,
            src_map_index,
            name_ref_index,
        };
        Design { doc, index, wave_index: WaveIndex::default() }
    }

    /// All nodes.
    pub fn nodes(&self) -> (r: &[Node])
        ensures
            r@ == self.doc.nodes@,
    {
        self.doc.nodes.as_slice()
    }

    /// The enum definition of a type string.
    pub fn enum_for_type(&self, type_: &str) -> (r: Option<&EnumDef>)
        ensures
            match r {
                Some(e) => enum_of(self.doc, type_@) == Some(*e),
                None => enum_of(self.doc, type_@) is None,
            },
    {
        let mut i: usize = 0;
        while i < self.doc.enums.len()
            invariant
                i <= self.doc.enums@.len(),
                enum_entry(self.doc.enums@, type_@, i as nat) is None,
            decreases self.doc.enums@.len() - i,
        {
            if same(self.doc.enums[i].0.as_str(), type_) {
                proof {
                    lemma_enum_entry_stays(self.doc.enums@, type_@, (i + 1) as nat, self.doc.enums@.len());
                }
                return Some(&self.doc.enums[i].1);
            }
            i += 1;
        }
        None
    }

    /// The node with index `id`.
    pub fn node(&self, id: NodeId) -> (r: Option<&Node>)
        ensures
            match r {
                Some(n) => node_at(self.doc, id) == Some(*n),
                None => node_at(self.doc, id) is None,
            },
    {
        if (id as usize) < self.doc.nodes.len() {
            Some(&self.doc.nodes[id as usize])
        } else {
            None
        }
    }

    /// The ids of the nodes at an exact path.
    pub fn nodes_at_path(&self, path: &str) -> (r: &[NodeId])
        requires
            self.wf(),
        ensures
            r@ == at_path(self.doc, path@),
    {
        self.index.path_index.get(path)
    }

    /// The signals that a modport member names: the nodes at `<parent path>.<member>`.
    pub fn modport_member_nodes(&self, modport: NodeId, member: &str) -> (r: Vec<NodeId>)
        requires
            self.wf(),
        ensures
            r@ == member_nodes(self.doc, modport, member@),
    {
        if let Some(n) = self.node(modport) {
            if let Some(p) = n.parent {
                if let Some(pn) = self.node(p) {
                    let path: String = dotted(pn.path.as_str(), member);
                    return vstd::slice::slice_to_vec(self.nodes_at_path(path.as_str()));
                }
            }
        }
        let r: Vec<NodeId> = Vec::new();
        assert(r@ =~= member_nodes(self.doc, modport, member@));
        r
    }

    /// The ids of the nodes whose definition or instance range covers `offset`.
    pub fn nodes_at_source(&self, file: u32, offset: usize) -> (r: Vec<NodeId>)
        requires
            self.wf(),
            offset < usize::MAX,
        ensures
            r@ == nodes_over(self.doc, file, offset as int, offset + 1),
    {
        self.nodes_in_source_range(file, offset, offset + 1)
    }

    /// The ids of the nodes whose definition or instance range overlaps `[lo, hi)`,
    /// or covers `lo` where that is empty.
    pub fn nodes_in_source_range(&self, file: u32, lo: usize, hi: usize) -> (r: Vec<NodeId>)
        requires
            self.wf(),
            lo < usize::MAX,
        ensures
            r@ == nodes_over(
                self.doc,
                file,
                lo as int,
                if hi > lo {
                    hi as int
                } else {
                    lo + 1
                },
            ),
    {
        let stop: usize = if hi > lo {
            hi
        } else {
            lo + 1
        };
        let found: Vec<u64> = self.index.src_index.find(file, lo as u64, stop as u64);
        let mut out: Vec<NodeId> = Vec::new();
        let mut i: usize = 0;
        while i < found.len()
            invariant
                i <= found@.len(),
                out@ == found@.subrange(0, i as int).map_values(|v: u64| v as u32),
            decreases found@.len() - i,
        {
            out.push(
                #[verifier::truncate]
                (found[i] as u32),
            );
            i += 1;
            assert(out@ =~= found@.subrange(0, i as int).map_values(|v: u64| v as u32));
        }
        assert(found@.subrange(0, i as int) =~= found@);
        out
    }

    /// The high-level span that an offset in a generated file maps to; the shortest,
    /// where several cover it.
    pub fn mapped_from_gen(&self, file: u32, offset: usize) -> (r: Option<&Range>)
        requires
            self.wf(),
            offset < usize::MAX,
        ensures
            match r {
                Some(x) => mapped(self.doc, true, file, offset as int) is Some && mapped(
                    self.doc,
                    true,
                    file,
                    offset as int,
                )->0.source == *x,
                None => mapped(self.doc, true, file, offset as int) is None,
            },
    {
        match self.narrowest_map(true, file, offset) {
            Some(m) => Some(&m.source),
            None => None,
        }
    }

    /// The generated span that an offset in a high-level file maps to; the shortest,
    /// where several cover it.
    pub fn mapped_from_src(&self, file: u32, offset: usize) -> (r: Option<&Range>)
        requires
            self.wf(),
            offset < usize::MAX,
        ensures
            match r {
                Some(x) => mapped(self.doc, false, file, offset as int) is Some && mapped(
                    self.doc,
                    false,
                    file,
                    offset as int,
                )->0.generated == *x,
                None => mapped(self.doc, false, file, offset as int) is None,
            },
    {
        match self.narrowest_map(false, file, offset) {
            Some(m) => Some(&m.generated),
            None => None,
        }
    }

    fn narrowest_map(&self, generated: bool, file: u32, offset: usize) -> (r: Option<
        &SourceMapEntry,
    >)
        requires
            self.wf(),
            offset < usize::MAX,
        ensures
            match r {
                Some(m) => mapped(self.doc, generated, file, offset as int) == Some(*m),
                None => mapped(self.doc, generated, file, offset as int) is None,
            },
    {
        let found: Vec<u64> = if generated {
            self.index.gen_map_index.find(file, offset as u64, offset as u64 + 1)
        } else {
            self.index.src_map_index.find(file, offset as u64, offset as u64 + 1)
        };
        let ghost n = self.doc.source_map.len();
        let ghost log = map_ranges(self.doc.source_map@, generated, self.doc.source_map@.len());
        proof {
            lemma_map_values(self.doc.source_map@, generated, self.doc.source_map@.len());
            crate::spans::lemma_overlapping_values(
                log,
                file,
                offset as u64,
                (offset + 1) as u64,
                n as int,
            );
        }
        let mut best: Option<usize> = None;
        let mut i: usize = 0;
        while i < found.len()
            invariant
                i <= found@.len(),
                forall|k: int| 0 <= k < found@.len() ==> #[trigger] found@[k] < n,
                n == self.doc.source_map@.len(),
                match best {
                    Some(b) => b < n && shortest_entry(
                        self.doc.source_map@,
                        found@.subrange(0, i as int),
                        generated,
                    ) == Some(b as int),
                    None => i == 0,
                },
            decreases found@.len() - i,
        {
            let at: usize = found[i] as usize;
            proof {
                assert(found@.subrange(0, i + 1).drop_last() =~= found@.subrange(0, i as int));
            }
            let better: bool = match best {
                Some(b) => side_len(&self.doc.source_map[at], generated) < side_len(
                    &self.doc.source_map[b],
                    generated,
                ),
                None => true,
            };
            if better {
                best = Some(at);
            }
            i += 1;
        }
        assert(found@.subrange(0, i as int) =~= found@);
        match best {
            Some(b) => Some(&self.doc.source_map[b]),
            None => None,
        }
    }

    /// The shortest identifier occurrence that covers `offset` in `file`.
    pub fn name_ref_at(&self, file: u32, offset: usize) -> (r: Option<&NameRef>)
        requires
            self.wf(),
            offset < usize::MAX,
        ensures
            match r {
                Some(x) => name_over(self.doc, file, offset as int) == Some(*x),
                None => name_over(self.doc, file, offset as int) is None,
            },
    {
        let found: Vec<u64> = self.index.name_ref_index.find(file, offset as u64, offset as u64 + 1);
        let ghost n = self.doc.name_refs.len();
        proof {
            lemma_name_values(self.doc.name_refs@, self.doc.name_refs@.len());
            crate::spans::lemma_overlapping_values(
                name_ranges(self.doc.name_refs@, self.doc.name_refs@.len()),
                file,
                offset as u64,
                (offset + 1) as u64,
                n as int,
            );
        }
        let mut best: Option<usize> = None;
        let mut i: usize = 0;
        while i < found.len()
            invariant
                i <= found@.len(),
                forall|k: int| 0 <= k < found@.len() ==> #[trigger] found@[k] < n,
                n == self.doc.name_refs@.len(),
                match best {
                    Some(b) => b < n && shortest_name(
                        self.doc.name_refs@,
                        found@.subrange(0, i as int),
                    ) == Some(b as int),
                    None => i == 0,
                },
            decreases found@.len() - i,
        {
            let at: usize = found[i] as usize;
            proof {
                assert(found@.subrange(0, i + 1).drop_last() =~= found@.subrange(0, i as int));
            }
            let better: bool = match best {
                Some(b) => self.doc.name_refs[at].len < self.doc.name_refs[b].len,
                None => true,
            };
            if better {
                best = Some(at);
            }
            i += 1;
        }
        assert(found@.subrange(0, i as int) =~= found@);
        match best {
            Some(b) => Some(&self.doc.name_refs[b]),
            None => None,
        }
    }

    /// The identifier occurrences in `file`, in document order.
    pub fn name_refs_in_file(&self, file: u32) -> (r: Vec<&NameRef>)
        ensures
            r@.len() == names_in(self.doc.name_refs@, file, self.doc.name_refs@.len()).len(),
            forall|k: int|
                0 <= k < r@.len() ==> *(#[trigger] r@[k]) == names_in(
                    self.doc.name_refs@,
                    file,
                    self.doc.name_refs@.len(),
                )[k],
    {
        let mut out: Vec<&NameRef> = Vec::new();
        let mut i: usize = 0;
        while i < self.doc.name_refs.len()
            invariant
                i <= self.doc.name_refs@.len(),
                out@.len() == names_in(self.doc.name_refs@, file, i as nat).len(),
                forall|k: int|
                    0 <= k < out@.len() ==> *(#[trigger] out@[k]) == names_in(
                        self.doc.name_refs@,
                        file,
                        i as nat,
                    )[k],
            decreases self.doc.name_refs@.len() - i,
        {
            if self.doc.name_refs[i].file == file {
                out.push(&self.doc.name_refs[i]);
            }
            i += 1;
        }
        out
    }

    /// The number of distinct paths.
    pub fn path_count(&self) -> (r: usize)
        requires
            self.wf(),
        ensures
            r == paths_in(path_log(self.doc.nodes@, self.doc.nodes@.len())).len(),
    {
        self.index.path_index.len()
    }

    /// All connection edges.
    pub fn edges(&self) -> (r: &[Edge])
        ensures
            r@ == self.doc.edges@,
    {
        self.doc.edges.as_slice()
    }

    /// The edges that have `node` as an end, in document order.
    pub fn edges_of(&self, node: NodeId) -> (r: Vec<&Edge>)
        requires
            self.wf(),
        ensures
            r@.len() == incident(self.doc, node).len(),
            forall|k: int|
                0 <= k < r@.len() ==> *(#[trigger] r@[k]) == edge_at(
                    self.doc,
                    incident(self.doc, node)[k],
                ),
    {
        let at: &[u32] = self.edge_indices_of(node);
        let mut out: Vec<&Edge> = Vec::new();
        let mut i: usize = 0;
        while i < at.len()
            invariant
                i <= at@.len(),
                at@ == incident(self.doc, node),
                forall|k: int| 0 <= k < at@.len() ==> #[trigger] at@[k] < self.doc.edges@.len(),
                out@.len() == i,
                forall|k: int| 0 <= k < i ==> *(#[trigger] out@[k]) == edge_at(self.doc, at@[k]),
            decreases at@.len() - i,
        {
            out.push(&self.doc.edges[at[i] as usize]);
            i += 1;
        }
        out
    }

    /// The indices of the edges that have `node` as an end, ascending.
    pub fn edge_indices_of(&self, node: NodeId) -> (r: &[u32])
        requires
            self.wf(),
        ensures
            r@ == incident(self.doc, node),
            forall|k: int| 0 <= k < r@.len() ==> #[trigger] r@[k] < self.doc.edges@.len(),
    {
        proof {
            lemma_edge_index(self.doc, node);
            lemma_incident(self.doc, node);
        }
        self.index.conn_index.slice(node)
    }
}

proof fn lemma_enum_entry_stays(t: Seq<(String, EnumDef)>, type_: Seq<char>, n: nat, m: nat)
    requires
        n <= m <= t.len(),
        enum_entry(t, type_, n) is Some,
    ensures
        enum_entry(t, type_, m) == enum_entry(t, type_, n),
    decreases m,
{
    if n < m {
        lemma_enum_entry_stays(t, type_, n, (m - 1) as nat);
    }
}

fn side_len(m: &SourceMapEntry, generated: bool) -> (r: u32)
    ensures
        r == range_len(side_of(*m, generated)),
{
    let r: &Range = if generated {
        &m.generated
    } else {
        &m.source
    };
    if r.end.offset >= r.start.offset {
        r.end.offset - r.start.offset
    } else {
        0
    }
}

} // verus!
