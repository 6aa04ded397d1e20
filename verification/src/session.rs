//! What the views of a loaded design ask for: schematics, the tree of scopes, the signals
//! of a scope, and where a selection leads in the other views.
//!
//! The waveform and the resolution of a selection to a node belong to others; what they
//! answer comes in as plain values.

use crate::files::{pick_source_path, source_path};
use crate::model::{
    at_path, enum_of, mapped, names_in, node_at, Design, Dir, Document, EnumMember, FileEntry,
    NameClass, NameRef, Node, NodeId, NodeKind, Range,
};
use crate::schematic::cone::{cone, cone_view};
use crate::schematic::hierarchy::hierarchical;
use crate::schematic::kinds::{is_navigable_scope, navigable};
use crate::schematic::labels::{
    file_by_id, file_from, module_name, module_of, pin_width, width_in,
};
use crate::schematic::scope::{
    expand, expand_with, find_scope, navigable_from, opt_graph, scope_at, scope_graph,
    scope_graph_with, scope_view,
};
use crate::schematic::trace::{trace_graph, traced};
use crate::schematic::types::{ConeLimits, Projection, SchematicGraph, TraceStep};
use crate::text::{
    all_chars, clone_opt, holds_text, last_segment, opt_chars, owned, push_text, same,
    tail_segment,
};
use crate::words::{trim, trimmed, Phrase};
use vstd::prelude::*;
use vstd::string::*;

verus! {

broadcast use vstd::string::group_string_axioms;

/// A node, as the views name it.
#[derive(Debug, Clone)]
pub struct NodeRef {
    pub id: NodeId,
    pub path: String,
    pub kind: String,
}

/// Where the source view goes.
#[derive(Debug, Clone)]
pub struct SourceLoc {
    pub file: u32,
    pub path: String,
    pub line: u32,
    /// Last line of the construct.
    pub end_line: u32,
    pub col: u32,
    pub offset: u32,
    pub end_offset: u32,
}

/// Where the waveform view goes.
#[derive(Debug, Clone)]
pub struct WaveLink {
    pub in_trace: bool,
    pub var_ref: u32,
    pub signal_ref: u32,
    pub full_name: String,
    /// The members of the signal's type where that is an enum.
    pub enum_map: Option<Vec<EnumMember>>,
}

/// Where a selection leads, and what else it could have meant.
#[derive(Debug, Clone)]
pub struct ProbeResponse {
    pub anchor: NodeRef,
    pub source: Option<SourceLoc>,
    /// The span of high-level source that `source` was generated from.
    pub mapped_source: Option<SourceLoc>,
    pub wave: WaveLink,
    pub alternatives: Vec<NodeRef>,
}

/// A source file of the design.
#[derive(Debug, Clone)]
pub struct SourceFile {
    pub id: u32,
    pub path: String,
    /// Source language; `None` stands for SystemVerilog.
    pub language: Option<String>,
}

/// An identifier occurrence as the source pane colours it.
#[derive(Debug, Clone)]
pub struct NameRefDto {
    /// 1-based line.
    pub line: u32,
    /// 1-based byte column of the first character.
    pub col: u32,
    pub offset: u32,
    pub len: u32,
    /// What the identifier names.
    pub cls: String,
}

/// The word for what an identifier names, in lower case with hyphens.
pub open spec fn class_word(c: NameClass) -> Seq<char> {
    match c {
        NameClass::Module => "module"@,
        NameClass::Instance => "instance"@,
        NameClass::Port => "port"@,
        NameClass::Signal => "signal"@,
        NameClass::Param => "param"@,
        NameClass::Type => "type"@,
        NameClass::EnumMember => "enum-member"@,
        NameClass::Function => "function"@,
        NameClass::Interface => "interface"@,
        NameClass::Modport => "modport"@,
        NameClass::Genvar => "genvar"@,
    }
}

/// The word for what an identifier names.
pub fn name_class_word(c: NameClass) -> (r: &'static str)
    ensures
        r@ == class_word(c),
{
    match c {
        NameClass::Module => "module",
        NameClass::Instance => "instance",
        NameClass::Port => "port",
        NameClass::Signal => "signal",
        NameClass::Param => "param",
        NameClass::Type => "type",
        NameClass::EnumMember => "enum-member",
        NameClass::Function => "function",
        NameClass::Interface => "interface",
        NameClass::Modport => "modport",
        NameClass::Genvar => "genvar",
    }
}

/// Whether an entry is that of an identifier occurrence.
pub open spec fn shows_name(x: NameRefDto, r: NameRef) -> bool {
    x.line == r.line && x.col == r.col && x.offset == r.offset && x.len == r.len && x.cls@
        == class_word(r.class)
}

/// A scope in the tree of scopes, with its children down to the depth asked for.
#[derive(Debug)]
pub struct TreeNode {
    /// Last part of the path.
    pub label: String,
    pub path: String,
    /// The module or interface that it is an instance of.
    pub module: Option<String>,
    /// Whether there are scopes below, shown or not.
    pub expandable: bool,
    pub children: Vec<TreeNode>,
}

/// A signal of a scope.
#[derive(Debug, Clone)]
pub struct SignalEntry {
    pub path: String,
    pub name: String,
    pub kind: NodeKind,
    /// Bit range as declared; `None` for a single bit.
    pub width: Option<String>,
    /// Whether the trace has the signal.
    pub in_trace: bool,
}

/// What a selection was resolved to.
#[derive(Debug, Clone)]
pub struct Resolution {
    pub anchor: NodeId,
    pub alternatives: Vec<NodeId>,
}

/// The source ranges of a selection.
#[derive(Debug, Clone, Copy)]
pub struct SourceTarget {
    pub def: Option<Range>,
    pub inst: Option<Range>,
}

/// The waveform signal of a selection.
#[derive(Debug, Clone)]
pub enum WaveTarget {
    Linked { var_ref: u32, full_name: String },
    NotInTrace,
}

/// A step of a trace, from the node at a path.
#[derive(Debug, Clone)]
pub struct TraceStepReq {
    pub path: String,
    pub dir: Dir,
    /// Hops for this step; one where it is not told.
    pub depth: Option<usize>,
    pub fanout: Option<usize>,
}

/// A loaded design with where its sources are.
pub struct Session {
    pub design: Design,
    pub src_root: String,
}

// --- Kinds --------------------------------------------------------------------

/// Whether a kind is of signals that a trace can have.
pub open spec fn traceable(k: NodeKind) -> bool {
    k == NodeKind::Port || k == NodeKind::Net || k == NodeKind::Var || k == NodeKind::Memory
}

fn is_signal_kind(k: NodeKind) -> (r: bool)
    ensures
        r == traceable(k),
{
    match k {
        NodeKind::Port | NodeKind::Net | NodeKind::Var | NodeKind::Memory => true,
        _ => false,
    }
}

// --- The tree of scopes -------------------------------------------------------

/// Whether a node is a generate block without a name: one iteration of an array of them.
pub open spec fn is_iteration(d: Document, id: u32) -> bool {
    match node_at(d, id) {
        Some(n) => n.kind == NodeKind::GenBlock && n.name@.len() == 0,
        None => false,
    }
}

/// Whether a node is a named generate block around iterations.
pub open spec fn is_array(d: Document, id: u32) -> bool {
    match node_at(d, id) {
        Some(n) => n.kind == NodeKind::GenBlock && n.name@.len() > 0 && exists|k: int|
            0 <= k < n.children@.len() && is_iteration(d, #[trigger] n.children@[k]),
        None => false,
    }
}

/// The scopes among the first `n` nodes, behind others.
pub open spec fn with_scopes(d: Document, out: Seq<u32>, ids: Seq<u32>, n: nat) -> Seq<u32>
    decreases n,
{
    if n == 0 {
        out
    } else {
        let r = with_scopes(d, out, ids, (n - 1) as nat);
        if navigable(d, ids[n - 1]) {
            r.push(ids[n - 1])
        } else {
            r
        }
    }
}

/// The rows of the tree for the first `n` children: their scopes, with an array of
/// generate blocks replaced by its iterations.
pub open spec fn rows_of(d: Document, children: Seq<u32>, n: nat) -> Seq<u32>
    decreases n,
{
    if n == 0 {
        Seq::empty()
    } else {
        let r = rows_of(d, children, (n - 1) as nat);
        let c = children[n - 1];
        if !navigable(d, c) {
            r
        } else if is_array(d, c) {
            let inner = node_at(d, c)->0.children@;
            with_scopes(d, r, inner, inner.len())
        } else {
            r.push(c)
        }
    }
}

/// The rows of the tree below a node.
pub open spec fn tree_rows(d: Document, n: Node) -> Seq<u32> {
    rows_of(d, n.children@, n.children@.len())
}

/// Whether a tree is that of the scopes below a node, to a depth.
pub open spec fn is_tree(t: TreeNode, d: Document, id: u32, depth: nat) -> bool
    decreases depth,
{
    match node_at(d, id) {
        Some(n) => {
            let rows = tree_rows(d, n);
            &&& t.label@ == tail_segment(n.path@)
            &&& t.path@ == n.path@
            &&& opt_chars(t.module) == module_name(d, n)
            &&& t.expandable == (rows.len() > 0)
            &&& if depth == 0 {
                t.children@.len() == 0
            } else {
                &&& t.children@.len() == rows.len()
                &&& forall|k: int|
                    0 <= k < rows.len() ==> is_tree(
                        #[trigger] t.children@[k],
                        d,
                        rows[k],
                        (depth - 1) as nat,
                    )
            }
        },
        None => false,
    }
}

fn is_gen_array_container(design: &Design, id: NodeId) -> (r: bool)
    ensures
        r == is_array(design.doc, id),
{
    match design.node(id) {
        Some(n) => {
            if n.kind != NodeKind::GenBlock || n.name.as_str().is_empty() {
                return false;
            }
            let mut i: usize = 0;
            while i < n.children.len()
                invariant
                    i <= n.children@.len(),
                    node_at(design.doc, id) == Some(*n),
                    n.kind == NodeKind::GenBlock,
                    n.name@.len() > 0,
                    forall|k: int|
                        0 <= k < i ==> !is_iteration(design.doc, #[trigger] n.children@[k]),
                decreases n.children@.len() - i,
            {
                match design.node(n.children[i]) {
                    Some(c) => {
                        if c.kind == NodeKind::GenBlock && c.name.as_str().is_empty() {
                            assert(is_iteration(design.doc, n.children@[i as int]));
                            return true;
                        }
                    },
                    None => {},
                }
                i += 1;
            }
            false
        },
        None => false,
    }
}

fn push_scopes(design: &Design, out: &mut Vec<NodeId>, ids: &Vec<NodeId>)
    requires
        hierarchical(design.doc),
    ensures
        final(out)@ == with_scopes(design.doc, old(out)@, ids@, ids@.len()),
{
    let ghost before = out@;
    let mut i: usize = 0;
    while i < ids.len()
        invariant
            i <= ids@.len(),
            hierarchical(design.doc),
            out@ == with_scopes(design.doc, before, ids@, i as nat),
        decreases ids@.len() - i,
    {
        if is_navigable_scope(design, ids[i]) {
            out.push(ids[i]);
        }
        i += 1;
    }
}

fn tree_children(design: &Design, children: &Vec<NodeId>) -> (r: Vec<NodeId>)
    requires
        hierarchical(design.doc),
    ensures
        r@ == rows_of(design.doc, children@, children@.len()),
{
    let mut out: Vec<NodeId> = Vec::new();
    let mut i: usize = 0;
    while i < children.len()
        invariant
            i <= children@.len(),
            hierarchical(design.doc),
            out@ == rows_of(design.doc, children@, i as nat),
        decreases children@.len() - i,
    {
        let c: NodeId = children[i];
        if is_navigable_scope(design, c) {
            if is_gen_array_container(design, c) {
                match design.node(c) {
                    Some(n) => {
                        push_scopes(design, &mut out, &n.children);
                    },
                    None => {},
                }
            } else {
                out.push(c);
            }
        }
        i += 1;
    }
    out
}

/// Whether all of several nodes are scopes.
pub open spec fn all_navigable(d: Document, ids: Seq<u32>) -> bool {
    forall|k: int| 0 <= k < ids.len() ==> navigable(d, #[trigger] ids[k])
}

proof fn lemma_with_scopes(d: Document, out: Seq<u32>, ids: Seq<u32>, n: nat)
    requires
        all_navigable(d, out),
    ensures
        all_navigable(d, with_scopes(d, out, ids, n)),
    decreases n,
{
    if n > 0 {
        lemma_with_scopes(d, out, ids, (n - 1) as nat);
    }
}

proof fn lemma_rows_navigable(d: Document, children: Seq<u32>, n: nat)
    ensures
        all_navigable(d, rows_of(d, children, n)),
    decreases n,
{
    if n > 0 {
        lemma_rows_navigable(d, children, (n - 1) as nat);
        let c = children[n - 1];
        if navigable(d, c) && is_array(d, c) {
            let inner = node_at(d, c)->0.children@;
            lemma_with_scopes(d, rows_of(d, children, (n - 1) as nat), inner, inner.len());
        }
    }
}

fn tree_node(design: &Design, id: NodeId, depth: usize) -> (r: TreeNode)
    requires
        hierarchical(design.doc),
        id < design.doc.nodes@.len(),
    ensures
        is_tree(r, design.doc, id, depth as nat),
    decreases depth,
{
    let n: &Node = &design.doc.nodes[id as usize];
    let rows: Vec<NodeId> = tree_children(design, &n.children);
    let mut children: Vec<TreeNode> = Vec::new();
    proof {
        lemma_rows_navigable(design.doc, n.children@, n.children@.len());
    }
    if depth > 0 {
        let mut i: usize = 0;
        while i < rows.len()
            invariant
                i <= rows@.len(),
                depth > 0,
                hierarchical(design.doc),
                all_navigable(design.doc, rows@),
                children@.len() == i,
                forall|k: int|
                    0 <= k < i ==> is_tree(
                        #[trigger] children@[k],
                        design.doc,
                        rows@[k],
                        (depth - 1) as nat,
                    ),
            decreases rows@.len() - i,
        {
            assert(navigable(design.doc, rows@[i as int]));
            assert(rows@[i as int] < design.doc.nodes@.len());
            children.push(tree_node(design, rows[i], depth - 1));
            i += 1;
        }
    }
    TreeNode {
        label: owned(last_segment(n.path.as_str())),
        path: n.path.clone(),
        module: module_of(design, n),
        expandable: rows.len() > 0,
        children,
    }
}

// --- The signals of a scope ---------------------------------------------------

/// The scopes at a path.
pub open spec fn scopes_at(d: Document, path: Seq<char>) -> Seq<u32> {
    with_scopes(d, Seq::empty(), at_path(d, path), at_path(d, path).len())
}

/// The paths of the signals among the first `n` nodes, behind others, each once.
pub open spec fn with_signals(d: Document, out: Seq<Seq<char>>, ids: Seq<u32>, n: nat) -> Seq<
    Seq<char>,
>
    decreases n,
{
    if n == 0 {
        out
    } else {
        let r = with_signals(d, out, ids, (n - 1) as nat);
        match node_at(d, ids[n - 1]) {
            Some(x) => if traceable(x.kind) && !r.contains(x.path@) {
                r.push(x.path@)
            } else {
                r
            },
            None => r,
        }
    }
}

/// The paths of the signals declared in the first `n` scopes, each once, as they come.
pub open spec fn signals_in(d: Document, scopes: Seq<u32>, n: nat) -> Seq<Seq<char>>
    decreases n,
{
    if n == 0 {
        Seq::empty()
    } else {
        let r = signals_in(d, scopes, (n - 1) as nat);
        match node_at(d, scopes[n - 1]) {
            Some(x) => with_signals(d, r, x.children@, x.children@.len()),
            None => r,
        }
    }
}

fn push_signals(design: &Design, out: &mut Vec<String>, ids: &Vec<NodeId>)
    ensures
        all_chars(final(out)@) == with_signals(
            design.doc,
            all_chars(old(out)@),
            ids@,
            ids@.len(),
        ),
{
    let ghost before = all_chars(out@);
    let mut i: usize = 0;
    while i < ids.len()
        invariant
            i <= ids@.len(),
            all_chars(out@) == with_signals(design.doc, before, ids@, i as nat),
        decreases ids@.len() - i,
    {
        match design.node(ids[i]) {
            Some(n) => {
                if is_signal_kind(n.kind) && !holds_text(
                    out.as_slice(),
                    n.path.as_str(),
                ) {
                    let ghost sofar = all_chars(out@);
                    out.push(n.path.clone());
                    assert(all_chars(out@) =~= sofar.push(n.path@));
                }
            },
            None => {},
        }
        i += 1;
    }
}

// --- Places -------------------------------------------------------------------

/// Whether a reference names a node; one that does not exist has no path and no kind.
pub open spec fn is_ref(r: NodeRef, d: Document, id: u32) -> bool {
    &&& r.id == id
    &&& match node_at(d, id) {
        Some(n) => r.path@ == n.path@ && r.kind@ == n.kind.text(),
        None => r.path@.len() == 0 && r.kind@.len() == 0,
    }
}

/// Whether references name nodes.
pub open spec fn are_refs(v: Seq<NodeRef>, d: Document, ids: Seq<u32>) -> bool {
    v.len() == ids.len() && forall|k: int|
        0 <= k < v.len() ==> is_ref(#[trigger] v[k], d, ids[k])
}

/// Whether a location is that of a range.
pub open spec fn is_location(l: SourceLoc, d: Document, r: Range) -> bool {
    &&& l.file == r.file
    &&& l.path@ == match file_from(d.files@, r.file, 0) {
        Some(f) => f.path@,
        None => Seq::empty(),
    }
    &&& l.line == r.start.line
    &&& l.end_line == r.end.line
    &&& l.col == r.start.col
    &&& l.offset == r.start.offset
    &&& l.end_offset == r.end.offset
}

/// The range that a selection shows: its definition, or else its instantiation.
pub open spec fn shown_range(t: SourceTarget) -> Option<Range> {
    match t.def {
        Some(r) => Some(r),
        None => t.inst,
    }
}

/// The members of the enum that a node's type is.
pub open spec fn members_of(d: Document, id: u32) -> Option<Seq<EnumMember>> {
    match node_at(d, id) {
        Some(n) => match n.type_ {
            Some(t) => match enum_of(d, t@) {
                Some(e) => Some(e.members@),
                None => None,
            },
            None => None,
        },
        None => None,
    }
}

/// Whether a link leads to a waveform signal.
pub open spec fn is_link_to(l: WaveLink, d: Document, anchor: u32, w: WaveTarget, signal_ref: u32) -> bool {
    match w {
        WaveTarget::Linked { var_ref, full_name } => {
            &&& l.in_trace
            &&& l.var_ref == var_ref
            &&& l.signal_ref == signal_ref
            &&& l.full_name@ == full_name@
            &&& match l.enum_map {
                Some(m) => members_of(d, anchor) == Some(m@),
                None => members_of(d, anchor) is None,
            }
        },
        WaveTarget::NotInTrace => {
            &&& !l.in_trace
            &&& l.var_ref == 0
            &&& l.signal_ref == 0
            &&& l.full_name@.len() == 0
            &&& l.enum_map is None
        },
    }
}

fn location(design: &Design, r: Range) -> (l: SourceLoc)
    ensures
        is_location(l, design.doc, r),
{
    let path: String = match file_by_id(&design.doc.files, r.file) {
        Some(f) => f.path.clone(),
        None => String::new(),
    };
    SourceLoc {
        file: r.file,
        path,
        line: r.start.line,
        end_line: r.end.line,
        col: r.start.col,
        offset: r.start.offset,
        end_offset: r.end.offset,
    }
}

fn copy_members(v: &Vec<EnumMember>) -> (r: Vec<EnumMember>)
    ensures
        r@ == v@,
{
    let mut out: Vec<EnumMember> = Vec::new();
    let mut i: usize = 0;
    while i < v.len()
        invariant
            i <= v@.len(),
            out@ == v@.take(i as int),
        decreases v@.len() - i,
    {
        out.push(EnumMember { name: v[i].name.clone(), value: v[i].value });
        i += 1;
        assert(out@ =~= v@.take(i as int));
    }
    assert(out@ =~= v@);
    out
}

/// The direction that a cone is asked for in; anything unknown means both.
pub open spec fn dir_named(s: Seq<char>) -> Dir {
    if s == "in"@ {
        Dir::In
    } else if s == "out"@ {
        Dir::Out
    } else {
        Dir::Inout
    }
}

/// The direction that a cone is asked for in; anything unknown means both.
pub fn parse_dir(s: &str) -> (r: Dir)
    ensures
        r == dir_named(s@),
{
    if same(s, "in") {
        Dir::In
    } else if same(s, "out") {
        Dir::Out
    } else {
        Dir::Inout
    }
}

/// The steps of a trace from paths: the first node at each, one hop where it is not told,
/// and no more hops than the whole trace may have.
pub open spec fn steps_from(d: Document, reqs: Seq<TraceStepReq>, limit: nat, n: nat) -> Result<
    Seq<TraceStep>,
    Seq<char>,
>
    decreases n,
{
    if n == 0 {
        Ok(Seq::empty())
    } else {
        match steps_from(d, reqs, limit, (n - 1) as nat) {
            Ok(r) => {
                let q = reqs[n - 1];
                if at_path(d, q.path@).len() == 0 {
                    Err("trace seed not found: "@ + q.path@)
                } else {
                    let hops = match q.depth {
                        Some(h) => h,
                        None => 1usize,
                    };
                    Ok(
                        r.push(
                            TraceStep {
                                seed: at_path(d, q.path@)[0],
                                dir: q.dir,
                                depth: if hops <= limit {
                                    hops
                                } else {
                                    limit as usize
                                },
                                fanout: q.fanout,
                            },
                        ),
                    )
                }
            },
            Err(e) => Err(e),
        }
    }
}

impl Session {
    /// Whether the design can be asked: its indices are right and its walks end.
    pub open spec fn wf(&self) -> bool {
        self.design.wf() && hierarchical(self.design.doc)
    }

    /// The name of the design's top.
    pub fn design_top(&self) -> (r: String)
        ensures
            r@ == self.design.doc.design@,
    {
        self.design.doc.design.clone()
    }

    /// The nodes at the top.
    pub fn list_scopes(&self) -> (r: Vec<NodeRef>)
        requires
            self.wf(),
        ensures
            are_refs(r@, self.design.doc, at_path(self.design.doc, self.design.doc.design@)),
    {
        let at: &[NodeId] = self.design.nodes_at_path(self.design.doc.design.as_str());
        self.node_refs(at)
    }

    /// The schematic of a scope.
    pub fn scope_graph(&self, scope: &str) -> (r: Option<SchematicGraph>)
        requires
            self.wf(),
        ensures
            opt_graph(r) == scope_view(self.design.doc, scope@, Projection::ProcessLevel),
    {
        scope_graph(&self.design, scope)
    }

    /// The schematic of a scope at a projection.
    pub fn scope_graph_with(&self, scope: &str, projection: Projection) -> (r: Option<
        SchematicGraph,
    >)
        requires
            self.wf(),
        ensures
            opt_graph(r) == scope_view(self.design.doc, scope@, projection),
    {
        scope_graph_with(&self.design, scope, projection)
    }

    /// The tree of scopes below the first scope at a path, to a depth. `None` where the
    /// path names no scope.
    pub fn hierarchy_tree(&self, scope: &str, depth: usize) -> (r: Option<TreeNode>)
        requires
            self.wf(),
        ensures
            match scope_at(self.design.doc, scope@) {
                Some(id) => r is Some && is_tree(r->0, self.design.doc, id, depth as nat),
                None => r is None,
            },
    {
        match find_scope(&self.design, scope) {
            Some(id) => {
                proof {
                    lemma_scope_exists(self.design.doc, scope@);
                }
                Some(tree_node(&self.design, id, depth))
            },
            None => None,
        }
    }

    /// The paths of the signals declared in the scopes at a path, each once, in the order
    /// of declaration. `None` where the path names no scope.
    pub fn scope_signals(&self, scope: &str) -> (r: Option<Vec<String>>)
        requires
            self.wf(),
        ensures
            ({
                let scopes = scopes_at(self.design.doc, scope@);
                match r {
                    Some(v) => scopes.len() > 0 && all_chars(v@) == signals_in(
                        self.design.doc,
                        scopes,
                        scopes.len(),
                    ),
                    None => scopes.len() == 0,
                }
            }),
    {
        let at: &[NodeId] = self.design.nodes_at_path(scope);
        let ghost ids = at_path(self.design.doc, scope@);
        let mut roots: Vec<NodeId> = Vec::new();
        let mut i: usize = 0;
        while i < at.len()
            invariant
                i <= at@.len(),
                at@ == ids,
                self.wf(),
                roots@ == with_scopes(self.design.doc, Seq::empty(), ids, i as nat),
            decreases at@.len() - i,
        {
            if is_navigable_scope(&self.design, at[i]) {
                roots.push(at[i]);
            }
            i += 1;
        }
        if roots.len() == 0 {
            return None;
        }
        let mut out: Vec<String> = Vec::new();
        let mut j: usize = 0;
        assert(all_chars(out@) =~= Seq::empty());
        while j < roots.len()
            invariant
                j <= roots@.len(),
                all_chars(out@) == signals_in(self.design.doc, roots@, j as nat),
            decreases roots@.len() - j,
        {
            match self.design.node(roots[j]) {
                Some(n) => {
                    push_signals(&self.design, &mut out, &n.children);
                },
                None => {},
            }
            j += 1;
        }
        Some(out)
    }

    /// A row for a signal: `anchor` is the node that its path was resolved to, and
    /// `in_trace` whether the trace has it.
    pub fn signal_entry(&self, anchor: NodeId, in_trace: bool) -> (r: Option<SignalEntry>)
        ensures
            match node_at(self.design.doc, anchor) {
                Some(n) => r is Some && r->0.path@ == n.path@ && r->0.name@ == n.name@ && r->0.kind
                    == n.kind && opt_chars(r->0.width) == width_in(self.design.doc, n.type_)
                    && r->0.in_trace == in_trace,
                None => r is None,
            },
    {
        match self.design.node(anchor) {
            Some(n) => Some(
                SignalEntry {
                    path: n.path.clone(),
                    name: n.name.clone(),
                    kind: n.kind,
                    width: pin_width(&self.design, &n.type_),
                    in_trace,
                },
            ),
            None => None,
        }
    }

    /// The schematic inside a node.
    pub fn expand(&self, node: NodeId) -> (r: Option<SchematicGraph>)
        requires
            self.wf(),
        ensures
            opt_graph(r) == match node_at(self.design.doc, node) {
                Some(n) => scope_view(self.design.doc, n.path@, Projection::ProcessLevel),
                None => None,
            },
    {
        expand(&self.design, node)
    }

    /// The schematic inside a node at a projection.
    pub fn expand_with(&self, node: NodeId, projection: Projection) -> (r: Option<SchematicGraph>)
        requires
            self.wf(),
        ensures
            opt_graph(r) == match node_at(self.design.doc, node) {
                Some(n) => scope_view(self.design.doc, n.path@, projection),
                None => None,
            },
    {
        expand_with(&self.design, node, projection)
    }

    /// The cone of a net, in a direction by its name.
    pub fn cone(&self, net: NodeId, dir: &str, depth: usize) -> (r: SchematicGraph)
        requires
            self.wf(),
        ensures
            r@ == cone_view(self.design.doc, net, dir_named(dir@), depth as nat),
    {
        cone(&self.design, net, parse_dir(dir), depth)
    }

    /// The trace of several steps, each from the node at a path. A path that names no node
    /// is an error that names it.
    pub fn trace_graph(
        &self,
        reqs: &[TraceStepReq],
        limits: ConeLimits,
        projection: Projection,
    ) -> (r: Result<SchematicGraph, String>)
        requires
            self.wf(),
        ensures
            match steps_from(self.design.doc, reqs@, limits.depth as nat, reqs@.len()) {
                Ok(steps) => r is Ok && r->Ok_0@ == traced(
                    self.design.doc,
                    steps,
                    limits,
                    projection,
                ),
                Err(e) => r is Err && r->Err_0@ == e,
            },
    {
        let mut steps: Vec<TraceStep> = Vec::new();
        let mut i: usize = 0;
        while i < reqs.len()
            invariant
                i <= reqs@.len(),
                self.wf(),
                steps_from(self.design.doc, reqs@, limits.depth as nat, i as nat) == Ok::<
                    _,
                    Seq<char>,
                >(steps@),
            decreases reqs@.len() - i,
        {
            let q: &TraceStepReq = &reqs[i];
            let at: &[NodeId] = self.design.nodes_at_path(q.path.as_str());
            if at.len() == 0 {
                proof {
                    lemma_steps_fail(
                        self.design.doc,
                        reqs@,
                        limits.depth as nat,
                        (i + 1) as nat,
                        reqs@.len(),
                    );
                }
                return Err(Phrase::new("trace seed not found: ").add(q.path.as_str()).done());
            }
            let hops: usize = match q.depth {
                Some(h) => h,
                None => 1,
            };
            let depth: usize = if hops <= limits.depth {
                hops
            } else {
                limits.depth
            };
            steps.push(TraceStep { seed: at[0], dir: q.dir, depth, fanout: q.fanout });
            i += 1;
        }
        Ok(trace_graph(&self.design, steps.as_slice(), limits, projection))
    }

    /// The path of a source file as the design names it.
    pub fn source_file_path(&self, file: u32) -> (r: Option<String>)
        ensures
            opt_chars(r) == match file_from(self.design.doc.files@, file, 0) {
                Some(f) => Some(f.path@),
                None => None,
            },
    {
        match file_by_id(&self.design.doc.files, file) {
            Some(f) => Some(f.path.clone()),
            None => None,
        }
    }

    /// The source files of the design.
    pub fn source_files(&self) -> (r: Vec<SourceFile>)
        ensures
            r@.len() == self.design.doc.files@.len(),
            forall|k: int|
                0 <= k < r@.len() ==> (#[trigger] r@[k]).id == self.design.doc.files@[k].id
                    && r@[k].path@ == self.design.doc.files@[k].path@ && r@[k].language
                    == self.design.doc.files@[k].language,
    {
        let files: &Vec<FileEntry> = &self.design.doc.files;
        let mut out: Vec<SourceFile> = Vec::new();
        let mut i: usize = 0;
        while i < files.len()
            invariant
                i <= files@.len(),
                files@ == self.design.doc.files@,
                out@.len() == i,
                forall|k: int|
                    0 <= k < i ==> (#[trigger] out@[k]).id == files@[k].id && out@[k].path@
                        == files@[k].path@ && out@[k].language == files@[k].language,
            decreases files@.len() - i,
        {
            let f: &FileEntry = &files[i];
            out.push(
                SourceFile { id: f.id, path: f.path.clone(), language: clone_opt(&f.language) },
            );
            i += 1;
        }
        out
    }

    /// The identifier occurrences in a source file, in document order.
    pub fn name_refs(&self, file: u32) -> (r: Vec<NameRefDto>)
        ensures
            ({
                let all = names_in(
                    self.design.doc.name_refs@,
                    file,
                    self.design.doc.name_refs@.len(),
                );
                &&& r@.len() == all.len()
                &&& forall|k: int| 0 <= k < r@.len() ==> shows_name(#[trigger] r@[k], all[k])
            }),
    {
        let found: Vec<&NameRef> = self.design.name_refs_in_file(file);
        let ghost all = names_in(
            self.design.doc.name_refs@,
            file,
            self.design.doc.name_refs@.len(),
        );
        let mut out: Vec<NameRefDto> = Vec::new();
        let mut i: usize = 0;
        while i < found.len()
            invariant
                i <= found@.len(),
                found@.len() == all.len(),
                forall|k: int| 0 <= k < found@.len() ==> *(#[trigger] found@[k]) == all[k],
                out@.len() == i,
                forall|k: int| 0 <= k < i ==> shows_name(#[trigger] out@[k], all[k]),
            decreases found@.len() - i,
        {
            let n: &NameRef = found[i];
            out.push(
                NameRefDto {
                    line: n.line,
                    col: n.col,
                    offset: n.offset,
                    len: n.len,
                    cls: owned(name_class_word(n.class)),
                },
            );
            i += 1;
        }
        out
    }

    /// Which path a source file is read from.
    pub fn resolve_source(&self, path: &str, joined_exists: bool, path_exists: bool) -> (r: String)
        ensures
            r@ == source_path(self.src_root@, path@, joined_exists, path_exists),
    {
        pick_source_path(self.src_root.as_str(), path, joined_exists, path_exists)
    }

    /// The node that stands for the scope that a view is in: the first at its path.
    pub fn context_node(&self, context: Option<&str>) -> (r: Option<NodeId>)
        requires
            self.wf(),
        ensures
            r == match context {
                Some(c) => if at_path(self.design.doc, c@).len() > 0 {
                    Some(at_path(self.design.doc, c@)[0])
                } else {
                    None
                },
                None => None,
            },
    {
        match context {
            Some(c) => {
                let at: &[NodeId] = self.design.nodes_at_path(c);
                if at.len() > 0 {
                    Some(at[0])
                } else {
                    None
                }
            },
            None => None,
        }
    }

    fn node_ref(&self, id: NodeId) -> (r: NodeRef)
        ensures
            is_ref(r, self.design.doc, id),
    {
        match self.design.node(id) {
            Some(n) => NodeRef { id, path: n.path.clone(), kind: owned(n.kind.name()) },
            None => NodeRef { id, path: String::new(), kind: String::new() },
        }
    }

    fn node_refs(&self, ids: &[NodeId]) -> (r: Vec<NodeRef>)
        ensures
            are_refs(r@, self.design.doc, ids@),
    {
        let mut out: Vec<NodeRef> = Vec::new();
        let mut i: usize = 0;
        while i < ids.len()
            invariant
                i <= ids@.len(),
                out@.len() == i,
                forall|k: int| 0 <= k < i ==> is_ref(#[trigger] out@[k], self.design.doc, ids@[k]),
            decreases ids@.len() - i,
        {
            out.push(self.node_ref(ids[i]));
            i += 1;
        }
        out
    }

    /// Where a selection leads: `r` is what it was resolved to, and the targets are its
    /// source ranges and its waveform signal. `signal_ref` is the signal behind the
    /// waveform variable.
    pub fn response(
        &self,
        r: &Resolution,
        source: SourceTarget,
        wave: &WaveTarget,
        signal_ref: u32,
    ) -> (p: ProbeResponse)
        requires
            self.wf(),
            shown_range(source) is Some ==> shown_range(source)->0.start.offset < usize::MAX,
        ensures
            is_ref(p.anchor, self.design.doc, r.anchor),
            match shown_range(source) {
                Some(range) => p.source is Some && is_location(
                    p.source->0,
                    self.design.doc,
                    range,
                ) && match mapped(
                    self.design.doc,
                    true,
                    range.file,
                    range.start.offset as int,
                ) {
                    Some(m) => p.mapped_source is Some && is_location(
                        p.mapped_source->0,
                        self.design.doc,
                        m.source,
                    ),
                    None => p.mapped_source is None,
                },
                None => p.source is None && p.mapped_source is None,
            },
            is_link_to(p.wave, self.design.doc, r.anchor, *wave, signal_ref),
            are_refs(p.alternatives@, self.design.doc, r.alternatives@),
    {
        let shown: Option<Range> = match source.def {
            Some(x) => Some(x),
            None => source.inst,
        };
        let (loc, mapped_loc) = match shown {
            Some(x) => {
                let m: Option<SourceLoc> = match self.design.mapped_from_gen(
                    x.file,
                    x.start.offset as usize,
                ) {
                    Some(y) => Some(location(&self.design, *y)),
                    None => None,
                };
                (Some(location(&self.design, x)), m)
            },
            None => (None, None),
        };
        ProbeResponse {
            anchor: self.node_ref(r.anchor),
            source: loc,
            mapped_source: mapped_loc,
            wave: self.wave_link(r.anchor, wave, signal_ref),
            alternatives: self.node_refs(r.alternatives.as_slice()),
        }
    }

    fn wave_link(&self, anchor: NodeId, wave: &WaveTarget, signal_ref: u32) -> (l: WaveLink)
        ensures
            is_link_to(l, self.design.doc, anchor, *wave, signal_ref),
    {
        match wave {
            WaveTarget::Linked { var_ref, full_name } => WaveLink {
                in_trace: true,
                var_ref: *var_ref,
                signal_ref,
                full_name: full_name.clone(),
                enum_map: self.enum_members(anchor),
            },
            WaveTarget::NotInTrace => WaveLink {
                in_trace: false,
                var_ref: 0,
                signal_ref: 0,
                full_name: String::new(),
                enum_map: None,
            },
        }
    }

    fn enum_members(&self, node: NodeId) -> (r: Option<Vec<EnumMember>>)
        ensures
            match r {
                Some(m) => members_of(self.design.doc, node) == Some(m@),
                None => members_of(self.design.doc, node) is None,
            },
    {
        match self.design.node(node) {
            Some(n) => match &n.type_ {
                Some(t) => match self.design.enum_for_type(t.as_str()) {
                    Some(e) => Some(copy_members(&e.members)),
                    None => None,
                },
                None => None,
            },
            None => None,
        }
    }
}

proof fn lemma_steps_fail(d: Document, reqs: Seq<TraceStepReq>, limit: nat, n: nat, m: nat)
    requires
        n <= m,
        steps_from(d, reqs, limit, n) is Err,
    ensures
        steps_from(d, reqs, limit, m) == steps_from(d, reqs, limit, n),
    decreases m - n,
{
    if n < m {
        lemma_steps_fail(d, reqs, limit, n, (m - 1) as nat);
    }
}

proof fn lemma_scope_exists(d: Document, path: Seq<char>)
    ensures
        scope_at(d, path) is Some ==> navigable(d, scope_at(d, path)->0) && scope_at(d, path)->0
            < d.nodes@.len(),
{
    lemma_navigable_from(d, at_path(d, path), 0);
}

proof fn lemma_navigable_from(d: Document, ids: Seq<u32>, from: int)
    ensures
        navigable_from(d, ids, from) is Some ==> navigable(d, navigable_from(d, ids, from)->0)
            && navigable_from(d, ids, from)->0 < d.nodes@.len(),
    decreases ids.len() - from,
{
    if 0 <= from < ids.len() && !navigable(d, ids[from]) {
        lemma_navigable_from(d, ids, from + 1);
    }
}

// --- Elaboration --------------------------------------------------------------

/// Arguments with a flag before each of the first `n` values.
pub open spec fn with_flagged(
    out: Seq<Seq<char>>,
    flag: Seq<char>,
    values: Seq<Seq<char>>,
    n: nat,
) -> Seq<Seq<char>>
    decreases n,
{
    if n == 0 {
        out
    } else {
        with_flagged(out, flag, values, (n - 1) as nat).push(flag).push(values[n - 1])
    }
}

/// The arguments of the elaborator. Primitives are always asked for; the
/// mapping to high-level sources only where such sources are named.
pub open spec fn harness_args(
    filelist: Seq<char>,
    top: Seq<char>,
    incdirs: Seq<Seq<char>>,
    hls_src: Seq<Seq<char>>,
) -> Seq<Seq<char>> {
    let a = with_flagged(
        seq!["--top"@, top, "-f"@, filelist],
        "-I"@,
        incdirs,
        incdirs.len(),
    ).push("--gate-level"@);
    let a = if hls_src.len() > 0 {
        with_flagged(a.push("--hls-map"@), "--hls-src"@, hls_src, hls_src.len())
    } else {
        a
    };
    a.push("-o"@).push("-"@)
}

fn push_flagged(out: &mut Vec<String>, flag: &str, values: &[String])
    ensures
        all_chars(final(out)@) == with_flagged(
            all_chars(old(out)@),
            flag@,
            all_chars(values@),
            values@.len(),
        ),
{
    let ghost before = all_chars(out@);
    let ghost vs = all_chars(values@);
    let mut i: usize = 0;
    while i < values.len()
        invariant
            i <= values@.len(),
            vs == all_chars(values@),
            all_chars(out@) == with_flagged(before, flag@, vs, i as nat),
        decreases values@.len() - i,
    {
        assert(vs[i as int] == values@[i as int]@);
        push_text(out, flag);
        push_text(out, values[i].as_str());
        i += 1;
    }
}

/// The arguments of the elaboration harness, which needs the name of a top module.
pub fn elaborate_argv(filelist: &str, top: &str, incdirs: &[String], hls_src: &[String]) -> (r:
    Result<Vec<String>, String>)
    ensures
        match r {
            Ok(a) => trimmed(top@).len() > 0 && all_chars(a@) == harness_args(
                filelist@,
                top@,
                all_chars(incdirs@),
                all_chars(hls_src@),
            ),
            Err(e) => trimmed(top@).len() == 0 && e@
                == "a top module name is required to elaborate a designlist"@,
        },
{
    if trim(top).is_empty() {
        return Err(owned("a top module name is required to elaborate a designlist"));
    }
    let mut out: Vec<String> = Vec::new();
    push_text(&mut out, "--top");
    push_text(&mut out, top);
    push_text(&mut out, "-f");
    push_text(&mut out, filelist);
    assert(all_chars(out@) =~= seq!["--top"@, top@, "-f"@, filelist@]);
    push_flagged(&mut out, "-I", incdirs);
    push_text(&mut out, "--gate-level");
    assert(all_chars(hls_src@).len() == hls_src@.len());
    if hls_src.len() > 0 {
        push_text(&mut out, "--hls-map");
        push_flagged(&mut out, "--hls-src", hls_src);
    }
    push_text(&mut out, "-o");
    push_text(&mut out, "-");
    Ok(out)
}

/// What is wrong with an elaborated design: the harness makes an empty one for a top
/// module that does not exist.
pub fn check_top(design: &Design, top: &str, harness_output: &str) -> (r: Result<(), String>)
    ensures
        match r {
            Ok(_) => design.doc.design@ == top@,
            Err(e) => design.doc.design@ != top@ && e@ == "elaboration produced no design for top '"@
                + top@
                + "' — check the top module name and the filelist. Harness output: "@
                + trimmed(harness_output@),
        },
{
    if same(design.doc.design.as_str(), top) {
        return Ok(());
    }
    Err(
        Phrase::new("elaboration produced no design for top '").add(top).add(
            "' — check the top module name and the filelist. Harness output: ",
        ).add(trim(harness_output)).done(),
    )
}

// --- Laws ---------------------------------------------------------------------

/// Every row of the tree opens: it is a scope that can be drawn and whose signals can be
/// listed.
pub proof fn law_tree_rows_open(d: Document, n: Node, k: int)
    requires
        0 <= k < tree_rows(d, n).len(),
    ensures
        navigable(d, tree_rows(d, n)[k]),
        node_at(d, tree_rows(d, n)[k]) is Some,
{
    lemma_rows_navigable(d, n.children@, n.children@.len());
    assert(navigable(d, tree_rows(d, n)[k]));
}

proof fn lemma_no_scopes(d: Document, ids: Seq<u32>, n: nat)
    requires
        n <= ids.len(),
    ensures
        with_scopes(d, Seq::empty(), ids, n).len() == 0 <==> forall|k: int|
            0 <= k < n ==> !navigable(d, #[trigger] ids[k]),
    decreases n,
{
    if n > 0 {
        lemma_no_scopes(d, ids, (n - 1) as nat);
    }
}

proof fn lemma_navigable_found(d: Document, ids: Seq<u32>, from: int)
    requires
        0 <= from,
    ensures
        navigable_from(d, ids, from) is None <==> forall|k: int|
            from <= k < ids.len() ==> !navigable(d, #[trigger] ids[k]),
    decreases ids.len() - from,
{
    if from < ids.len() && !navigable(d, ids[from]) {
        lemma_navigable_found(d, ids, from + 1);
    }
}

/// A path has a tree exactly where it has a schematic and a list of signals.
pub proof fn law_views_agree_on_scopes(d: Document, path: Seq<char>)
    ensures
        scope_at(d, path) is Some <==> scopes_at(d, path).len() > 0,
        scope_at(d, path) is Some <==> scope_view(d, path, Projection::ProcessLevel) is Some,
        scope_at(d, path) is Some <==> scope_view(d, path, Projection::GateLevel) is Some,
{
    let ids = at_path(d, path);
    lemma_no_scopes(d, ids, ids.len());
    lemma_navigable_found(d, ids, 0);
}

proof fn lemma_signals_unique(d: Document, out: Seq<Seq<char>>, ids: Seq<u32>, n: nat)
    requires
        out.no_duplicates(),
    ensures
        with_signals(d, out, ids, n).no_duplicates(),
    decreases n,
{
    if n > 0 {
        lemma_signals_unique(d, out, ids, (n - 1) as nat);
    }
}

/// A scope lists each signal once, though a port and its backing net share a path.
pub proof fn law_signals_are_listed_once(d: Document, scopes: Seq<u32>, n: nat)
    requires
        n <= scopes.len(),
    ensures
        signals_in(d, scopes, n).no_duplicates(),
    decreases n,
{
    if n > 0 {
        law_signals_are_listed_once(d, scopes, (n - 1) as nat);
        match node_at(d, scopes[n - 1]) {
            Some(x) => {
                lemma_signals_unique(
                    d,
                    signals_in(d, scopes, (n - 1) as nat),
                    x.children@,
                    x.children@.len(),
                );
            },
            None => {},
        }
    }
}

proof fn lemma_steps_within(d: Document, reqs: Seq<TraceStepReq>, limit: nat, n: nat)
    requires
        limit <= usize::MAX,
    ensures
        match steps_from(d, reqs, limit, n) {
            Ok(s) => s.len() == n && forall|k: int| 0 <= k < n ==> (#[trigger] s[k]).depth <= limit,
            Err(_) => true,
        },
    decreases n,
{
    if n > 0 {
        lemma_steps_within(d, reqs, limit, (n - 1) as nat);
    }
}

/// No step of a trace has more hops than the whole trace may have, and no step is dropped.
pub proof fn law_trace_steps_are_kept_within_limits(
    d: Document,
    reqs: Seq<TraceStepReq>,
    limits: ConeLimits,
)
    ensures
        match steps_from(d, reqs, limits.depth as nat, reqs.len()) {
            Ok(s) => s.len() == reqs.len() && forall|k: int|
                0 <= k < s.len() ==> (#[trigger] s[k]).depth <= limits.depth,
            Err(_) => true,
        },
{
    lemma_steps_within(d, reqs, limits.depth as nat, reqs.len());
}

} // verus!
