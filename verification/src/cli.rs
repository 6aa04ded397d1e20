//! What the command line asks for, and how the answers are written.

use crate::files::{file_name, name_of};
use crate::matcher::normalize::Rule;
use crate::matcher::run::{MatchReport, UnmatchedSignal};
use crate::model::{
    at_path, node_at, nodes_over, path_log, Design, Dir, Document, FileEntry, Node, NodeId,
    NodeKind, Range,
};
use crate::paths::paths_in;
use crate::schematic::cone::{cone, cone_view};
use crate::schematic::hierarchy::hierarchical;
use crate::schematic::labels::{file_by_id, file_from};
use crate::schematic::scope::{scope_graph, scope_view};
use crate::schematic::trace::{cone_with, traced};
use crate::schematic::types::{
    ConeLimits, GraphV, Projection, SchEdge, SchNode, SchematicGraph, TraceStep,
};
use crate::session::{dir_named, parse_dir, shown_range, SourceTarget, WaveTarget};
use crate::text::{all_chars, chars_of, decimal, dot_joined, last_index, opt_chars, owned, same};
use crate::words::{
    closes_with, ends_with, lines_of, number_up_to, parse_number, pieces, split_at, split_lines,
    split_on, split_once, trim, trimmed, Lines, Page, Phrase,
};
use vstd::prelude::*;
use vstd::string::*;

verus! {

broadcast use vstd::string::group_string_axioms;

// --- Source positions ---------------------------------------------------------

/// Why a source position cannot be found.
#[derive(Debug, Clone, Copy, PartialEq, Eq, Structural)]
pub enum SpecError {
    /// Parts are missing.
    Shape,
    /// The line or the offset is not a number.
    Number,
    /// The column is not a number.
    Column,
    /// No source file has the name.
    File,
}

/// Whether a name means a source file: its path, the end of its path, or its last part.
pub open spec fn names_file(path: Seq<char>, name: Seq<char>) -> bool {
    path == name || closes_with(path, "/"@ + name) || name_of(path) == Some(name)
}

/// The first of the source files, from `from`, that a name means.
pub open spec fn file_named(files: Seq<FileEntry>, name: Seq<char>, from: int) -> Option<FileEntry>
    decreases files.len() - from,
{
    if from < 0 || from >= files.len() {
        None
    } else if names_file(files[from].path@, name) {
        Some(files[from])
    } else {
        file_named(files, name, from + 1)
    }
}

/// The source file that a name means: the first whose path it is, whose path ends in it,
/// or whose last part it is.
pub fn file_entry<'a>(design: &'a Design, name: &str) -> (r: Option<&'a FileEntry>)
    ensures
        match r {
            Some(f) => file_named(design.doc.files@, name@, 0) == Some(*f),
            None => file_named(design.doc.files@, name@, 0) is None,
        },
{
    let files: &Vec<FileEntry> = &design.doc.files;
    let tail: String = Phrase::new("/").add(name).done();
    let mut i: usize = 0;
    while i < files.len()
        invariant
            i <= files@.len(),
            files@ == design.doc.files@,
            tail@ == "/"@ + name@,
            file_named(files@, name@, 0) == file_named(files@, name@, i as int),
        decreases files@.len() - i,
    {
        let path: &str = files[i].path.as_str();
        let last: bool = match file_name(path) {
            Some(s) => same(s.as_str(), name),
            None => false,
        };
        if same(path, name) || ends_with(path, tail.as_str()) || last {
            return Some(&files[i]);
        }
        i += 1;
    }
    None
}

/// A line of a source file, and a column in it.
#[derive(Debug, Clone)]
pub struct SourceSpec {
    pub file: u32,
    pub path: String,
    pub line: usize,
    pub col: usize,
}

/// What a position `FILE:LINE[:COL]` means; without a column the first.
pub open spec fn position_of(files: Seq<FileEntry>, spec: Seq<char>) -> Result<
    (FileEntry, nat, nat),
    SpecError,
> {
    let parts = pieces(spec, ':');
    if parts.len() < 2 {
        Err(SpecError::Shape)
    } else {
        match file_named(files, parts[0], 0) {
            None => Err(SpecError::File),
            Some(f) => match number_up_to(parts[1], usize::MAX as nat) {
                None => Err(SpecError::Number),
                Some(line) => if parts.len() == 2 {
                    Ok((f, line, 1))
                } else {
                    match number_up_to(parts[2], usize::MAX as nat) {
                        None => Err(SpecError::Column),
                        Some(col) => Ok((f, line, col)),
                    }
                },
            },
        }
    }
}

/// What a position `FILE:LINE[:COL]` means.
pub fn parse_source(design: &Design, spec: &str) -> (r: Result<SourceSpec, SpecError>)
    ensures
        match r {
            Ok(p) => match position_of(design.doc.files@, spec@) {
                Ok((f, line, col)) => p.file == f.id && p.path@ == f.path@ && p.line == line && p.col
                    == col,
                Err(_) => false,
            },
            Err(e) => position_of(design.doc.files@, spec@) == Err::<(FileEntry, nat, nat), _>(e),
        },
{
    let parts: Vec<String> = split_on(spec, ':');
    let ghost all = all_chars(parts@);
    assert(all.len() == parts@.len());
    if parts.len() < 2 {
        return Err(SpecError::Shape);
    }
    assert(all[0] == parts@[0]@ && all[1] == parts@[1]@);
    let f: &FileEntry = match file_entry(design, parts[0].as_str()) {
        Some(f) => f,
        None => {
            return Err(SpecError::File);
        },
    };
    let line: usize = match parse_number(parts[1].as_str(), usize::MAX as u64) {
        Some(n) => n as usize,
        None => {
            return Err(SpecError::Number);
        },
    };
    let col: usize = if parts.len() == 2 {
        1
    } else {
        assert(all[2] == parts@[2]@);
        match parse_number(parts[2].as_str(), usize::MAX as u64) {
            Some(n) => n as usize,
            None => {
                return Err(SpecError::Column);
            },
        }
    };
    Ok(SourceSpec { file: f.id, path: f.path.clone(), line, col })
}

/// Where a line starts, `from` being the start of the line `at`; `None` where there is no
/// such line. A line feed at the end of the text starts no further line.
pub open spec fn line_start(bytes: Seq<u8>, line: nat, at: nat, from: int, i: int) -> Option<int>
    decreases bytes.len() - i,
{
    if at == line {
        if from < bytes.len() {
            Some(from)
        } else {
            None
        }
    } else if i < 0 || i >= bytes.len() {
        None
    } else if bytes[i] == 10u8 {
        line_start(bytes, line, at + 1, i + 1, i + 1)
    } else {
        line_start(bytes, line, at, from, i + 1)
    }
}

/// The byte offset of a line and column, lines and columns counted from one; `None` where
/// the text has no such line.
pub open spec fn offset_at(bytes: Seq<u8>, line: nat, col: nat) -> Option<int> {
    match line_start(bytes, line, 1, 0, 0) {
        Some(start) => Some(
            start + (if col > 0 {
                col - 1
            } else {
                0
            }),
        ),
        None => None,
    }
}

/// The byte offset of a line and column in a text.
pub fn line_offset(text: &str, line: usize, col: usize) -> (r: Option<usize>)
    requires
        vstd::utf8::encode_utf8(text@).len() + col <= usize::MAX,
    ensures
        match r {
            Some(o) => offset_at(vstd::utf8::encode_utf8(text@), line as nat, col as nat) == Some(
                o as int,
            ),
            None => offset_at(vstd::utf8::encode_utf8(text@), line as nat, col as nat) is None,
        },
{
    let bytes: &[u8] = text.as_bytes();
    if line == 0 {
        proof {
            lemma_no_line_zero(bytes@, 1, 0, 0);
        }
        return None;
    }
    let mut at: usize = 1;
    let mut from: usize = 0;
    let mut i: usize = 0;
    while at != line && i < bytes.len()
        invariant
            1 <= at <= line,
            from <= i <= bytes@.len(),
            at <= i + 1,
            line_start(bytes@, line as nat, 1, 0, 0) == line_start(
                bytes@,
                line as nat,
                at as nat,
                from as int,
                i as int,
            ),
        decreases bytes@.len() - i,
    {
        if bytes[i] == 10 {
            at += 1;
            from = i + 1;
        }
        i += 1;
    }
    if at == line && from < bytes.len() {
        Some(
            from + if col > 0 {
                col - 1
            } else {
                0
            },
        )
    } else {
        None
    }
}

proof fn lemma_no_line_zero(bytes: Seq<u8>, at: nat, from: int, i: int)
    requires
        at > 0,
    ensures
        line_start(bytes, 0, at, from, i) is None,
    decreases bytes.len() - i,
{
    if 0 <= i < bytes.len() {
        if bytes[i] == 10u8 {
            lemma_no_line_zero(bytes, at + 1, i + 1, i + 1);
        } else {
            lemma_no_line_zero(bytes, at, from, i + 1);
        }
    }
}

/// What a position `FILE:OFFSET` means, the file by its number or its name.
pub open spec fn place_of(files: Seq<FileEntry>, spec: Seq<char>) -> Result<(u32, nat), SpecError> {
    match last_index(spec, ':', spec.len() as int) {
        None => Err(SpecError::Shape),
        Some(i) => {
            let file = spec.subrange(0, i);
            match number_up_to(spec.subrange(i + 1, spec.len() as int), usize::MAX as nat) {
                None => Err(SpecError::Number),
                Some(offset) => match number_up_to(file, u32::MAX as nat) {
                    Some(id) => Ok((id as u32, offset)),
                    None => match file_named(files, file, 0) {
                        Some(f) => Ok((f.id, offset)),
                        None => Err(SpecError::File),
                    },
                },
            }
        },
    }
}

/// What a position `FILE:OFFSET` means.
pub fn parse_offset(design: &Design, spec: &str) -> (r: Result<(u32, usize), SpecError>)
    ensures
        match r {
            Ok((id, offset)) => place_of(design.doc.files@, spec@) == Ok::<_, SpecError>(
                (id, offset as nat),
            ),
            Err(e) => place_of(design.doc.files@, spec@) == Err::<(u32, nat), _>(e),
        },
{
    let cs: Vec<char> = chars_of(spec);
    proof {
        crate::text::lemma_last_index_range(spec@, ':', spec@.len() as int);
    }
    let i: usize = match crate::text::rfind(cs.as_slice(), ':') {
        Some(i) => i,
        None => {
            return Err(SpecError::Shape);
        },
    };
    let file: &str = spec.substring_char(0, i);
    let offset: usize = match parse_number(
        spec.substring_char(i + 1, cs.len()),
        usize::MAX as u64,
    ) {
        Some(n) => n as usize,
        None => {
            return Err(SpecError::Number);
        },
    };
    match parse_number(file, u32::MAX as u64) {
        Some(id) => Ok((id as u32, offset)),
        None => match file_entry(design, file) {
            Some(f) => Ok((f.id, offset)),
            None => Err(SpecError::File),
        },
    }
}

// --- Excluded scopes ----------------------------------------------------------

/// A line without its comment and the white space around it.
pub open spec fn bare_line(line: Seq<char>) -> Seq<char> {
    let a = pieces(line, '#')[0];
    trimmed(
        match split_at(a, "//"@) {
            Some((b, _)) => b,
            None => a,
        },
    )
}

/// What the first `n` lines name.
pub open spec fn names_listed(lines: Seq<Seq<char>>, n: nat) -> Seq<Seq<char>>
    decreases n,
{
    if n == 0 {
        Seq::empty()
    } else {
        let r = names_listed(lines, (n - 1) as nat);
        let s = bare_line(lines[n - 1]);
        if s.len() > 0 {
            r.push(s)
        } else {
            r
        }
    }
}

proof fn lemma_pieces_nonempty(s: Seq<char>, c: char)
    ensures
        pieces(s, c).len() > 0,
{
    crate::text::lemma_first_index_range(s, c, 0);
}

/// The scopes that a file excludes: one name per line, without comments and blank lines.
pub fn excluded_scopes(text: &str) -> (r: Vec<String>)
    ensures
        all_chars(r@) == names_listed(lines_of(text@), lines_of(text@).len()),
{
    let lines: Vec<String> = split_lines(text);
    let ghost all = all_chars(lines@);
    let mut out: Vec<String> = Vec::new();
    let mut i: usize = 0;
    assert(all_chars(out@) =~= Seq::empty());
    while i < lines.len()
        invariant
            i <= lines@.len(),
            all == all_chars(lines@),
            all_chars(out@) == names_listed(all, i as nat),
        decreases lines@.len() - i,
    {
        assert(all[i as int] == lines@[i as int]@);
        let parts: Vec<String> = split_on(lines[i].as_str(), '#');
        proof {
            lemma_pieces_nonempty(lines@[i as int]@, '#');
            assert(all_chars(parts@).len() == parts@.len());
            assert(all_chars(parts@)[0] == parts@[0]@);
        }
        let head: &str = parts[0].as_str();
        let code: &str = match split_once(head, "//") {
            Some((b, _)) => b,
            None => head,
        };
        let name: &str = trim(code);
        if !name.is_empty() {
            crate::text::push_text(&mut out, name);
        }
        i += 1;
    }
    out
}

// --- Graphs -------------------------------------------------------------------

/// Which graph is asked for.
#[derive(Debug, Clone)]
pub struct GraphArgs {
    pub scope: String,
    /// The net whose cone is asked for, in place of the scope.
    pub cone: Option<String>,
    pub dir: String,
    pub depth: usize,
    pub projection: Option<String>,
    pub fanout: Option<usize>,
}

/// Why there is no graph.
#[derive(Debug, Clone, Copy, PartialEq, Eq, Structural)]
pub enum GraphError {
    /// No node has the path of the net.
    Net,
    /// The projection has another name.
    Projection,
    /// No scope has the path.
    Scope,
}

/// The projection of a name; without a name the process level.
pub open spec fn projection_named(s: Option<Seq<char>>) -> Option<Projection> {
    match s {
        None => Some(Projection::ProcessLevel),
        Some(t) => if t == "gate-level"@ {
            Some(Projection::GateLevel)
        } else if t == "process-level"@ {
            Some(Projection::ProcessLevel)
        } else {
            None
        },
    }
}

/// The graph that is asked for. A projection or a fan-out asks for the tracing extractor.
pub open spec fn graph_asked(d: Document, a: GraphArgs) -> Result<GraphV, GraphError> {
    match a.cone {
        Some(net) => if at_path(d, net@).len() == 0 {
            Err(GraphError::Net)
        } else {
            let start = at_path(d, net@)[0];
            let dir = dir_named(a.dir@);
            if a.projection is Some || a.fanout is Some {
                match projection_named(opt_chars(a.projection)) {
                    None => Err(GraphError::Projection),
                    Some(p) => {
                        let limits = ConeLimits {
                            depth: a.depth,
                            fanout: match a.fanout {
                                Some(f) => f,
                                None => 32,
                            },
                            boxes: 500,
                        };
                        Ok(
                            traced(
                                d,
                                seq![
                                    TraceStep { seed: start, dir, depth: limits.depth, fanout: None },
                                ],
                                limits,
                                p,
                            ),
                        )
                    },
                }
            } else {
                Ok(cone_view(d, start, dir, a.depth as nat))
            }
        },
        None => match scope_view(d, a.scope@, Projection::ProcessLevel) {
            Some(g) => Ok(g),
            None => Err(GraphError::Scope),
        },
    }
}

/// The graph that is asked for.
pub fn graph_cmd(design: &Design, a: &GraphArgs) -> (r: Result<SchematicGraph, GraphError>)
    requires
        design.wf(),
        hierarchical(design.doc),
    ensures
        match r {
            Ok(g) => graph_asked(design.doc, *a) == Ok::<_, GraphError>(g@),
            Err(e) => graph_asked(design.doc, *a) == Err::<GraphV, _>(e),
        },
{
    match &a.cone {
        Some(net) => {
            let at: &[NodeId] = design.nodes_at_path(net.as_str());
            if at.len() == 0 {
                return Err(GraphError::Net);
            }
            let start: NodeId = at[0];
            let dir: Dir = parse_dir(a.dir.as_str());
            if a.projection.is_some() || a.fanout.is_some() {
                let projection: Projection = match &a.projection {
                    None => Projection::ProcessLevel,
                    Some(t) => if same(t.as_str(), "gate-level") {
                        Projection::GateLevel
                    } else if same(t.as_str(), "process-level") {
                        Projection::ProcessLevel
                    } else {
                        return Err(GraphError::Projection);
                    },
                };
                let mut limits: ConeLimits = ConeLimits::depth(a.depth);
                match a.fanout {
                    Some(f) => {
                        limits.fanout = f;
                    },
                    None => {},
                }
                Ok(cone_with(design, start, dir, limits, projection))
            } else {
                Ok(cone(design, start, dir, a.depth))
            }
        },
        None => match scope_graph(design, a.scope.as_str()) {
            Some(g) => Ok(g),
            None => Err(GraphError::Scope),
        },
    }
}

/// A box of a graph, as it is written.
pub open spec fn box_line(n: SchNode) -> Seq<char> {
    "  ["@ + decimal(n.id as nat) + "] "@ + n.label@ + " ("@ + n.kind.text() + ", "@ + decimal(
        n.ports@.len(),
    ) + " ports)"@ + (if n.expandable {
        " +"@
    } else {
        ""@
    })
}

/// The path of a node, a question mark where there is none.
pub open spec fn path_shown(d: Document, id: u32) -> Seq<char> {
    match node_at(d, id) {
        Some(n) => n.path@,
        None => "?"@,
    }
}

/// A wire of a graph, as it is written.
pub open spec fn wire_line(d: Document, e: SchEdge) -> Seq<char> {
    "  "@ + path_shown(d, e.source) + " -> "@ + path_shown(d, e.target)
}

pub open spec fn with_box_lines(p: Lines, nodes: Seq<SchNode>, n: nat) -> Lines
    decreases n,
{
    if n == 0 {
        p
    } else {
        with_box_lines(p, nodes, (n - 1) as nat).push(box_line(nodes[n - 1]))
    }
}

pub open spec fn with_wire_lines(p: Lines, d: Document, edges: Seq<SchEdge>, n: nat) -> Lines
    decreases n,
{
    if n == 0 {
        p
    } else {
        with_wire_lines(p, d, edges, (n - 1) as nat).push(wire_line(d, edges[n - 1]))
    }
}

/// A graph, as it is written.
pub open spec fn graph_page(d: Document, g: SchematicGraph) -> Lines {
    let p = Seq::<Seq<char>>::empty().push("scope:  "@ + g.root@).push(
        "boxes:  "@ + decimal(g.nodes@.len()),
    );
    let p = with_box_lines(p, g.nodes@, g.nodes@.len()).push(
        "wires:  "@ + decimal(g.edges@.len()),
    );
    with_wire_lines(p, d, g.edges@, g.edges@.len())
}

fn path_or_mark(design: &Design, id: NodeId) -> (r: String)
    ensures
        r@ == path_shown(design.doc, id),
{
    match design.node(id) {
        Some(n) => n.path.clone(),
        None => owned("?"),
    }
}

/// A graph, as it is written.
pub fn graph_lines(design: &Design, g: &SchematicGraph) -> (r: Vec<String>)
    ensures
        all_chars(r@) == graph_page(design.doc, *g),
{
    let mut page: Page = Page::new();
    page.line(Phrase::new("scope:  ").add(g.root.as_str()).done());
    page.line(Phrase::new("boxes:  ").num(g.nodes.len() as u64).done());
    let ghost head = page@;
    let mut i: usize = 0;
    while i < g.nodes.len()
        invariant
            i <= g.nodes@.len(),
            page@ == with_box_lines(head, g.nodes@, i as nat),
        decreases g.nodes@.len() - i,
    {
        let n: &SchNode = &g.nodes[i];
        page.line(
            Phrase::new("  [").num(n.id as u64).add("] ").add(n.label.as_str()).add(" (").add(
                n.kind.name(),
            ).add(", ").num(n.ports.len() as u64).add(" ports)").add(
                if n.expandable {
                    " +"
                } else {
                    ""
                },
            ).done(),
        );
        i += 1;
    }
    page.line(Phrase::new("wires:  ").num(g.edges.len() as u64).done());
    let ghost boxes = page@;
    let mut j: usize = 0;
    while j < g.edges.len()
        invariant
            j <= g.edges@.len(),
            page@ == with_wire_lines(boxes, design.doc, g.edges@, j as nat),
        decreases g.edges@.len() - j,
    {
        let e: &SchEdge = &g.edges[j];
        page.line(
            Phrase::new("  ").add(path_or_mark(design, e.source).as_str()).add(" -> ").add(
                path_or_mark(design, e.target).as_str(),
            ).done(),
        );
        j += 1;
    }
    page.into_lines()
}

// --- Summaries ----------------------------------------------------------------

/// The kinds in the order of their names.
pub const KINDS_BY_NAME: [NodeKind; 30] = [
    NodeKind::Add,
    NodeKind::And,
    NodeKind::Assign,
    NodeKind::Buf,
    NodeKind::Cmp,
    NodeKind::Comb,
    NodeKind::Concat,
    NodeKind::Const,
    NodeKind::Ff,
    NodeKind::GenBlock,
    NodeKind::Instance,
    NodeKind::Interface,
    NodeKind::Latch,
    NodeKind::Memory,
    NodeKind::Modport,
    NodeKind::ModuleDef,
    NodeKind::Mul,
    NodeKind::Mux,
    NodeKind::Nand,
    NodeKind::Net,
    NodeKind::Nor,
    NodeKind::Not,
    NodeKind::Or,
    NodeKind::Param,
    NodeKind::Port,
    NodeKind::Shift,
    NodeKind::Sub,
    NodeKind::Var,
    NodeKind::Xnor,
    NodeKind::Xor,
];

/// How many of the first `n` nodes are of a kind.
pub open spec fn count_of(nodes: Seq<Node>, k: NodeKind, n: nat) -> nat
    decreases n,
{
    if n == 0 {
        0
    } else {
        count_of(nodes, k, (n - 1) as nat) + if nodes[n - 1].kind == k {
            1nat
        } else {
            0nat
        }
    }
}

/// A text with blanks behind it until it has ten characters.
pub open spec fn in_ten(s: Seq<char>) -> Seq<char> {
    if s.len() < 10 {
        s + Seq::new((10 - s.len()) as nat, |i: int| ' ')
    } else {
        s
    }
}

/// The counts of the first `n` kinds in the order of their names, those that occur.
pub open spec fn with_kind_lines(p: Lines, nodes: Seq<Node>, n: nat) -> Lines
    decreases n,
{
    if n == 0 {
        p
    } else {
        let q = with_kind_lines(p, nodes, (n - 1) as nat);
        let k = KINDS_BY_NAME@[n - 1];
        let c = count_of(nodes, k, nodes.len());
        if c > 0 {
            q.push("  "@ + in_ten(k.text()) + " "@ + decimal(c))
        } else {
            q
        }
    }
}

/// The first instance from `from`.
pub open spec fn first_instance(nodes: Seq<Node>, from: int) -> Option<int>
    decreases nodes.len() - from,
{
    if from < 0 || from >= nodes.len() {
        None
    } else if nodes[from].kind == NodeKind::Instance {
        Some(from)
    } else {
        first_instance(nodes, from + 1)
    }
}

/// The range that defines the top.
pub open spec fn top_range(d: Document) -> Option<Range> {
    match first_instance(d.nodes@, 0) {
        Some(i) => d.nodes@[i].def_range,
        None => None,
    }
}

/// What is said of a design.
pub open spec fn design_page(d: Document) -> Lines {
    let p = Seq::<Seq<char>>::empty().push("design:       "@ + d.design@).push(
        "files:        "@ + decimal(d.files@.len()),
    ).push("nodes:        "@ + decimal(d.nodes@.len())).push(
        "unique paths: "@ + decimal(paths_in(path_log(d.nodes@, d.nodes@.len())).len()),
    );
    let p = with_kind_lines(p, d.nodes@, 30);
    match top_range(d) {
        Some(r) => p.push(
            "src_index @ top def: "@ + decimal(
                nodes_over(d, r.file, r.start.offset as int, r.start.offset + 1).len(),
            ) + " node(s)"@,
        ),
        None => p,
    }
}

fn count_kind(nodes: &[Node], k: NodeKind) -> (r: usize)
    ensures
        r == count_of(nodes@, k, nodes@.len()),
{
    let mut c: usize = 0;
    let mut i: usize = 0;
    while i < nodes.len()
        invariant
            i <= nodes@.len(),
            c <= i,
            c == count_of(nodes@, k, i as nat),
        decreases nodes@.len() - i,
    {
        if nodes[i].kind == k {
            c += 1;
        }
        i += 1;
    }
    c
}

fn pad_ten(s: &str) -> (r: String)
    ensures
        r@ == in_ten(s@),
{
    let n: usize = s.unicode_len();
    let mut out: String = owned(s);
    let mut i: usize = n;
    proof {
        reveal_strlit(" ");
        assert(" "@ =~= seq![' ']);
    }
    assert(out@ =~= s@ + Seq::new(0, |i: int| ' '));
    while i < 10
        invariant
            n <= i,
            i <= 10 || i == n,
            " "@ == seq![' '],
            out@ == s@ + Seq::new((i - n) as nat, |i: int| ' '),
        decreases 10 - i,
    {
        out.append(" ");
        i += 1;
        assert(out@ =~= s@ + Seq::new((i - n) as nat, |i: int| ' '));
    }
    assert(out@ =~= in_ten(s@));
    out
}

/// The range that defines the top: that of the first instance.
pub fn top_def(design: &Design) -> (r: Option<Range>)
    ensures
        r == top_range(design.doc),
{
    let nodes: &[Node] = design.nodes();
    let mut i: usize = 0;
    while i < nodes.len()
        invariant
            i <= nodes@.len(),
            nodes@ == design.doc.nodes@,
            first_instance(nodes@, 0) == first_instance(nodes@, i as int),
        decreases nodes@.len() - i,
    {
        if nodes[i].kind == NodeKind::Instance {
            return nodes[i].def_range;
        }
        i += 1;
    }
    None
}

/// What is said of a design.
pub fn ingest_lines(design: &Design) -> (r: Vec<String>)
    requires
        design.wf(),
        top_range(design.doc) is Some ==> top_range(design.doc)->0.start.offset < usize::MAX,
    ensures
        all_chars(r@) == design_page(design.doc),
{
    let mut page: Page = Page::new();
    page.line(Phrase::new("design:       ").add(design.doc.design.as_str()).done());
    page.line(Phrase::new("files:        ").num(design.doc.files.len() as u64).done());
    page.line(Phrase::new("nodes:        ").num(design.nodes().len() as u64).done());
    page.line(Phrase::new("unique paths: ").num(design.path_count() as u64).done());
    let ghost head = page@;
    let mut i: usize = 0;
    while i < 30
        invariant
            i <= 30,
            page@ == with_kind_lines(head, design.doc.nodes@, i as nat),
        decreases 30 - i,
    {
        let k: NodeKind = KINDS_BY_NAME[i];
        let c: usize = count_kind(design.nodes(), k);
        if c > 0 {
            page.line(
                Phrase::new("  ").add(pad_ten(k.name()).as_str()).add(" ").num(c as u64).done(),
            );
        }
        i += 1;
    }
    match top_def(design) {
        Some(r) => {
            let hits: Vec<NodeId> = design.nodes_at_source(r.file, r.start.offset as usize);
            page.line(
                Phrase::new("src_index @ top def: ").num(hits.len() as u64).add(" node(s)").done(),
            );
        },
        None => {},
    }
    page.into_lines()
}

/// The name of a rule.
pub open spec fn rule_text(r: Rule) -> Seq<char> {
    match r {
        Rule::AnchorRebase => "AnchorRebase"@,
        Rule::ArrayElement => "ArrayElement"@,
        Rule::GenBlockFlatten => "GenBlockFlatten"@,
        Rule::InterfaceAlias => "InterfaceAlias"@,
    }
}

/// The line of a rule, where it was applied.
pub open spec fn with_rule(p: Lines, report: MatchReport, r: Rule) -> Lines {
    if report.rule_counts.of(r) > 0 {
        p.push("  "@ + rule_text(r) + ": "@ + decimal(report.rule_counts.of(r) as nat))
    } else {
        p
    }
}

/// Whether any rule was applied.
pub open spec fn any_rule(report: MatchReport) -> bool {
    report.rule_counts.of(Rule::AnchorRebase) > 0 || report.rule_counts.of(Rule::ArrayElement) > 0
        || report.rule_counts.of(Rule::GenBlockFlatten) > 0 || report.rule_counts.of(
        Rule::InterfaceAlias,
    ) > 0
}

pub open spec fn with_misses(p: Lines, v: Seq<UnmatchedSignal>, n: nat) -> Lines
    decreases n,
{
    if n == 0 {
        p
    } else {
        with_misses(p, v, (n - 1) as nat).push(
            "  UNMATCHED "@ + v[n - 1].full_name@ + " -> "@ + v[n - 1].candidate@,
        )
    }
}

pub open spec fn with_mysteries(p: Lines, v: Seq<String>, n: nat) -> Lines
    decreases n,
{
    if n == 0 {
        p
    } else {
        with_mysteries(p, v, (n - 1) as nat).push("  MYSTERY "@ + v[n - 1]@)
    }
}

/// How a match is judged: the share that matched, the share that is wanted, and whether
/// it is enough. The shares are percentages as texts.
#[derive(Debug, Clone)]
pub struct Verdict {
    pub hit_percent: String,
    pub wanted_percent: String,
    pub pass: bool,
}

/// What is said of a match.
pub open spec fn match_page(
    trace: Seq<char>,
    r: MatchReport,
    linked: nat,
    show_unmatched: bool,
    v: Verdict,
) -> Lines {
    let p = Seq::<Seq<char>>::empty().push("trace:       "@ + trace).push(
        "anchor:      "@ + dot_joined(all_chars(r.anchor@)),
    ).push("signals:     "@ + decimal(r.total_signals as nat)).push(
        "denominator: "@ + decimal(r.denominator as nat) + " (design-scope, non-parameter)"@,
    ).push(
        "matched:     "@ + decimal((r.matched_direct + r.matched_alias) as nat) + " ("@
            + v.hit_percent@ + "%)  [direct "@ + decimal(r.matched_direct as nat)
            + " + interface-alias "@ + decimal(r.matched_alias as nat) + "]"@,
    ).push("unmatched:   "@ + decimal(r.unmatched as nat)).push(
        "excluded:    "@ + decimal(r.excluded_scope as nat) + " scope + "@ + decimal(
            r.excluded_parameter as nat,
        ) + " parameter"@,
    ).push("mystery:     "@ + decimal(r.mystery as nat)).push(
        "wave_index:  "@ + decimal(linked) + " signals linked"@,
    );
    let p = if any_rule(r) {
        with_rule(
            with_rule(
                with_rule(
                    with_rule(p.push("rules applied:"@), r, Rule::AnchorRebase),
                    r,
                    Rule::ArrayElement,
                ),
                r,
                Rule::GenBlockFlatten,
            ),
            r,
            Rule::InterfaceAlias,
        )
    } else {
        p
    };
    let p = if show_unmatched {
        with_misses(p, r.unmatched_samples@, r.unmatched_samples@.len())
    } else {
        p
    };
    with_mysteries(p, r.mystery_samples@, r.mystery_samples@.len()).push(
        "gate (>= "@ + v.wanted_percent@ + "% & 0 mystery): "@ + (if v.pass {
            "PASS"@
        } else {
            "FAIL"@
        }),
    )
}

fn put_rule(page: &mut Page, report: &MatchReport, rule: Rule)
    ensures
        final(page)@ == with_rule(old(page)@, *report, rule),
{
    let n: usize = report.rule_counts.get(rule);
    if n > 0 {
        let name: &'static str = match rule {
            Rule::AnchorRebase => "AnchorRebase",
            Rule::ArrayElement => "ArrayElement",
            Rule::GenBlockFlatten => "GenBlockFlatten",
            Rule::InterfaceAlias => "InterfaceAlias",
        };
        page.line(Phrase::new("  ").add(name).add(": ").num(n as u64).done());
    }
}

/// What is said of a match. `linked` is how many signals the design was linked to.
pub fn match_lines(
    trace: &str,
    r: &MatchReport,
    linked: usize,
    show_unmatched: bool,
    v: &Verdict,
) -> (out: Vec<String>)
    requires
        r.matched_direct + r.matched_alias <= usize::MAX,
    ensures
        all_chars(out@) == match_page(trace@, *r, linked as nat, show_unmatched, *v),
{
    let mut page: Page = Page::new();
    page.line(Phrase::new("trace:       ").add(trace).done());
    page.line(
        Phrase::new("anchor:      ").add(
            crate::text::join_dots(r.anchor.as_slice()).as_str(),
        ).done(),
    );
    page.line(Phrase::new("signals:     ").num(r.total_signals as u64).done());
    page.line(
        Phrase::new("denominator: ").num(r.denominator as u64).add(
            " (design-scope, non-parameter)",
        ).done(),
    );
    page.line(
        Phrase::new("matched:     ").num((r.matched_direct + r.matched_alias) as u64).add(" (").add(
            v.hit_percent.as_str(),
        ).add("%)  [direct ").num(r.matched_direct as u64).add(" + interface-alias ").num(
            r.matched_alias as u64,
        ).add("]").done(),
    );
    page.line(Phrase::new("unmatched:   ").num(r.unmatched as u64).done());
    page.line(
        Phrase::new("excluded:    ").num(r.excluded_scope as u64).add(" scope + ").num(
            r.excluded_parameter as u64,
        ).add(" parameter").done(),
    );
    page.line(Phrase::new("mystery:     ").num(r.mystery as u64).done());
    page.line(Phrase::new("wave_index:  ").num(linked as u64).add(" signals linked").done());
    if r.rule_counts.get(Rule::AnchorRebase) > 0 || r.rule_counts.get(Rule::ArrayElement) > 0
        || r.rule_counts.get(Rule::GenBlockFlatten) > 0 || r.rule_counts.get(Rule::InterfaceAlias)
        > 0 {
        page.text("rules applied:");
        put_rule(&mut page, r, Rule::AnchorRebase);
        put_rule(&mut page, r, Rule::ArrayElement);
        put_rule(&mut page, r, Rule::GenBlockFlatten);
        put_rule(&mut page, r, Rule::InterfaceAlias);
    }
    if show_unmatched {
        let ghost head = page@;
        let mut i: usize = 0;
        while i < r.unmatched_samples.len()
            invariant
                i <= r.unmatched_samples@.len(),
                page@ == with_misses(head, r.unmatched_samples@, i as nat),
            decreases r.unmatched_samples@.len() - i,
        {
            let u: &UnmatchedSignal = &r.unmatched_samples[i];
            page.line(
                Phrase::new("  UNMATCHED ").add(u.full_name.as_str()).add(" -> ").add(
                    u.candidate.as_str(),
                ).done(),
            );
            i += 1;
        }
    }
    let ghost head = page@;
    let mut j: usize = 0;
    while j < r.mystery_samples.len()
        invariant
            j <= r.mystery_samples@.len(),
            page@ == with_mysteries(head, r.mystery_samples@, j as nat),
        decreases r.mystery_samples@.len() - j,
    {
        page.line(Phrase::new("  MYSTERY ").add(r.mystery_samples[j].as_str()).done());
        j += 1;
    }
    page.line(
        Phrase::new("gate (>= ").add(v.wanted_percent.as_str()).add("% & 0 mystery): ").add(
            if v.pass {
                "PASS"
            } else {
                "FAIL"
            },
        ).done(),
    );
    page.into_lines()
}

// --- Selections ---------------------------------------------------------------

pub open spec fn with_alternatives(p: Lines, d: Document, ids: Seq<u32>, n: nat) -> Lines
    decreases n,
{
    if n == 0 {
        p
    } else {
        with_alternatives(p, d, ids, (n - 1) as nat).push("  - "@ + path_shown(d, ids[n - 1]))
    }
}

/// Where a selection leads, as it is written.
pub open spec fn selection_page(
    d: Document,
    anchor: u32,
    source: SourceTarget,
    wave: WaveTarget,
    alternatives: Seq<u32>,
) -> Lines {
    let p = Seq::<Seq<char>>::empty().push(
        "selection: "@ + path_shown(d, anchor) + "  ["@ + (match node_at(d, anchor) {
            Some(n) => "Some("@ + n.kind.text() + ")"@,
            None => "None"@,
        }) + "]"@,
    );
    let p = match shown_range(source) {
        Some(r) => p.push(
            "  source:  "@ + (match file_from(d.files@, r.file, 0) {
                Some(f) => f.path@,
                None => "?"@,
            }) + ":"@ + decimal(r.start.line as nat) + ":"@ + decimal(r.start.col as nat)
                + "  (offset "@ + decimal(r.start.offset as nat) + ")"@,
        ),
        None => p.push("  source:  (no range)"@),
    };
    let p = match wave {
        WaveTarget::Linked { var_ref, full_name } => p.push("  wave:    "@ + full_name@),
        WaveTarget::NotInTrace => p.push("  wave:    (not in trace)"@),
    };
    if alternatives.len() > 0 {
        with_alternatives(
            p.push("alternatives (picker):"@),
            d,
            alternatives,
            alternatives.len(),
        )
    } else {
        p
    }
}

/// Where a selection leads, as it is written.
pub fn selection_lines(
    design: &Design,
    anchor: NodeId,
    source: SourceTarget,
    wave: &WaveTarget,
    alternatives: &[NodeId],
) -> (r: Vec<String>)
    ensures
        all_chars(r@) == selection_page(design.doc, anchor, source, *wave, alternatives@),
{
    let mut page: Page = Page::new();
    let kind: String = match design.node(anchor) {
        Some(n) => Phrase::new("Some(").add(n.kind.name()).add(")").done(),
        None => owned("None"),
    };
    page.line(
        Phrase::new("selection: ").add(path_or_mark(design, anchor).as_str()).add("  [").add(
            kind.as_str(),
        ).add("]").done(),
    );
    let shown: Option<Range> = match source.def {
        Some(x) => Some(x),
        None => source.inst,
    };
    match shown {
        Some(x) => {
            let path: String = match file_by_id(&design.doc.files, x.file) {
                Some(f) => f.path.clone(),
                None => owned("?"),
            };
            page.line(
                Phrase::new("  source:  ").add(path.as_str()).add(":").num(
                    x.start.line as u64,
                ).add(":").num(x.start.col as u64).add("  (offset ").num(
                    x.start.offset as u64,
                ).add(")").done(),
            );
        },
        None => {
            page.text("  source:  (no range)");
        },
    }
    match wave {
        WaveTarget::Linked { var_ref: _, full_name } => {
            page.line(Phrase::new("  wave:    ").add(full_name.as_str()).done());
        },
        WaveTarget::NotInTrace => {
            page.text("  wave:    (not in trace)");
        },
    }
    if alternatives.len() > 0 {
        page.text("alternatives (picker):");
        let ghost head = page@;
        let mut i: usize = 0;
        while i < alternatives.len()
            invariant
                i <= alternatives@.len(),
                page@ == with_alternatives(head, design.doc, alternatives@, i as nat),
            decreases alternatives@.len() - i,
        {
            page.line(
                Phrase::new("  - ").add(path_or_mark(design, alternatives[i]).as_str()).done(),
            );
            i += 1;
        }
    }
    page.into_lines()
}

// --- What a probe starts from -------------------------------------------------

/// What a probe starts from.
#[derive(Debug, Clone, PartialEq, Eq)]
pub enum ProbeTarget {
    /// A signal of the trace, by its full name.
    Signal(String),
    /// A node, by its path.
    Node(String),
    /// A line of a source file.
    Source(String),
    /// An offset in a source file.
    Offset(String),
}

/// What a probe starts from, of what is given: a signal before a node, a node before a
/// line, a line before an offset.
pub fn probe_target(
    signal: Option<String>,
    node: Option<String>,
    source: Option<String>,
    offset: Option<String>,
) -> (r: Result<ProbeTarget, String>)
    ensures
        signal is Some ==> r == Ok::<ProbeTarget, String>(ProbeTarget::Signal(signal->0)),
        signal is None && node is Some ==> r == Ok::<ProbeTarget, String>(
            ProbeTarget::Node(node->0),
        ),
        signal is None && node is None && source is Some ==> r == Ok::<ProbeTarget, String>(
            ProbeTarget::Source(source->0),
        ),
        signal is None && node is None && source is None && offset is Some ==> r == Ok::<
            ProbeTarget,
            String,
        >(ProbeTarget::Offset(offset->0)),
        signal is None && node is None && source is None && offset is None ==> r is Err
            && r->Err_0@ == "give one of --signal / --node / --source / --offset"@,
{
    match (signal, node, source, offset) {
        (Some(s), _, _, _) => Ok(ProbeTarget::Signal(s)),
        (None, Some(p), _, _) => Ok(ProbeTarget::Node(p)),
        (None, None, Some(spec), _) => Ok(ProbeTarget::Source(spec)),
        (None, None, None, Some(spec)) => Ok(ProbeTarget::Offset(spec)),
        (None, None, None, None) => Err(
            owned("give one of --signal / --node / --source / --offset"),
        ),
    }
}

} // verus!
