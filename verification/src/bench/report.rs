//! The single-shot report: one row per design, each query measured once.
//!
//! The numbers come as texts; which queries a row is about, and how it is written, is
//! settled here.

use crate::bench::handles::{
    are_handles, are_signals, derive_handles, signal_nodes, signals_from_design, RealHandles,
};
use crate::files::{file_stem, stem_of};
use crate::matcher::run::{MatchOptions, WaveVar};
use crate::model::Design;
use crate::text::{all_chars, decimal, owned};
use crate::words::Phrase;
use vstd::prelude::*;
use vstd::string::*;

verus! {

broadcast use vstd::string::group_string_axioms;

/// How far a cone is followed.
pub const CONE_DEPTH: usize = 6;

/// The head of the table.
pub const HEADER: &'static str = "| basis | nodes | edges | json MB | from_slice ms | parse ms | index ms | scope_graph µs | expand µs | path µs | src µs | cone ms | clk fanout | match ms |";

/// The rule below the head.
pub const RULE: &'static str = "|---|--:|--:|--:|--:|--:|--:|--:|--:|--:|--:|--:|--:|--:|";

/// What the queries of a row took, as texts.
#[derive(Debug, Clone)]
pub struct Timings {
    pub from_slice_ms: String,
    pub parse_ms: String,
    pub index_ms: String,
    pub scope_graph_us: String,
    pub expand_us: String,
    pub path_us: String,
    pub source_us: String,
    pub cone_ms: String,
    pub match_ms: String,
}

/// A row with all its measurements.
pub open spec fn measured_row(
    basis: Seq<char>,
    nodes: nat,
    edges: nat,
    mb: Seq<char>,
    t: Timings,
    fanout: nat,
) -> Seq<char> {
    "| "@ + basis + " | "@ + decimal(nodes) + " | "@ + decimal(edges) + " | "@ + mb + " | "@
        + t.from_slice_ms@ + " | "@ + t.parse_ms@ + " | "@ + t.index_ms@ + " | "@ + t.scope_graph_us@
        + " | "@ + t.expand_us@ + " | "@ + t.path_us@ + " | "@ + t.source_us@ + " | "@ + t.cone_ms@
        + " | "@ + decimal(fanout) + " | "@ + t.match_ms@ + " |"@
}

fn full_row(basis: &str, nodes: usize, edges: usize, mb: &str, t: &Timings, fanout: usize) -> (r:
    String)
    ensures
        r@ == measured_row(basis@, nodes as nat, edges as nat, mb@, *t, fanout as nat),
{
    Phrase::new("| ").add(basis).add(" | ").num(nodes as u64).add(" | ").num(edges as u64).add(
        " | ",
    ).add(mb).add(" | ").add(t.from_slice_ms.as_str()).add(" | ").add(t.parse_ms.as_str()).add(
        " | ",
    ).add(t.index_ms.as_str()).add(" | ").add(t.scope_graph_us.as_str()).add(" | ").add(
        t.expand_us.as_str(),
    ).add(" | ").add(t.path_us.as_str()).add(" | ").add(t.source_us.as_str()).add(" | ").add(
        t.cone_ms.as_str(),
    ).add(" | ").num(fanout as u64).add(" | ").add(t.match_ms.as_str()).add(" |").done()
}

/// The row of a generated design.
pub fn synth_row(
    basis: &str,
    nodes: usize,
    edges: usize,
    mb: &str,
    t: &Timings,
    clock_fanout: usize,
) -> (r: String)
    ensures
        r@ == measured_row(basis@, nodes as nat, edges as nat, mb@, *t, clock_fanout as nat),
{
    full_row(basis, nodes, edges, mb, t, clock_fanout)
}

/// The name of a design that was read from a file: the file's own, without its ending.
pub open spec fn real_name(path: Seq<char>) -> Seq<char> {
    (match stem_of(path) {
        Some(s) => s,
        None => "real"@,
    }) + " (real)"@
}

/// What the queries on a design that was read from a file are run on.
pub struct Workload {
    pub handles: RealHandles,
    pub signals: Vec<WaveVar>,
    pub options: MatchOptions,
}

/// What the queries on a design that was read from a file are run on: handles into it, and
/// its own signals to match from its top.
pub fn real_workload(design: &Design) -> (r: Workload)
    requires
        design.wf(),
    ensures
        are_handles(design.doc, r.handles),
        are_signals(
            r.signals@,
            signal_nodes(design.doc.nodes@, false, design.doc.nodes@.len()),
            signal_count(design.doc.nodes@.len()),
        ),
        is_anchored(r.options, design.doc.design@),
{
    Workload {
        handles: derive_handles(design),
        signals: real_signals(design),
        options: anchored_at(design.doc.design.as_str()),
    }
}

/// The row of a design that was read from a file.
pub fn external_row(path: &str, design: &Design, work: &Workload, mb: &str, t: &Timings) -> (r:
    String)
    ensures
        r@ == measured_row(
            real_name(path@),
            design.doc.nodes@.len(),
            design.doc.edges@.len(),
            mb@,
            *t,
            work.handles.hot_fanout as nat,
        ),
{
    let stem: String = match file_stem(path) {
        Some(s) => s,
        None => owned("real"),
    };
    let name: String = Phrase::new(stem.as_str()).add(" (real)").done();
    full_row(
        name.as_str(),
        design.nodes().len(),
        design.edges().len(),
        mb,
        t,
        work.handles.hot_fanout,
    )
}

/// The row of the golden design, of which only the loading is measured.
pub open spec fn golden_text(found: Option<(nat, nat, Seq<char>, Seq<char>)>) -> Seq<char> {
    match found {
        Some((nodes, edges, mb, ms)) => "| 665 (golden) | "@ + decimal(nodes) + " | "@ + decimal(
            edges,
        ) + " | "@ + mb + " | "@ + ms + " | - | - | - | - | - | - | - | - | - |"@,
        None => "| 665 (golden) | _fixture not found_ |"@,
    }
}

/// The row of the golden design: its nodes, its edges, its size and what loading it took.
pub fn golden_row(found: Option<(usize, usize, &str, &str)>) -> (r: String)
    ensures
        r@ == golden_text(
            match found {
                Some((nodes, edges, mb, ms)) => Some((nodes as nat, edges as nat, mb@, ms@)),
                None => None,
            },
        ),
{
    match found {
        Some((nodes, edges, mb, ms)) => Phrase::new("| 665 (golden) | ").num(nodes as u64).add(
            " | ",
        ).num(edges as u64).add(" | ").add(mb).add(" | ").add(ms).add(
            " | - | - | - | - | - | - | - | - | - |",
        ).done(),
        None => owned("| 665 (golden) | _fixture not found_ |"),
    }
}

/// Whether the matcher is told that signals start at a design's top.
pub open spec fn is_anchored(o: MatchOptions, top: Seq<char>) -> bool {
    &&& o.excluded_scopes@.len() == 0
    &&& o.anchor is Some
    &&& all_chars(o.anchor->0@) == seq![top]
}

/// How the matcher is told that signals start at a design's top.
pub fn anchored_at(top: &str) -> (r: MatchOptions)
    ensures
        is_anchored(r, top@),
{
    let mut anchor: Vec<String> = Vec::new();
    anchor.push(owned(top));
    assert(all_chars(anchor@) =~= seq![top@]);
    MatchOptions { excluded_scopes: Vec::new(), anchor: Some(anchor) }
}

/// The signals that the matcher is run on for a design of `n` nodes: one per node, but
/// no fewer than one and no more than twenty thousand.
pub open spec fn signal_count(n: nat) -> nat {
    if n < 1 {
        1
    } else if n > 20_000 {
        20_000
    } else {
        n
    }
}

/// The signals that the matcher is run on for a design that was read from a file.
fn real_signals(design: &Design) -> (r: Vec<WaveVar>)
    ensures
        are_signals(
            r@,
            signal_nodes(design.doc.nodes@, false, design.doc.nodes@.len()),
            signal_count(design.doc.nodes@.len()),
        ),
{
    let n: usize = design.nodes().len();
    let count: usize = if n < 1 {
        1
    } else if n > 20_000 {
        20_000
    } else {
        n
    };
    signals_from_design(design, count)
}

} // verus!
