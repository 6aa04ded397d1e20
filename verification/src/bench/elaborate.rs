//! Designs that are elaborated for a collection, and what is said of them.

use crate::bench::collect::{last_nonblank, last_words};
use crate::files::{join_path, under_dir};
use crate::text::{decimal, decimal_of, owned, strip_prefix, without_prefix};
use crate::words::{
    group, grouped, number_up_to, parse_number, split_at, split_once, trim, trimmed, Phrase,
};
use vstd::prelude::*;
use vstd::string::*;

verus! {

broadcast use vstd::string::group_string_axioms;

/// What an elaboration gave.
#[derive(Debug, Clone)]
pub struct Elaboration {
    /// The file that was written.
    pub model: String,
    pub filelist: String,
    pub top: String,
    /// How many nodes the harness counted, where it said so.
    pub nodes: Option<u64>,
    /// How many seconds it took, with one decimal.
    pub wall: String,
}

/// A number in groups of three.
pub open spec fn thousands_text(n: nat) -> Seq<char> {
    grouped(decimal(n), decimal(n).len())
}

/// A number in groups of three.
pub fn with_thousands(n: u64) -> (r: String)
    ensures
        r@ == thousands_text(n as nat),
{
    group(decimal_of(n).as_str())
}

impl Elaboration {
    /// Where the design came from, in one line.
    pub open spec fn origin(self) -> Seq<char> {
        let nodes = match self.nodes {
            Some(n) => thousands_text(n as nat) + " nodes"@,
            None => "node count not reported"@,
        };
        self.filelist@ + " (top "@ + self.top@ + "), "@ + nodes + ", elaborated in "@ + self.wall@
            + " s -> "@ + self.model@
    }

    /// Where the design came from, in one line.
    pub fn provenance(&self) -> (r: String)
        ensures
            r@ == self.origin(),
    {
        let nodes: String = match self.nodes {
            Some(n) => Phrase::new(with_thousands(n).as_str()).add(" nodes").done(),
            None => owned("node count not reported"),
        };
        Phrase::new(self.filelist.as_str()).add(" (top ").add(self.top.as_str()).add("), ").add(
            nodes.as_str(),
        ).add(", elaborated in ").add(self.wall.as_str()).add(" s -> ").add(
            self.model.as_str(),
        ).done()
    }
}

/// The count in a closing line such as `elaborated top: 12 nodes, 3 files`.
pub open spec fn count_in(line: Seq<char>) -> Option<nat> {
    match without_prefix(line, "elaborated "@) {
        Some(rest) => match split_at(rest, ": "@) {
            Some((_, behind)) => match split_at(behind, " nodes"@) {
                Some((count, _)) => number_up_to(trimmed(count), u64::MAX as nat),
                None => None,
            },
            None => None,
        },
        None => None,
    }
}

/// The count in the last line of a log that is not blank.
pub open spec fn log_count(log: Seq<char>) -> Option<nat> {
    match last_words(log) {
        Some(line) => count_in(line),
        None => None,
    }
}

/// How many nodes the harness counted, by the closing line of its log. A log without such
/// a line gives no count.
pub fn harness_node_count(log: &str) -> (r: Option<u64>)
    ensures
        match r {
            Some(n) => log_count(log@) == Some(n as nat),
            None => log_count(log@) is None,
        },
{
    match last_nonblank(log) {
        Some(line) => match strip_prefix(line.as_str(), "elaborated ") {
            Some(rest) => match split_once(rest, ": ") {
                Some((_, behind)) => match split_once(behind, " nodes") {
                    Some((count, _)) => parse_number(trim(count), u64::MAX),
                    None => None,
                },
                None => None,
            },
            None => None,
        },
        None => None,
    }
}

/// Where an elaborated design is written: where it is told to, or else in a directory for
/// what need not be kept.
pub fn model_file(model_out: Option<String>, scratch_dir: &str) -> (r: String)
    ensures
        r@ == match model_out {
            Some(p) => p@,
            None => under_dir(scratch_dir@, "hierarchy.json"@),
        },
{
    match model_out {
        Some(p) => p,
        None => join_path(scratch_dir, "hierarchy.json"),
    }
}

/// What an elaboration gave, by the log of the harness.
pub fn elaborated(model: String, filelist: &str, top: &str, log: &str, wall: String) -> (r:
    Elaboration)
    ensures
        r.model == model,
        r.filelist@ == filelist@,
        r.top@ == top@,
        match r.nodes {
            Some(n) => log_count(log@) == Some(n as nat),
            None => log_count(log@) is None,
        },
        r.wall == wall,
{
    Elaboration {
        model,
        filelist: owned(filelist),
        top: owned(top),
        nodes: harness_node_count(log),
        wall,
    }
}

} // verus!
