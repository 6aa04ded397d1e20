//! Memory figures, read from what the system tells of a process and of the machine.

use crate::text::{all_chars, strip_prefix, without_prefix};
use crate::words::{lines_of, number_up_to, parse_number, split_lines, split_words, words};
use vstd::prelude::*;
use vstd::string::*;

verus! {

broadcast use vstd::string::group_string_axioms;

/// What a line tells of a key: `None` where it is about something else, and otherwise the
/// kilobytes in bytes, if it gives them.
pub open spec fn line_bytes(line: Seq<char>, key: Seq<char>) -> Option<Option<nat>> {
    match without_prefix(line, key) {
        Some(rest) => match without_prefix(rest, ":"@) {
            Some(value) => if words(value).len() == 0 {
                Some(None)
            } else {
                Some(
                    match number_up_to(words(value)[0], u64::MAX as nat) {
                        Some(kb) => Some((kb * 1024) % 0x1_0000_0000_0000_0000),
                        None => None,
                    },
                )
            },
            None => None,
        },
        None => None,
    }
}

/// What the first line from `from` that is about a key tells of it, in bytes.
pub open spec fn bytes_from(lines: Seq<Seq<char>>, key: Seq<char>, from: int) -> Option<nat>
    decreases lines.len() - from,
{
    if from < 0 || from >= lines.len() {
        None
    } else {
        match line_bytes(lines[from], key) {
            Some(r) => r,
            None => bytes_from(lines, key, from + 1),
        }
    }
}

/// What a text tells of a key, in bytes.
pub open spec fn bytes_of(text: Seq<char>, key: Seq<char>) -> Option<nat> {
    bytes_from(lines_of(text), key, 0)
}

/// An optional number as it is in mathematics.
pub open spec fn opt_nat(o: Option<u64>) -> Option<nat> {
    match o {
        Some(n) => Some(n as nat),
        None => None,
    }
}

fn bytes_in_line(line: &str, key: &str) -> (r: Option<Option<u64>>)
    ensures
        match r {
            Some(v) => line_bytes(line@, key@) == Some(opt_nat(v)),
            None => line_bytes(line@, key@) is None,
        },
{
    match strip_prefix(line, key) {
        Some(rest) => match strip_prefix(rest, ":") {
            Some(value) => {
                let ws: Vec<String> = split_words(value);
                assert(ws@.len() == all_chars(ws@).len());
                if ws.len() == 0 {
                    return Some(None);
                }
                assert(all_chars(ws@)[0] == ws@[0]@);
                match parse_number(ws[0].as_str(), u64::MAX) {
                    Some(kb) => {
                        let bytes: u128 = (kb as u128) * 1024;
                        Some(Some((bytes % 0x1_0000_0000_0000_0000) as u64))
                    },
                    None => Some(None),
                }
            },
            None => None,
        },
        None => None,
    }
}

/// What a text tells of a key, in bytes: the number of the first line that is about it.
pub fn kb_line(text: &str, key: &str) -> (r: Option<u64>)
    ensures
        opt_nat(r) == bytes_of(text@, key@),
{
    let lines: Vec<String> = split_lines(text);
    let ghost all = all_chars(lines@);
    let mut i: usize = 0;
    while i < lines.len()
        invariant
            i <= lines@.len(),
            all == all_chars(lines@),
            all == lines_of(text@),
            bytes_from(all, key@, 0) == bytes_from(all, key@, i as int),
        decreases lines@.len() - i,
    {
        assert(all[i as int] == lines@[i as int]@);
        match bytes_in_line(lines[i].as_str(), key) {
            Some(v) => {
                return v;
            },
            None => {},
        }
        i += 1;
    }
    None
}

/// The peak resident memory of a process in bytes, by its status.
pub fn peak_rss_bytes(status: &str) -> (r: Option<u64>)
    ensures
        opt_nat(r) == bytes_of(status@, "VmHWM"@),
{
    kb_line(status, "VmHWM")
}

/// The current resident memory of a process in bytes, by its status.
pub fn current_rss_bytes(status: &str) -> (r: Option<u64>)
    ensures
        opt_nat(r) == bytes_of(status@, "VmRSS"@),
{
    kb_line(status, "VmRSS")
}

/// The memory of the machine and what of it is available: free memory where that is all
/// that is told, and nought where nothing is.
pub open spec fn ram_of(info: Seq<char>) -> Option<(nat, nat)> {
    match bytes_of(info, "MemTotal"@) {
        Some(total) => Some(
            (
                total,
                match bytes_of(info, "MemAvailable"@) {
                    Some(a) => a,
                    None => match bytes_of(info, "MemFree"@) {
                        Some(f) => f,
                        None => 0,
                    },
                },
            ),
        ),
        None => None,
    }
}

/// The memory of the machine in bytes, and what of it is available.
pub fn ram_bytes(info: &str) -> (r: Option<(u64, u64)>)
    ensures
        match r {
            Some((total, available)) => ram_of(info@) == Some((total as nat, available as nat)),
            None => ram_of(info@) is None,
        },
{
    match kb_line(info, "MemTotal") {
        Some(total) => {
            let available: u64 = match kb_line(info, "MemAvailable") {
                Some(a) => a,
                None => match kb_line(info, "MemFree") {
                    Some(f) => f,
                    None => 0,
                },
            };
            Some((total, available))
        },
        None => None,
    }
}

} // verus!
