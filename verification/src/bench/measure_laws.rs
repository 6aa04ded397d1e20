//! What is read of a machine's memory, and what benchmarks are run on.

use crate::bench::handles::{probe_from, probe_of, signal_nodes};
use crate::bench::mem::{bytes_from, bytes_of, line_bytes, ram_of};
use crate::model::{Node, NodeKind};
use crate::text::decimal;
use crate::text_laws::{
    blank, law_lines_end_at_line_feeds, law_numbers_are_read_back, law_white_space_is_no_word,
    law_words_end_at_white_space,
};
use crate::words::{lines_of, white, words};
use vstd::prelude::*;

verus! {

// --- Memory -------------------------------------------------------------------

proof fn lemma_blank_words(a: Seq<char>, s: Seq<char>)
    requires
        blank(a),
    ensures
        words(a + s) == words(s),
    decreases a.len(),
{
    if a.len() == 0 {
        assert(a + s =~= s);
    } else {
        let rest = a.subrange(1, a.len() as int);
        lemma_blank_words(rest, s);
        assert(white(a[0]));
        law_white_space_is_no_word(a[0], rest + s);
        assert(a + s =~= seq![a[0]] + (rest + s));
    }
}

proof fn lemma_digits_solid(n: nat)
    ensures
        crate::text_laws::solid(decimal(n)),
        decimal(n).len() > 0,
    decreases n,
{
    if n >= 10 {
        lemma_digits_solid(n / 10);
        let s = decimal(n);
        let r = decimal(n / 10);
        assert forall|i: int| 0 <= i < s.len() implies !white(#[trigger] s[i]) by {
            if i < r.len() {
                assert(s[i] == r[i]);
            }
        }
    }
}

/// A line that names a key, a colon and a number of kilobytes tells that many in bytes.
pub proof fn law_kilobytes_are_told_in_bytes(
    key: Seq<char>,
    gap: Seq<char>,
    kb: nat,
    rest: Seq<char>,
)
    requires
        blank(gap),
        kb * 1024 <= u64::MAX,
        rest.len() > 0 ==> white(rest[0]),
    ensures
        line_bytes(key + seq![':'] + (gap + (decimal(kb) + rest)), key) == Some(Some(kb * 1024)),
{
    let value = gap + (decimal(kb) + rest);
    let line = key + seq![':'] + value;
    reveal_strlit(":");
    assert(":"@ =~= seq![':']);
    assert(line.subrange(0, key.len() as int) =~= key);
    let tail = line.subrange(key.len() as int, line.len() as int);
    assert(tail =~= seq![':'] + value);
    assert(tail.subrange(0, 1) =~= seq![':']);
    assert(tail.subrange(1, tail.len() as int) =~= value);
    lemma_blank_words(gap, decimal(kb) + rest);
    lemma_digits_solid(kb);
    law_words_end_at_white_space(decimal(kb), rest);
    assert(words(value)[0] == decimal(kb));
    law_numbers_are_read_back(kb);
}

/// A text tells of a key what its first line about it does: lines about other keys are passed
/// over, and a text without a line about it tells nothing.
pub proof fn law_texts_tell_by_their_first_line(a: Seq<char>, s: Seq<char>, key: Seq<char>)
    requires
        a.len() > 0,
        a.last() != '\r',
        !a.contains('\n'),
    ensures
        line_bytes(a, key) is None ==> bytes_of(a + seq!['\n'] + s, key) == bytes_of(s, key),
        line_bytes(a, key) is Some ==> bytes_of(a + seq!['\n'] + s, key) == line_bytes(a, key)->0,
        bytes_of(Seq::empty(), key) is None,
{
    law_lines_end_at_line_feeds(a, s);
    let all = seq![a] + lines_of(s);
    assert(all[0] == a);
    assert(all.subrange(1, all.len() as int) =~= lines_of(s));
    lemma_shift(all, lines_of(s), key, 1);
}

proof fn lemma_shift(a: Seq<Seq<char>>, b: Seq<Seq<char>>, key: Seq<char>, from: int)
    requires
        1 <= from <= a.len(),
        b == a.subrange(1, a.len() as int),
    ensures
        bytes_from(a, key, from) == bytes_from(b, key, from - 1),
    decreases a.len() - from,
{
    if from < a.len() {
        assert(b[from - 1] == a[from]);
        lemma_shift(a, b, key, from + 1);
    }
}

/// What is available of a machine's memory is what is told to be, or else what is free.
pub proof fn law_available_memory_comes_before_free(info: Seq<char>)
    ensures
        bytes_of(info, "MemTotal"@) is None ==> ram_of(info) is None,
        bytes_of(info, "MemTotal"@) is Some ==> ram_of(info) is Some && (ram_of(info)->0).0
            == bytes_of(info, "MemTotal"@)->0,
        bytes_of(info, "MemTotal"@) is Some && bytes_of(info, "MemAvailable"@) is Some ==> (
        ram_of(info)->0).1 == bytes_of(info, "MemAvailable"@)->0,
        bytes_of(info, "MemTotal"@) is Some && bytes_of(info, "MemAvailable"@) is None && bytes_of(
            info,
            "MemFree"@,
        ) is Some ==> (ram_of(info)->0).1 == bytes_of(info, "MemFree"@)->0,
{
}

// --- Signals ------------------------------------------------------------------

proof fn lemma_signal_nodes(nodes: Seq<Node>, vars_only: bool, n: nat, x: Node)
    requires
        n <= nodes.len(),
    ensures
        signal_nodes(nodes, vars_only, n).contains(x) <==> nodes.take(n as int).contains(x) && (
        x.kind == NodeKind::Var || (!vars_only && (x.kind == NodeKind::Port || x.kind
            == NodeKind::Net))),
    decreases n,
{
    if n > 0 {
        lemma_signal_nodes(nodes, vars_only, (n - 1) as nat, x);
        crate::order::lemma_take_contains(nodes, n - 1);
        let r = signal_nodes(nodes, vars_only, (n - 1) as nat);
        let all = signal_nodes(nodes, vars_only, n);
        if all.len() > r.len() {
            assert(all == r.push(nodes[n - 1]));
            assert(all.contains(x) <==> r.contains(x) || x == nodes[n - 1]) by {
                if r.contains(x) {
                    let k = choose|k: int| 0 <= k < r.len() && r[k] == x;
                    assert(all[k] == x);
                }
                assert(all[r.len() as int] == nodes[n - 1]);
                if all.contains(x) {
                    let k = choose|k: int| 0 <= k < all.len() && all[k] == x;
                    if k < r.len() {
                        assert(r[k] == x);
                    }
                }
            }
        }
    }
}

/// Benchmarks are run on variables, or on all ports, nets and variables of a design.
pub proof fn law_benchmarks_run_on_signals(nodes: Seq<Node>, vars_only: bool, x: Node)
    ensures
        signal_nodes(nodes, vars_only, nodes.len()).contains(x) <==> nodes.contains(x) && (x.kind
            == NodeKind::Var || (!vars_only && (x.kind == NodeKind::Port || x.kind
            == NodeKind::Net))),
{
    lemma_signal_nodes(nodes, vars_only, nodes.len(), x);
    assert(nodes.take(nodes.len() as int) =~= nodes);
}

/// Whether a node has a range, and is a port, net or variable where that is asked for.
pub open spec fn can_probe(n: Node, signal: bool) -> bool {
    n.def_range is Some && (!signal || n.kind == NodeKind::Port || n.kind == NodeKind::Net
        || n.kind == NodeKind::Var)
}

proof fn lemma_probe(nodes: Seq<Node>, signal: bool, from: int)
    requires
        0 <= from <= nodes.len(),
    ensures
        match probe_from(nodes, signal, from) {
            Some(i) => from <= i < nodes.len() && can_probe(nodes[i], signal) && forall|j: int|
                from <= j < i ==> !can_probe(#[trigger] nodes[j], signal),
            None => forall|j: int|
                from <= j < nodes.len() ==> !can_probe(#[trigger] nodes[j], signal),
        },
    decreases nodes.len() - from,
{
    if from < nodes.len() && !can_probe(nodes[from], signal) {
        lemma_probe(nodes, signal, from + 1);
    }
}

/// The node to probe is the first signal with a range, or else the first node with one.
pub proof fn law_the_first_signal_is_probed(nodes: Seq<Node>)
    ensures
        match probe_of(nodes) {
            Some(i) => {
                &&& 0 <= i < nodes.len()
                &&& nodes[i].def_range is Some
                &&& can_probe(nodes[i], true) ==> forall|j: int|
                    0 <= j < i ==> !can_probe(#[trigger] nodes[j], true)
                &&& !can_probe(nodes[i], true) ==> (forall|j: int|
                    0 <= j < nodes.len() ==> !can_probe(#[trigger] nodes[j], true)) && forall|j: int|
                    0 <= j < i ==> (#[trigger] nodes[j]).def_range is None
            },
            None => forall|j: int| 0 <= j < nodes.len() ==> (#[trigger] nodes[j]).def_range is None,
        },
{
    lemma_probe(nodes, true, 0);
    lemma_probe(nodes, false, 0);
    if probe_from(nodes, true, 0) is None {
        match probe_from(nodes, false, 0) {
            Some(i) => {
                assert forall|j: int| 0 <= j < i implies (#[trigger] nodes[j]).def_range is None by {
                    assert(!can_probe(nodes[j], false));
                }
            },
            None => {
                assert forall|j: int| 0 <= j < nodes.len() implies (
                #[trigger] nodes[j]).def_range is None by {
                    assert(!can_probe(nodes[j], false));
                }
            },
        }
    }
}

} // verus!
