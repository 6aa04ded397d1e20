//! From a waveform signal's name to a path in the design.

use crate::text::{
    all_chars, all_digits, begins_with, chars_of, digits_between, dot_joined, join_dots, same,
    segments, split_dots,
};
use vstd::prelude::*;
use vstd::string::*;

verus! {

broadcast use vstd::string::group_string_axioms;

/// The rewriting rules that a match used.
#[derive(Debug, Clone, Copy, PartialEq, Eq, PartialOrd, Ord, Structural)]
pub enum Rule {
    /// The wrapping was stripped and the design top put in its place.
    AnchorRebase,
    /// An array-element segment was dropped.
    ArrayElement,
    /// An unnamed generate segment was dropped.
    GenBlockFlatten,
    /// A view through an interface port was resolved to the interface.
    InterfaceAlias,
}

/// How a trace signal relates to the design.
#[derive(Debug, Clone, PartialEq, Eq)]
pub enum Classification {
    /// Inside the design; `candidate` is the path to look up.
    InDesign { candidate: String, trail: Vec<Rule> },
    /// Outside the design, in a scope known to be outside.
    Excluded,
    /// Outside the design, in no scope known to be.
    OutOfDesign,
}

/// A classification by its contents.
#[verifier::ext_equal]
pub enum ClassV {
    InDesign { candidate: Seq<char>, trail: Seq<Rule> },
    Excluded,
    OutOfDesign,
}

impl View for Classification {
    type V = ClassV;

    open spec fn view(&self) -> ClassV {
        match self {
            Classification::InDesign { candidate, trail } => ClassV::InDesign {
                candidate: candidate@,
                trail: trail@,
            },
            Classification::Excluded => ClassV::Excluded,
            Classification::OutOfDesign => ClassV::OutOfDesign,
        }
    }
}

/// What [`classify`] goes by.
#[derive(Debug, Clone)]
pub struct NormalizeConfig {
    /// The design's top, the root of its namespace.
    pub design_top: String,
    /// The trace scope segments that name the design.
    pub anchor: Vec<String>,
    /// Scope segments that mark a signal as known to be outside.
    pub excluded: Vec<String>,
}

/// Whether a segment is a bare array selector such as `[5]`.
pub open spec fn array_element(seg: Seq<char>) -> bool {
    &&& seg.len() > 2
    &&& seg[0] == '['
    &&& seg.last() == ']'
    &&& digits_between(seg, 1, seg.len() - 1)
}

/// Whether a segment is an unnamed generate block such as `genblk1`.
pub open spec fn gen_block(seg: Seq<char>) -> bool {
    &&& seg.len() > 6
    &&& begins_with(seg, seq!['g', 'e', 'n', 'b', 'l', 'k'])
    &&& digits_between(seg, 6, seg.len() as int)
}

/// Whether `prefix` is how `segs` begins.
pub open spec fn leads(segs: Seq<Seq<char>>, prefix: Seq<Seq<char>>) -> bool {
    prefix.len() <= segs.len() && segs.take(prefix.len() as int) == prefix
}

/// A trail with a rule on it.
pub open spec fn with_rule(trail: Seq<Rule>, r: Rule) -> Seq<Rule> {
    if trail.contains(r) {
        trail
    } else {
        trail.push(r)
    }
}

/// The segments that stay among the first `n`, and the rules used on them.
pub open spec fn kept_segments(
    top: Seq<char>,
    segs: Seq<Seq<char>>,
    n: nat,
) -> (Seq<Seq<char>>, Seq<Rule>)
    decreases n,
{
    if n == 0 {
        (seq![top], seq![Rule::AnchorRebase])
    } else {
        let (out, trail) = kept_segments(top, segs, (n - 1) as nat);
        let seg = segs[n - 1];
        if array_element(seg) {
            (out, with_rule(trail, Rule::ArrayElement))
        } else if gen_block(seg) {
            (out, with_rule(trail, Rule::GenBlockFlatten))
        } else {
            (out.push(seg), trail)
        }
    }
}

/// The classification of a name: inside the design where the anchor leads it; else
/// excluded where one of its segments is listed as such.
pub open spec fn classified(
    top: Seq<char>,
    anchor: Seq<Seq<char>>,
    excluded: Seq<Seq<char>>,
    name: Seq<char>,
) -> ClassV {
    let segs = segments(name);
    if leads(segs, anchor) {
        let rest = segs.skip(anchor.len() as int);
        let (out, trail) = kept_segments(top, rest, rest.len());
        ClassV::InDesign { candidate: dot_joined(out), trail }
    } else if exists|i: int| 0 <= i < segs.len() && excluded.contains(#[trigger] segs[i]) {
        ClassV::Excluded
    } else {
        ClassV::OutOfDesign
    }
}

fn is_array_element(seg: &str) -> (r: bool)
    ensures
        r == array_element(seg@),
{
    let cs: Vec<char> = chars_of(seg);
    let n: usize = cs.len();
    n > 2 && cs[0] == '[' && cs[n - 1] == ']' && all_digits(cs.as_slice(), 1, n - 1)
}

fn is_genblock(seg: &str) -> (r: bool)
    ensures
        r == gen_block(seg@),
{
    let cs: Vec<char> = chars_of(seg);
    let n: usize = cs.len();
    let r: bool = n > 6 && cs[0] == 'g' && cs[1] == 'e' && cs[2] == 'n' && cs[3] == 'b' && cs[4]
        == 'l' && cs[5] == 'k' && all_digits(cs.as_slice(), 6, n);
    proof {
        let p = seq!['g', 'e', 'n', 'b', 'l', 'k'];
        if n > 6 {
            let head = seg@.subrange(0, 6);
            if cs@[0] == 'g' && cs@[1] == 'e' && cs@[2] == 'n' && cs@[3] == 'b' && cs@[4] == 'l'
                && cs@[5] == 'k' {
                assert(head =~= p);
            } else {
                assert(head[0] == cs@[0] && head[1] == cs@[1] && head[2] == cs@[2] && head[3]
                    == cs@[3] && head[4] == cs@[4] && head[5] == cs@[5]);
                assert(head != p) by {
                    assert(p[0] == 'g' && p[1] == 'e' && p[2] == 'n' && p[3] == 'b' && p[4] == 'l'
                        && p[5] == 'k');
                }
            }
        }
    }
    r
}

/// Whether `anchor` is how `segs` begins.
pub fn starts_with_anchor(segs: &[String], anchor: &[String]) -> (r: bool)
    ensures
        r == leads(all_chars(segs@), all_chars(anchor@)),
{
    let ghost sv = all_chars(segs@);
    let ghost av = all_chars(anchor@);
    if segs.len() < anchor.len() {
        return false;
    }
    let mut i: usize = 0;
    while i < anchor.len()
        invariant
            i <= anchor@.len(),
            anchor@.len() <= segs@.len(),
            sv == all_chars(segs@),
            av == all_chars(anchor@),
            forall|k: int| 0 <= k < i ==> (#[trigger] sv[k]) == av[k],
        decreases anchor@.len() - i,
    {
        if !same(anchor[i].as_str(), segs[i].as_str()) {
            assert(sv.take(av.len() as int)[i as int] != av[i as int]);
            return false;
        }
        i += 1;
    }
    assert(sv.take(av.len() as int) =~= av);
    true
}

/// Adds a rule to a trail, once.
fn push_once(trail: &mut Vec<Rule>, rule: Rule)
    ensures
        final(trail)@ == with_rule(old(trail)@, rule),
{
    let mut i: usize = 0;
    while i < trail.len()
        invariant
            i <= trail@.len(),
            trail@ == old(trail)@,
            forall|k: int| 0 <= k < i ==> trail@[k] != rule,
        decreases trail@.len() - i,
    {
        if trail[i] == rule {
            assert(trail@[i as int] == rule);
            return;
        }
        i += 1;
    }
    trail.push(rule);
}

/// Whether a text is listed.
pub fn is_listed(names: &[String], seg: &str) -> (r: bool)
    ensures
        r == all_chars(names@).contains(seg@),
{
    let mut i: usize = 0;
    while i < names.len()
        invariant
            i <= names@.len(),
            forall|k: int| 0 <= k < i ==> (#[trigger] all_chars(names@)[k]) != seg@,
        decreases names@.len() - i,
    {
        if same(names[i].as_str(), seg) {
            assert(all_chars(names@)[i as int] == seg@);
            return true;
        }
        i += 1;
    }
    false
}

/// The classification of a trace signal's name.
pub fn classify(cfg: &NormalizeConfig, full_name: &str) -> (r: Classification)
    ensures
        r@ == classified(
            cfg.design_top@,
            all_chars(cfg.anchor@),
            all_chars(cfg.excluded@),
            full_name@,
        ),
{
    let segs: Vec<String> = split_dots(full_name);
    let ghost sv = all_chars(segs@);
    if starts_with_anchor(segs.as_slice(), cfg.anchor.as_slice()) {
        let a: usize = cfg.anchor.len();
        let ghost rest = sv.skip(a as int);
        let mut out: Vec<String> = Vec::new();
        out.push(cfg.design_top.clone());
        let mut trail: Vec<Rule> = Vec::new();
        trail.push(Rule::AnchorRebase);
        assert(all_chars(out@) =~= seq![cfg.design_top@]);
        assert(trail@ =~= seq![Rule::AnchorRebase]);
        let mut i: usize = a;
        while i < segs.len()
            invariant
                a <= i <= segs@.len(),
                sv == all_chars(segs@),
                rest == sv.skip(a as int),
                (all_chars(out@), trail@) == kept_segments(cfg.design_top@, rest, (i - a) as nat),
            decreases segs@.len() - i,
        {
            let seg: &String = &segs[i];
            assert(rest[i - a] == seg@);
            if is_array_element(seg.as_str()) {
                push_once(&mut trail, Rule::ArrayElement);
            } else if is_genblock(seg.as_str()) {
                push_once(&mut trail, Rule::GenBlockFlatten);
            } else {
                let ghost before = all_chars(out@);
                out.push(seg.clone());
                assert(all_chars(out@) =~= before.push(seg@));
            }
            i += 1;
        }
        return Classification::InDesign { candidate: join_dots(out.as_slice()), trail };
    }
    let mut i: usize = 0;
    while i < segs.len()
        invariant
            i <= segs@.len(),
            sv == all_chars(segs@),
            sv == segments(full_name@),
            !leads(sv, all_chars(cfg.anchor@)),
            forall|k: int|
                0 <= k < i ==> !all_chars(cfg.excluded@).contains(#[trigger] sv[k]),
        decreases segs@.len() - i,
    {
        if is_listed(cfg.excluded.as_slice(), segs[i].as_str()) {
            assert(all_chars(cfg.excluded@).contains(sv[i as int]));
            return Classification::Excluded;
        }
        i += 1;
    }
    Classification::OutOfDesign
}

} // verus!
