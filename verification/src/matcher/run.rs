//! A match run: every signal of a trace is looked up and counted.

use crate::matcher::anchor::{detect_anchor, detected};
use crate::matcher::normalize::{
    classified, classify, with_rule, ClassV, Classification, NormalizeConfig, Rule,
};
use crate::model::{
    at_path, kind_at, law_new_links_stay_one_to_one, Design, Document, NodeId, NodeKind, WaveMaps,
    WaveSignalRef,
};
use crate::schematic::kinds::kind_of;
use crate::text::{all_chars, clone_texts, dot_joined, join_dots, segments, split_dots};
use vstd::prelude::*;

verus! {

/// A variable of a waveform trace.
#[derive(Debug, Clone)]
pub struct WaveVar {
    pub var_ref: u32,
    pub signal_ref: u32,
    /// Full hierarchical name.
    pub full_name: String,
    /// Whether the trace declares it a parameter.
    pub is_parameter: bool,
}

/// Options of a match run.
#[derive(Debug, Clone)]
pub struct MatchOptions {
    /// Scope segments that mark a signal as known to be outside the design.
    pub excluded_scopes: Vec<String>,
    /// The wrapping of the design, where it is not to be detected.
    pub anchor: Option<Vec<String>>,
}

impl Default for MatchOptions {
    fn default() -> (r: Self)
        ensures
            r.excluded_scopes@.len() == 0,
            r.anchor is None,
    {
        MatchOptions { excluded_scopes: Vec::new(), anchor: None }
    }
}

/// A signal that was not matched, with the path that was tried.
#[derive(Debug, Clone)]
pub struct UnmatchedSignal {
    pub full_name: String,
    pub candidate: String,
}

/// How often each rule was used.
#[derive(Debug, Clone, Copy, PartialEq, Eq, Structural)]
pub struct RuleCounts {
    pub anchor_rebase: usize,
    pub array_element: usize,
    pub gen_block_flatten: usize,
    pub interface_alias: usize,
}

impl RuleCounts {
    /// The count of a rule.
    pub open spec fn of(self, r: Rule) -> usize {
        match r {
            Rule::AnchorRebase => self.anchor_rebase,
            Rule::ArrayElement => self.array_element,
            Rule::GenBlockFlatten => self.gen_block_flatten,
            Rule::InterfaceAlias => self.interface_alias,
        }
    }

    /// The count of a rule.
    pub fn get(&self, r: Rule) -> (n: usize)
        ensures
            n == self.of(r),
    {
        match r {
            Rule::AnchorRebase => self.anchor_rebase,
            Rule::ArrayElement => self.array_element,
            Rule::GenBlockFlatten => self.gen_block_flatten,
            Rule::InterfaceAlias => self.interface_alias,
        }
    }
}

/// What came of one signal.
pub enum OutcomeV {
    /// The path itself is a signal's.
    Direct { node: u32, trail: Seq<Rule> },
    /// The path is a view of an interface signal.
    Alias { node: u32, trail: Seq<Rule> },
    Parameter,
    Unmatched { candidate: Seq<char> },
    Excluded,
    Mystery,
}

/// The rank of a signal kind: a variable before a net before a port.
pub open spec fn rank(k: Option<NodeKind>) -> int {
    match k {
        Some(NodeKind::Var) => 0,
        Some(NodeKind::Net) => 1,
        Some(NodeKind::Port) => 2,
        _ => 99,
    }
}

/// Whether `a` is preferred to `b`.
pub open spec fn preferred(d: Document, a: u32, b: u32) -> bool {
    rank(kind_at(d, a)) < rank(kind_at(d, b)) || (rank(kind_at(d, a)) == rank(kind_at(d, b)) && a
        < b)
}

/// The preferred signal among the first `n` of `at`.
pub open spec fn pick(d: Document, at: Seq<u32>, n: nat) -> Option<u32>
    decreases n,
{
    if n == 0 {
        None
    } else {
        let r = pick(d, at, (n - 1) as nat);
        let x = at[n - 1];
        if rank(kind_at(d, x)) == 99 {
            r
        } else {
            match r {
                Some(y) => if preferred(d, x, y) {
                    Some(x)
                } else {
                    Some(y)
                },
                None => Some(x),
            }
        }
    }
}

/// The preferred signal at a path.
pub open spec fn picked(d: Document, path: Seq<char>) -> Option<u32> {
    pick(d, at_path(d, path), at_path(d, path).len())
}

/// Whether a path names parameters only.
pub open spec fn parameter_path(d: Document, path: Seq<char>) -> bool {
    &&& at_path(d, path).len() > 0
    &&& forall|i: int|
        0 <= i < at_path(d, path).len() ==> kind_at(d, #[trigger] at_path(d, path)[i]) == Some(
            NodeKind::Param,
        )
}

/// A path without its segment `k`.
pub open spec fn without_segment(segs: Seq<Seq<char>>, k: int) -> Seq<char> {
    dot_joined(segs.take(k) + segs.skip(k + 1))
}

/// The inner segments before position `n` whose removal leaves a path of the design.
pub open spec fn droppable(d: Document, segs: Seq<Seq<char>>, n: int) -> Seq<int>
    decreases n,
{
    if n <= 1 {
        Seq::empty()
    } else {
        let r = droppable(d, segs, n - 1);
        if at_path(d, without_segment(segs, n - 1)).len() > 0 {
            r.push(n - 1)
        } else {
            r
        }
    }
}

/// The path that a view of an interface stands for: the one path that is left when an
/// inner segment is dropped, if there is exactly one.
pub open spec fn alias_of(d: Document, candidate: Seq<char>) -> Option<Seq<char>> {
    let segs = segments(candidate);
    let drops = droppable(d, segs, segs.len() - 1);
    if segs.len() >= 3 && drops.len() == 1 {
        Some(without_segment(segs, drops[0]))
    } else {
        None
    }
}

/// What comes of a signal: a direct match, a match through an interface view, a
/// parameter, or a miss under its reason.
pub open spec fn outcome(
    d: Document,
    top: Seq<char>,
    anchor: Seq<Seq<char>>,
    excluded: Seq<Seq<char>>,
    s: WaveVar,
) -> OutcomeV {
    match classified(top, anchor, excluded, s.full_name@) {
        ClassV::InDesign { candidate, trail } => match picked(d, candidate) {
            Some(node) => OutcomeV::Direct { node, trail },
            None => {
                let alias = alias_of(d, candidate);
                let via = match alias {
                    Some(p) => picked(d, p),
                    None => None,
                };
                match via {
                    Some(node) => OutcomeV::Alias {
                        node,
                        trail: trail.push(Rule::InterfaceAlias),
                    },
                    None => if s.is_parameter || parameter_path(d, candidate) || (alias is Some
                        && parameter_path(d, alias->0)) {
                        OutcomeV::Parameter
                    } else {
                        OutcomeV::Unmatched { candidate }
                    },
                }
            },
        },
        ClassV::Excluded => OutcomeV::Excluded,
        ClassV::OutOfDesign => OutcomeV::Mystery,
    }
}

/// The outcomes of the first `n` signals.
pub open spec fn outcomes(
    d: Document,
    top: Seq<char>,
    anchor: Seq<Seq<char>>,
    excluded: Seq<Seq<char>>,
    signals: Seq<WaveVar>,
    n: nat,
) -> Seq<OutcomeV>
    decreases n,
{
    if n == 0 {
        Seq::empty()
    } else {
        outcomes(d, top, anchor, excluded, signals, (n - 1) as nat).push(
            outcome(d, top, anchor, excluded, signals[n - 1]),
        )
    }
}

/// The kinds of outcome that are counted.
#[derive(Debug, Clone, Copy, PartialEq, Eq, Structural)]
pub enum Tally {
    Direct,
    Alias,
    Parameter,
    Unmatched,
    Excluded,
    Mystery,
}

/// The kind of an outcome.
pub open spec fn tally_of(o: OutcomeV) -> Tally {
    match o {
        OutcomeV::Direct { .. } => Tally::Direct,
        OutcomeV::Alias { .. } => Tally::Alias,
        OutcomeV::Parameter => Tally::Parameter,
        OutcomeV::Unmatched { .. } => Tally::Unmatched,
        OutcomeV::Excluded => Tally::Excluded,
        OutcomeV::Mystery => Tally::Mystery,
    }
}

/// How many outcomes are of a kind.
pub open spec fn tally(os: Seq<OutcomeV>, t: Tally) -> nat
    decreases os.len(),
{
    if os.len() == 0 {
        0
    } else {
        tally(os.drop_last(), t) + if tally_of(os.last()) == t {
            1nat
        } else {
            0nat
        }
    }
}

/// The rules of a match.
pub open spec fn trail_of(o: OutcomeV) -> Seq<Rule> {
    match o {
        OutcomeV::Direct { trail, .. } => trail,
        OutcomeV::Alias { trail, .. } => trail,
        _ => Seq::empty(),
    }
}

/// How many matches used a rule.
pub open spec fn uses(os: Seq<OutcomeV>, r: Rule) -> nat
    decreases os.len(),
{
    if os.len() == 0 {
        0
    } else {
        uses(os.drop_last(), r) + rule_count(trail_of(os.last()), r, trail_of(os.last()).len())
    }
}

/// How often a rule stands among the first `n` of a trail.
pub open spec fn rule_count(trail: Seq<Rule>, r: Rule, n: nat) -> nat
    decreases n,
{
    if n == 0 {
        0
    } else {
        rule_count(trail, r, (n - 1) as nat) + if trail[n - 1] == r {
            1nat
        } else {
            0nat
        }
    }
}

/// The waveform links after the matches among the outcomes, in order.
pub open spec fn links(w: WaveMaps, os: Seq<OutcomeV>, signals: Seq<WaveVar>) -> WaveMaps
    decreases os.len(),
{
    if os.len() == 0 {
        w
    } else {
        let r = links(w, os.drop_last(), signals);
        let v = signals[os.len() - 1].var_ref as u64;
        match os.last() {
            OutcomeV::Direct { node, .. } => r.linked(node, v),
            OutcomeV::Alias { node, .. } => r.linked(node, v),
            _ => r,
        }
    }
}

/// However signals match, links stay one to one: of the signals that match one node, the
/// last is linked to it.
pub proof fn law_matches_stay_one_to_one(w: WaveMaps, os: Seq<OutcomeV>, signals: Seq<WaveVar>)
    requires
        w.bijective(),
    ensures
        links(w, os, signals).bijective(),
    decreases os.len(),
{
    if os.len() > 0 {
        law_matches_stay_one_to_one(w, os.drop_last(), signals);
        let r = links(w, os.drop_last(), signals);
        let v = signals[os.len() - 1].var_ref as u64;
        match os.last() {
            OutcomeV::Direct { node, .. } => {
                law_new_links_stay_one_to_one(r, node, v);
            },
            OutcomeV::Alias { node, .. } => {
                law_new_links_stay_one_to_one(r, node, v);
            },
            _ => {},
        }
    }
}

/// The first hundred signals of a kind, by index.
pub open spec fn samples(os: Seq<OutcomeV>, t: Tally) -> Seq<int>
    decreases os.len(),
{
    if os.len() == 0 {
        Seq::empty()
    } else {
        let r = samples(os.drop_last(), t);
        if tally_of(os.last()) == t && r.len() < 100 {
            r.push(os.len() - 1)
        } else {
            r
        }
    }
}

/// Result of a match run.
#[derive(Debug, Clone)]
pub struct MatchReport {
    pub total_signals: usize,
    /// Signals of the design that are no parameters.
    pub denominator: usize,
    pub matched_direct: usize,
    pub matched_alias: usize,
    pub unmatched: usize,
    pub excluded_scope: usize,
    pub excluded_parameter: usize,
    /// Outside the design and not in any excluded scope.
    pub mystery: usize,
    pub anchor: Vec<String>,
    pub rule_counts: RuleCounts,
    pub unmatched_samples: Vec<UnmatchedSignal>,
    pub mystery_samples: Vec<String>,
}

impl MatchReport {
    /// Whether the report counts the given outcomes.
    pub open spec fn counts(&self, os: Seq<OutcomeV>) -> bool {
        &&& self.matched_direct == tally(os, Tally::Direct)
        &&& self.matched_alias == tally(os, Tally::Alias)
        &&& self.unmatched == tally(os, Tally::Unmatched)
        &&& self.excluded_scope == tally(os, Tally::Excluded)
        &&& self.excluded_parameter == tally(os, Tally::Parameter)
        &&& self.mystery == tally(os, Tally::Mystery)
        &&& forall|r: Rule| #[trigger] self.rule_counts.of(r) == uses(os, r)
    }

    /// Whether the report shows the first of the given misses.
    pub open spec fn shows(&self, os: Seq<OutcomeV>, signals: Seq<WaveVar>) -> bool {
        let u = samples(os, Tally::Unmatched);
        let m = samples(os, Tally::Mystery);
        &&& self.unmatched_samples@.len() == u.len()
        &&& forall|k: int|
            0 <= k < u.len() ==> (#[trigger] self.unmatched_samples@[k]).full_name@
                == signals[u[k]].full_name@ && OutcomeV::Unmatched {
                candidate: self.unmatched_samples@[k].candidate@,
            } == os[u[k]]
        &&& self.mystery_samples@.len() == m.len()
        &&& forall|k: int|
            0 <= k < m.len() ==> (#[trigger] self.mystery_samples@[k])@ == signals[m[k]].full_name@
    }

    /// Matched signals.
    pub fn matched(&self) -> (r: usize)
        requires
            self.matched_direct + self.matched_alias <= usize::MAX,
        ensures
            r == self.matched_direct + self.matched_alias,
    {
        self.matched_direct + self.matched_alias
    }

    /// Whether at least `num` of every `den` signals of the design were matched and
    /// none is a mystery. With no signals to match, all were.
    pub fn passes_ratio(&self, num: u64, den: u64) -> (r: bool)
        requires
            self.matched_direct + self.matched_alias <= usize::MAX,
        ensures
            r == ((self.denominator == 0 && num <= den || self.denominator > 0 && (
            self.matched_direct + self.matched_alias) * den >= num * self.denominator)
                && self.mystery == 0),
    {
        if self.mystery != 0 {
            return false;
        }
        if self.denominator == 0 {
            return num <= den;
        }
        let m: usize = self.matched();
        proof {
            assert(m * den <= u64::MAX * u64::MAX) by (nonlinear_arith)
                requires
                    m <= u64::MAX,
                    den <= u64::MAX,
            ;
            assert(num * self.denominator <= u64::MAX * u64::MAX) by (nonlinear_arith)
                requires
                    num <= u64::MAX,
                    self.denominator <= u64::MAX,
            ;
        }
        m as u128 * den as u128 >= num as u128 * self.denominator as u128
    }
}

proof fn lemma_tally_sum(os: Seq<OutcomeV>)
    ensures
        tally(os, Tally::Direct) + tally(os, Tally::Alias) + tally(os, Tally::Unmatched) + tally(
            os,
            Tally::Excluded,
        ) + tally(os, Tally::Parameter) + tally(os, Tally::Mystery) == os.len(),
    decreases os.len(),
{
    if os.len() > 0 {
        lemma_tally_sum(os.drop_last());
    }
}

/// Every signal is counted once: matched, unmatched, excluded or a mystery.
pub proof fn law_every_signal_is_counted_once(r: MatchReport, os: Seq<OutcomeV>)
    requires
        r.counts(os),
    ensures
        r.matched_direct + r.matched_alias + r.unmatched + r.excluded_scope + r.excluded_parameter
            + r.mystery == os.len(),
{
    lemma_tally_sum(os);
}

/// The outcomes of a run on a design.
pub open spec fn run_outcomes(d: Document, signals: Seq<WaveVar>, opts: MatchOptions) -> Seq<
    OutcomeV,
> {
    outcomes(
        d,
        d.design@,
        anchor_used(d, signals, opts),
        all_chars(opts.excluded_scopes@),
        signals,
        signals.len(),
    )
}

/// The anchor that a run goes by: the given one, or the detected one.
pub open spec fn anchor_used(d: Document, signals: Seq<WaveVar>, opts: MatchOptions) -> Seq<
    Seq<char>,
> {
    match opts.anchor {
        Some(a) => all_chars(a@),
        None => detected(d, signals, d.design@),
    }
}

fn rank_of(k: Option<NodeKind>) -> (r: u32)
    ensures
        r == rank(k),
{
    match k {
        Some(NodeKind::Var) => 0,
        Some(NodeKind::Net) => 1,
        Some(NodeKind::Port) => 2,
        _ => 99,
    }
}

/// The preferred signal at a path.
pub fn pick_node(design: &Design, path: &str) -> (r: Option<NodeId>)
    requires
        design.wf(),
    ensures
        r == picked(design.doc, path@),
{
    let at: &[NodeId] = design.nodes_at_path(path);
    let mut best: Option<NodeId> = None;
    let mut i: usize = 0;
    while i < at.len()
        invariant
            i <= at@.len(),
            best == pick(design.doc, at@, i as nat),
        decreases at@.len() - i,
    {
        let x: NodeId = at[i];
        let rx: u32 = rank_of(kind_of(design, x));
        if rx != 99 {
            let better: bool = match best {
                Some(y) => {
                    let ry: u32 = rank_of(kind_of(design, y));
                    rx < ry || (rx == ry && x < y)
                },
                None => true,
            };
            if better {
                best = Some(x);
            }
        }
        i += 1;
    }
    best
}

fn is_parameter_path(design: &Design, path: &str) -> (r: bool)
    requires
        design.wf(),
    ensures
        r == parameter_path(design.doc, path@),
{
    let at: &[NodeId] = design.nodes_at_path(path);
    if at.len() == 0 {
        return false;
    }
    let mut i: usize = 0;
    while i < at.len()
        invariant
            i <= at@.len(),
            at@ == at_path(design.doc, path@),
            forall|k: int|
                0 <= k < i ==> kind_at(design.doc, #[trigger] at@[k]) == Some(NodeKind::Param),
        decreases at@.len() - i,
    {
        let param: bool = match kind_of(design, at[i]) {
            Some(NodeKind::Param) => true,
            _ => false,
        };
        if !param {
            assert(kind_at(design.doc, at_path(design.doc, path@)[i as int]) != Some(
                NodeKind::Param,
            ));
            return false;
        }
        i += 1;
    }
    true
}

fn drop_segment(segs: &Vec<String>, k: usize) -> (r: String)
    requires
        k < segs@.len(),
    ensures
        r@ == without_segment(all_chars(segs@), k as int),
{
    let mut alt: Vec<String> = Vec::new();
    let ghost sv = all_chars(segs@);
    let ghost want = sv.take(k as int) + sv.skip(k + 1);
    let mut i: usize = 0;
    assert(all_chars(alt@) =~= want.take(0));
    while i < segs.len()
        invariant
            i <= segs@.len(),
            k < segs@.len(),
            sv == all_chars(segs@),
            want == sv.take(k as int) + sv.skip(k + 1),
            all_chars(alt@) == want.take(
                if i <= k {
                    i as int
                } else {
                    i - 1
                },
            ),
        decreases segs@.len() - i,
    {
        let ghost before = all_chars(alt@);
        if i != k {
            alt.push(segs[i].clone());
            proof {
                assert(all_chars(alt@) =~= before.push(segs@[i as int]@));
                if i < k {
                    assert(want[i as int] == segs@[i as int]@);
                    assert(want.take(i + 1) =~= want.take(i as int).push(want[i as int]));
                } else {
                    assert(want[i - 1] == segs@[i as int]@);
                    assert(want.take(i as int) =~= want.take(i - 1).push(want[i - 1]));
                }
            }
        }
        i += 1;
    }
    assert(want.take(segs@.len() - 1) =~= want);
    join_dots(alt.as_slice())
}

/// The path that a view of an interface stands for.
fn alias_path(design: &Design, candidate: &str) -> (r: Option<String>)
    requires
        design.wf(),
    ensures
        crate::text::opt_chars(r) == alias_of(design.doc, candidate@),
{
    let segs: Vec<String> = split_dots(candidate);
    let ghost sv = all_chars(segs@);
    if segs.len() < 3 {
        return None;
    }
    let mut hit: Option<String> = None;
    let mut k: usize = 1;
    while k < segs.len() - 1
        invariant
            3 <= segs@.len(),
            1 <= k <= segs@.len() - 1,
            design.wf(),
            sv == all_chars(segs@),
            sv == segments(candidate@),
            droppable(design.doc, sv, k as int).len() <= 1,
            match hit {
                Some(p) => droppable(design.doc, sv, k as int).len() == 1 && p@
                    == without_segment(sv, droppable(design.doc, sv, k as int)[0]),
                None => droppable(design.doc, sv, k as int).len() == 0,
            },
        decreases segs@.len() - k,
    {
        let path: String = drop_segment(&segs, k);
        if design.nodes_at_path(path.as_str()).len() > 0 {
            if hit.is_some() {
                proof {
                    lemma_droppable_grows(design.doc, sv, k + 1, sv.len() - 1);
                }
                return None;
            }
            hit = Some(path);
        }
        k += 1;
    }
    hit
}

proof fn lemma_droppable_grows(d: Document, segs: Seq<Seq<char>>, n: int, m: int)
    requires
        n <= m,
    ensures
        droppable(d, segs, n).len() <= droppable(d, segs, m).len(),
    decreases m - n,
{
    if n < m {
        lemma_droppable_grows(d, segs, n, m - 1);
    }
}

/// What came of one signal.
enum Outcome {
    Direct { node: NodeId, trail: Vec<Rule> },
    Alias { node: NodeId, trail: Vec<Rule> },
    Parameter,
    Unmatched { candidate: String },
    Excluded,
    Mystery,
}

impl View for Outcome {
    type V = OutcomeV;

    closed spec fn view(&self) -> OutcomeV {
        match self {
            Outcome::Direct { node, trail } => OutcomeV::Direct { node: *node, trail: trail@ },
            Outcome::Alias { node, trail } => OutcomeV::Alias { node: *node, trail: trail@ },
            Outcome::Parameter => OutcomeV::Parameter,
            Outcome::Unmatched { candidate } => OutcomeV::Unmatched { candidate: candidate@ },
            Outcome::Excluded => OutcomeV::Excluded,
            Outcome::Mystery => OutcomeV::Mystery,
        }
    }
}

fn resolve(design: &Design, cfg: &NormalizeConfig, s: &WaveVar) -> (r: Outcome)
    requires
        design.wf(),
    ensures
        r@ == outcome(
            design.doc,
            cfg.design_top@,
            all_chars(cfg.anchor@),
            all_chars(cfg.excluded@),
            *s,
        ),
{
    match classify(cfg, s.full_name.as_str()) {
        Classification::InDesign { candidate, trail } => {
            if let Some(node) = pick_node(design, candidate.as_str()) {
                return Outcome::Direct { node, trail };
            }
            let alias: Option<String> = alias_path(design, candidate.as_str());
            let mut via: Option<NodeId> = None;
            let mut param: bool = s.is_parameter || is_parameter_path(design, candidate.as_str());
            if let Some(p) = &alias {
                via = pick_node(design, p.as_str());
                param = param || is_parameter_path(design, p.as_str());
            }
            if let Some(node) = via {
                let mut t: Vec<Rule> = trail;
                t.push(Rule::InterfaceAlias);
                return Outcome::Alias { node, trail: t };
            }
            if param {
                Outcome::Parameter
            } else {
                Outcome::Unmatched { candidate }
            }
        },
        Classification::Excluded => Outcome::Excluded,
        Classification::OutOfDesign => Outcome::Mystery,
    }
}

/// Counts the rules of a match.
fn record_rules(counts: &mut RuleCounts, trail: &Vec<Rule>, Ghost(bound): Ghost<int>)
    requires
        forall|r: Rule| #[trigger] old(counts).of(r) + rule_count(trail@, r, trail@.len()) <= bound,
        bound <= usize::MAX,
    ensures
        forall|r: Rule| #[trigger]
            final(counts).of(r) == old(counts).of(r) + rule_count(trail@, r, trail@.len()),
{
    let ghost c0 = *counts;
    let mut i: usize = 0;
    while i < trail.len()
        invariant
            i <= trail@.len(),
            bound <= usize::MAX,
            forall|r: Rule| #[trigger] c0.of(r) + rule_count(trail@, r, trail@.len()) <= bound,
            forall|r: Rule| #[trigger]
                counts.of(r) == c0.of(r) + rule_count(trail@, r, i as nat),
        decreases trail@.len() - i,
    {
        let rule: Rule = trail[i];
        let ghost before = *counts;
        proof {
            lemma_rule_count_grows(trail@, rule, (i + 1) as nat, trail@.len());
            assert(counts.of(rule) < usize::MAX);
        }
        match rule {
            Rule::AnchorRebase => {
                counts.anchor_rebase = counts.anchor_rebase + 1;
            },
            Rule::ArrayElement => {
                counts.array_element = counts.array_element + 1;
            },
            Rule::GenBlockFlatten => {
                counts.gen_block_flatten = counts.gen_block_flatten + 1;
            },
            Rule::InterfaceAlias => {
                counts.interface_alias = counts.interface_alias + 1;
            },
        }
        proof {
            assert forall|r: Rule| #[trigger] counts.of(r) == c0.of(r) + rule_count(
                trail@,
                r,
                (i + 1) as nat,
            ) by {
                assert(before.of(r) == c0.of(r) + rule_count(trail@, r, i as nat));
            }
        }
        i += 1;
    }
}

proof fn lemma_rule_count_grows(trail: Seq<Rule>, r: Rule, n: nat, m: nat)
    requires
        n <= m,
    ensures
        rule_count(trail, r, n) <= rule_count(trail, r, m),
    decreases m,
{
    if n < m {
        lemma_rule_count_grows(trail, r, n, (m - 1) as nat);
    }
}

/// Whether no rule stands twice in a trail.
spec fn once_each(trail: Seq<Rule>) -> bool {
    forall|i: int, j: int| 0 <= i < j < trail.len() ==> trail[i] != trail[j]
}

proof fn lemma_once(trail: Seq<Rule>, r: Rule, n: nat)
    requires
        once_each(trail),
        n <= trail.len(),
    ensures
        rule_count(trail, r, n) <= 1,
        rule_count(trail, r, n) == 1 <==> exists|i: int| 0 <= i < n && trail[i] == r,
    decreases n,
{
    if n > 0 {
        lemma_once(trail, r, (n - 1) as nat);
        if trail[n - 1] == r {
            assert(rule_count(trail, r, (n - 1) as nat) == 0);
        }
    }
}

proof fn lemma_kept_once(top: Seq<char>, segs: Seq<Seq<char>>, n: nat)
    ensures
        once_each(crate::matcher::normalize::kept_segments(top, segs, n).1),
        !crate::matcher::normalize::kept_segments(top, segs, n).1.contains(Rule::InterfaceAlias),
    decreases n,
{
    if n > 0 {
        lemma_kept_once(top, segs, (n - 1) as nat);
        let t = crate::matcher::normalize::kept_segments(top, segs, (n - 1) as nat).1;
        assert forall|r: Rule| once_each(#[trigger] with_rule(t, r)) by {
            if !t.contains(r) {
                assert forall|i: int, j: int|
                    0 <= i < j < t.push(r).len() implies t.push(r)[i] != t.push(r)[j] by {
                    if j == t.len() {
                        assert(t.contains(t[i]));
                    }
                }
            }
        }
        assert forall|r: Rule| r != Rule::InterfaceAlias implies !(#[trigger] with_rule(
            t,
            r,
        )).contains(Rule::InterfaceAlias) by {
            if with_rule(t, r).contains(Rule::InterfaceAlias) {
                let i = choose|i: int|
                    0 <= i < with_rule(t, r).len() && with_rule(t, r)[i] == Rule::InterfaceAlias;
                if i < t.len() {
                    assert(t[i] == Rule::InterfaceAlias);
                }
            }
        }
    }
}

proof fn lemma_outcome_rules(
    d: Document,
    top: Seq<char>,
    anchor: Seq<Seq<char>>,
    excluded: Seq<Seq<char>>,
    s: WaveVar,
    r: Rule,
)
    ensures
        rule_count(
            trail_of(outcome(d, top, anchor, excluded, s)),
            r,
            trail_of(outcome(d, top, anchor, excluded, s)).len(),
        ) <= 1,
{
    let o = outcome(d, top, anchor, excluded, s);
    let t = trail_of(o);
    match classified(top, anchor, excluded, s.full_name@) {
        ClassV::InDesign { candidate, trail } => {
            let rest = segments(s.full_name@).skip(anchor.len() as int);
            lemma_kept_once(top, rest, rest.len());
            if tally_of(o) == Tally::Alias {
                assert(once_each(t)) by {
                    assert forall|i: int, j: int| 0 <= i < j < t.len() implies t[i] != t[j] by {
                        if j == trail.len() {
                            assert(trail.contains(trail[i]));
                        }
                    }
                }
            }
            assert(once_each(t));
            lemma_once(t, r, t.len());
        },
        _ => {},
    }
}

proof fn lemma_uses_bound(
    d: Document,
    top: Seq<char>,
    anchor: Seq<Seq<char>>,
    excluded: Seq<Seq<char>>,
    signals: Seq<WaveVar>,
    n: nat,
    r: Rule,
)
    requires
        n <= signals.len(),
    ensures
        uses(outcomes(d, top, anchor, excluded, signals, n), r) <= n,
        outcomes(d, top, anchor, excluded, signals, n).len() == n,
    decreases n,
{
    if n > 0 {
        lemma_uses_bound(d, top, anchor, excluded, signals, (n - 1) as nat, r);
        let os = outcomes(d, top, anchor, excluded, signals, n);
        assert(os.drop_last() =~= outcomes(d, top, anchor, excluded, signals, (n - 1) as nat));
        lemma_outcome_rules(d, top, anchor, excluded, signals[n - 1], r);
    }
}

proof fn lemma_samples(os: Seq<OutcomeV>, t: Tally)
    ensures
        forall|k: int|
            #![trigger samples(os, t)[k]]
            0 <= k < samples(os, t).len() ==> 0 <= samples(os, t)[k] < os.len() && tally_of(
                os[samples(os, t)[k]],
            ) == t,
        samples(os, t).len() <= 100,
    decreases os.len(),
{
    if os.len() > 0 {
        lemma_samples(os.drop_last(), t);
        let r = samples(os.drop_last(), t);
        assert forall|k: int| #![trigger samples(os, t)[k]] 0 <= k < samples(os, t).len() implies 0
            <= samples(os, t)[k] < os.len() && tally_of(os[samples(os, t)[k]]) == t by {
            if k < r.len() {
                assert(samples(os, t)[k] == r[k]);
                assert(os.drop_last()[r[k]] == os[r[k]]);
            }
        }
    }
}

/// Matches every signal of a trace and links what matches to the design.
pub fn run_match(design: &mut Design, signals: &[WaveVar], opts: &MatchOptions) -> (r: MatchReport)
    requires
        old(design).wf(),
    ensures
        final(design).wf(),
        final(design).doc == old(design).doc,
        final(design).wave_index@ == links(
            old(design).wave_index@,
            run_outcomes(old(design).doc, signals@, *opts),
            signals@,
        ),
        r.total_signals == signals@.len(),
        r.counts(run_outcomes(old(design).doc, signals@, *opts)),
        r.shows(run_outcomes(old(design).doc, signals@, *opts), signals@),
        r.denominator == r.matched_direct + r.matched_alias + r.unmatched,
        all_chars(r.anchor@) == anchor_used(old(design).doc, signals@, *opts),
{
    let anchor: Vec<String> = match &opts.anchor {
        Some(a) => clone_texts(a.as_slice()),
        None => detect_anchor(design, signals, design.doc.design.as_str()),
    };
    let cfg: NormalizeConfig = NormalizeConfig {
        design_top: design.doc.design.clone(),
        anchor: clone_texts(anchor.as_slice()),
        excluded: clone_texts(opts.excluded_scopes.as_slice()),
    };
    let ghost d = design.doc;
    let ghost index = design.index;
    let ghost av = all_chars(anchor@);
    let ghost xv = all_chars(opts.excluded_scopes@);
    let ghost w0 = design.wave_index@;
    let mut report: MatchReport = MatchReport {
        total_signals: signals.len(),
        denominator: 0,
        matched_direct: 0,
        matched_alias: 0,
        unmatched: 0,
        excluded_scope: 0,
        excluded_parameter: 0,
        mystery: 0,
        anchor,
        rule_counts: RuleCounts {
            anchor_rebase: 0,
            array_element: 0,
            gen_block_flatten: 0,
            interface_alias: 0,
        },
        unmatched_samples: Vec::new(),
        mystery_samples: Vec::new(),
    };
    let mut i: usize = 0;
    while i < signals.len()
        invariant
            i <= signals@.len(),
            design.wf(),
            design.doc == d,
            design.index == index,
            cfg.design_top@ == d.design@,
            all_chars(cfg.anchor@) == av,
            all_chars(cfg.excluded@) == xv,
            all_chars(report.anchor@) == av,
            report.total_signals == signals@.len(),
            report.counts(outcomes(d, d.design@, av, xv, signals@, i as nat)),
            report.shows(outcomes(d, d.design@, av, xv, signals@, i as nat), signals@),
            design.wave_index@ == links(
                w0,
                outcomes(d, d.design@, av, xv, signals@, i as nat),
                signals@,
            ),
        decreases signals@.len() - i,
    {
        let s: &WaveVar = &signals[i];
        let ghost os = outcomes(d, d.design@, av, xv, signals@, i as nat);
        let ghost os2 = outcomes(d, d.design@, av, xv, signals@, (i + 1) as nat);
        let o: Outcome = resolve(design, &cfg, s);
        let ghost ov = o@;
        proof {
            assert(os2 == os.push(ov));
            assert(os2.drop_last() =~= os);
            lemma_uses_bound(d, d.design@, av, xv, signals@, i as nat, Rule::AnchorRebase);
            lemma_tally_sum(os);
            lemma_samples(os, Tally::Unmatched);
            lemma_samples(os, Tally::Mystery);
            lemma_samples(os2, Tally::Unmatched);
            lemma_samples(os2, Tally::Mystery);
            assert forall|r: Rule|
                uses(os, r) <= i && #[trigger] rule_count(trail_of(ov), r, trail_of(ov).len())
                    <= 1 by {
                lemma_uses_bound(d, d.design@, av, xv, signals@, i as nat, r);
                lemma_outcome_rules(d, d.design@, av, xv, *s, r);
            }
        }
        let ghost before = report;
        match o {
            Outcome::Direct { node, trail } => {
                report.matched_direct = report.matched_direct + 1;
                proof {
                    assert forall|r: Rule| #[trigger] report.rule_counts.of(r) + rule_count(
                        trail@,
                        r,
                        trail@.len(),
                    ) <= i + 1 by {
                        assert(before.rule_counts.of(r) == uses(os, r));
                        assert(rule_count(trail_of(ov), r, trail_of(ov).len()) <= 1);
                    }
                }
                record_rules(&mut report.rule_counts, &trail, Ghost(i + 1));
                design.wave_index.insert(node, WaveSignalRef(s.var_ref as u64));
            },
            Outcome::Alias { node, trail } => {
                report.matched_alias = report.matched_alias + 1;
                proof {
                    assert forall|r: Rule| #[trigger] report.rule_counts.of(r) + rule_count(
                        trail@,
                        r,
                        trail@.len(),
                    ) <= i + 1 by {
                        assert(before.rule_counts.of(r) == uses(os, r));
                        assert(rule_count(trail_of(ov), r, trail_of(ov).len()) <= 1);
                    }
                }
                record_rules(&mut report.rule_counts, &trail, Ghost(i + 1));
                design.wave_index.insert(node, WaveSignalRef(s.var_ref as u64));
            },
            Outcome::Parameter => {
                report.excluded_parameter = report.excluded_parameter + 1;
            },
            Outcome::Unmatched { candidate } => {
                report.unmatched = report.unmatched + 1;
                if report.unmatched_samples.len() < 100 {
                    report.unmatched_samples.push(
                        UnmatchedSignal { full_name: s.full_name.clone(), candidate },
                    );
                }
            },
            Outcome::Excluded => {
                report.excluded_scope = report.excluded_scope + 1;
            },
            Outcome::Mystery => {
                report.mystery = report.mystery + 1;
                if report.mystery_samples.len() < 100 {
                    report.mystery_samples.push(s.full_name.clone());
                }
            },
        }
        proof {
            assert forall|r: Rule| #[trigger] report.rule_counts.of(r) == uses(os2, r) by {
                assert(before.rule_counts.of(r) == uses(os, r));
            }
            assert(report.counts(os2));
            let u = samples(os, Tally::Unmatched);
            let u2 = samples(os2, Tally::Unmatched);
            let m = samples(os, Tally::Mystery);
            let m2 = samples(os2, Tally::Mystery);
            assert forall|k: int| 0 <= k < u2.len() implies (
            #[trigger] report.unmatched_samples@[k]).full_name@ == signals@[u2[k]].full_name@
                && OutcomeV::Unmatched { candidate: report.unmatched_samples@[k].candidate@ }
                == os2[u2[k]] by {
                if k < u.len() {
                    assert(u2[k] == u[k]);
                    assert(before.unmatched_samples@[k] == report.unmatched_samples@[k]);
                    assert(os2[u[k]] == os[u[k]]);
                }
            }
            assert forall|k: int| 0 <= k < m2.len() implies (
            #[trigger] report.mystery_samples@[k])@ == signals@[m2[k]].full_name@ by {
                if k < m.len() {
                    assert(m2[k] == m[k]);
                    assert(before.mystery_samples@[k] == report.mystery_samples@[k]);
                }
            }
            assert(report.shows(os2, signals@));
        }
        i += 1;
    }
    proof {
        let os = outcomes(d, d.design@, av, xv, signals@, i as nat);
        lemma_tally_sum(os);
        lemma_uses_bound(d, d.design@, av, xv, signals@, i as nat, Rule::AnchorRebase);
    }
    report.denominator = report.matched() + report.unmatched;
    report
}

} // verus!
