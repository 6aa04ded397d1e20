//! What the matching of names comes to.

use crate::matcher::anchor::{
    detected, dotless, law_detected_anchor_resolves_most, lemma_segments_dotless,
    lemma_segments_extend, rebased, resolves, score,
};
use crate::matcher::normalize::{array_element, classified, gen_block, kept_segments, leads};
use crate::matcher::run::{
    alias_of, droppable, links, outcome, parameter_path, pick, picked, samples, tally, tally_of, without_segment, OutcomeV, Tally, WaveVar,
};
use crate::model::{at_path, Document, NodeKind, WaveMaps};
use crate::text::{dot_joined, segments};
use vstd::prelude::*;

verus! {

// --- Names --------------------------------------------------------------------

/// Whether a text has no dot.
pub open spec fn plain(t: Seq<char>) -> bool {
    forall|j: int| 0 <= j < t.len() ==> #[trigger] t[j] != '.'
}

/// Whether a text is one or more decimal digits.
pub open spec fn is_digits(t: Seq<char>) -> bool {
    t.len() > 0 && forall|j: int| 0 <= j < t.len() ==> '0' <= #[trigger] t[j] && t[j] <= '9'
}

/// A selector of an array element.
pub open spec fn selector(ds: Seq<char>) -> Seq<char> {
    seq!['['] + ds + seq![']']
}

/// The name of a generate block that was given none.
pub open spec fn numbered_block(ds: Seq<char>) -> Seq<char> {
    seq!['g', 'e', 'n', 'b', 'l', 'k'] + ds
}

/// A name with one more segment.
pub open spec fn below(name: Seq<char>, seg: Seq<char>) -> Seq<char> {
    name.push('.') + seg
}

proof fn lemma_below(name: Seq<char>, seg: Seq<char>)
    requires
        plain(seg),
    ensures
        segments(below(name, seg)) == segments(name).push(seg),
{
    let s = name.push('.');
    assert(s.drop_last() =~= name);
    lemma_segments_extend(s, seg, segments(name));
}

proof fn lemma_parts(s: Seq<char>)
    ensures
        segments(s).len() > 0,
    decreases s.len(),
{
    lemma_segments_dotless(s);
}

proof fn lemma_round(s: Seq<char>)
    ensures
        dot_joined(segments(s)) == s,
    decreases s.len(),
{
    lemma_parts(s);
    if s.len() == 0 {
        assert(dot_joined(segments(s)) =~= s);
    } else {
        let t = s.drop_last();
        lemma_round(t);
        lemma_parts(t);
        let r = segments(t);
        let q = segments(s);
        if s.last() == '.' {
            assert(q.drop_last() =~= r);
            assert(dot_joined(q) =~= s);
        } else {
            assert(q.drop_last() =~= r.drop_last());
            assert(dot_joined(q) =~= dot_joined(r).push(s.last()));
            assert(s =~= t.push(s.last()));
        }
    }
}

/// The segments of a name have no dots, and joined by dots they are the name.
pub proof fn law_segments_make_the_name(s: Seq<char>)
    ensures
        dot_joined(segments(s)) == s,
        segments(s).len() > 0,
        forall|k: int| 0 <= k < segments(s).len() ==> plain(#[trigger] segments(s)[k]),
{
    lemma_round(s);
    lemma_segments_dotless(s);
    let q = segments(s);
    assert forall|k: int| 0 <= k < q.len() implies plain(#[trigger] q[k]) by {
        assert forall|j: int| 0 <= j < q[k].len() implies #[trigger] q[k][j] != '.' by {
        }
    }
}

/// A name and one more segment have the segments of the name and that one.
pub proof fn law_segments_follow_each_other(name: Seq<char>, seg: Seq<char>)
    requires
        plain(seg),
    ensures
        segments(below(name, seg)) == segments(name).push(seg),
{
    lemma_below(name, seg);
}

proof fn lemma_joined(p: Seq<Seq<char>>)
    requires
        p.len() > 0,
        dotless(p),
    ensures
        segments(dot_joined(p)) == p,
    decreases p.len(),
{
    let q = p.drop_last();
    let last = p.last();
    assert(plain(last)) by {
        assert forall|j: int| 0 <= j < last.len() implies #[trigger] last[j] != '.' by {
            assert(p[p.len() - 1][j] != '.');
        }
    }
    if p.len() == 1 {
        let none = Seq::<char>::empty();
        assert(segments(none) =~= Seq::<Seq<char>>::empty().push(none));
        lemma_segments_extend(none, last, Seq::empty());
        assert(none + last =~= p[0]);
        assert(p =~= Seq::<Seq<char>>::empty().push(last));
    } else {
        assert(dotless(q)) by {
            assert forall|i: int, j: int| 0 <= i < q.len() && 0 <= j < q[i].len() implies (
            #[trigger] q[i][j]) != '.' by {
                assert(p[i][j] != '.');
            }
        }
        lemma_joined(q);
        lemma_below(dot_joined(q), last);
        assert(dot_joined(p) =~= below(dot_joined(q), last));
        assert(p =~= q.push(last));
    }
}

// --- Classification -----------------------------------------------------------

proof fn lemma_leads_more(segs: Seq<Seq<char>>, anchor: Seq<Seq<char>>, seg: Seq<char>)
    requires
        leads(segs, anchor),
    ensures
        leads(segs.push(seg), anchor),
        segs.push(seg).skip(anchor.len() as int) == segs.skip(anchor.len() as int).push(seg),
{
    assert(segs.push(seg).take(anchor.len() as int) =~= segs.take(anchor.len() as int));
    assert(segs.push(seg).skip(anchor.len() as int) =~= segs.skip(anchor.len() as int).push(seg));
}

proof fn lemma_kept_same(top: Seq<char>, a: Seq<Seq<char>>, b: Seq<Seq<char>>, n: nat)
    requires
        n <= a.len(),
        n <= b.len(),
        forall|k: int| 0 <= k < n ==> #[trigger] a[k] == b[k],
    ensures
        kept_segments(top, a, n) == kept_segments(top, b, n),
    decreases n,
{
    if n > 0 {
        lemma_kept_same(top, a, b, (n - 1) as nat);
        assert(a[n - 1] == b[n - 1]);
    }
}

proof fn lemma_kept_nonempty(top: Seq<char>, a: Seq<Seq<char>>, n: nat)
    ensures
        kept_segments(top, a, n).0.len() > 0,
    decreases n,
{
    if n > 0 {
        lemma_kept_nonempty(top, a, (n - 1) as nat);
    }
}

/// What one more segment makes of a classification.
proof fn lemma_one_more(
    top: Seq<char>,
    anchor: Seq<Seq<char>>,
    excluded: Seq<Seq<char>>,
    name: Seq<char>,
    seg: Seq<char>,
)
    requires
        plain(seg),
        classified(top, anchor, excluded, name) is InDesign,
    ensures
        ({
            let a = classified(top, anchor, excluded, name);
            let b = classified(top, anchor, excluded, below(name, seg));
            &&& b is InDesign
            &&& b->candidate == if array_element(seg) || gen_block(seg) {
                a->candidate
            } else {
                below(a->candidate, seg)
            }
        }),
{
    lemma_below(name, seg);
    let segs = segments(name);
    let more = segments(below(name, seg));
    lemma_leads_more(segs, anchor, seg);
    let rest = segs.skip(anchor.len() as int);
    let rest2 = rest.push(seg);
    assert(more.skip(anchor.len() as int) == rest2);
    lemma_kept_same(top, rest2, rest, rest.len());
    lemma_kept_nonempty(top, rest, rest.len());
    let out = kept_segments(top, rest, rest.len()).0;
    let out2 = kept_segments(top, rest2, rest2.len()).0;
    assert(rest2[rest2.len() - 1] == seg);
    if !array_element(seg) && !gen_block(seg) {
        assert(out2 == out.push(seg));
        assert(out.push(seg).drop_last() =~= out);
        assert(dot_joined(out2) =~= below(dot_joined(out), seg));
    } else {
        assert(out2 == out);
    }
}

/// Every element of an array has the candidate path of the array.
pub proof fn law_array_elements_are_their_array(
    top: Seq<char>,
    anchor: Seq<Seq<char>>,
    excluded: Seq<Seq<char>>,
    name: Seq<char>,
    ds: Seq<char>,
)
    requires
        classified(top, anchor, excluded, name) is InDesign,
        is_digits(ds),
    ensures
        ({
            let a = classified(top, anchor, excluded, name);
            let b = classified(top, anchor, excluded, below(name, selector(ds)));
            b is InDesign && b->candidate == a->candidate
        }),
{
    let seg = selector(ds);
    assert forall|j: int| 0 <= j < seg.len() implies #[trigger] seg[j] != '.' by {
        if 0 < j < seg.len() - 1 {
            assert(seg[j] == ds[j - 1]);
        }
    }
    assert(array_element(seg)) by {
        assert forall|i: int| 1 <= i < seg.len() - 1 implies '0' <= #[trigger] seg[i] && seg[i]
            <= '9' by {
            assert(seg[i] == ds[i - 1]);
        }
    }
    lemma_one_more(top, anchor, excluded, name, seg);
}

/// A generate block that was given no name leaves no trace in the candidate path.
pub proof fn law_numbered_blocks_are_left_out(
    top: Seq<char>,
    anchor: Seq<Seq<char>>,
    excluded: Seq<Seq<char>>,
    name: Seq<char>,
    ds: Seq<char>,
)
    requires
        classified(top, anchor, excluded, name) is InDesign,
        is_digits(ds),
    ensures
        ({
            let a = classified(top, anchor, excluded, name);
            let b = classified(top, anchor, excluded, below(name, numbered_block(ds)));
            b is InDesign && b->candidate == a->candidate
        }),
{
    let seg = numbered_block(ds);
    assert forall|j: int| 0 <= j < seg.len() implies #[trigger] seg[j] != '.' by {
        if j >= 6 {
            assert(seg[j] == ds[j - 6]);
        }
    }
    assert(gen_block(seg)) by {
        assert(seg.subrange(0, 6) =~= seq!['g', 'e', 'n', 'b', 'l', 'k']);
        assert forall|i: int| 6 <= i < seg.len() implies '0' <= #[trigger] seg[i] && seg[i]
            <= '9' by {
            assert(seg[i] == ds[i - 6]);
        }
    }
    lemma_one_more(top, anchor, excluded, name, seg);
}

/// Any other segment is kept, behind those before it.
pub proof fn law_other_segments_are_kept(
    top: Seq<char>,
    anchor: Seq<Seq<char>>,
    excluded: Seq<Seq<char>>,
    name: Seq<char>,
    seg: Seq<char>,
)
    requires
        classified(top, anchor, excluded, name) is InDesign,
        plain(seg),
        forall|ds: Seq<char>| #[trigger]
            is_digits(ds) ==> seg != selector(ds) && seg != numbered_block(ds),
    ensures
        ({
            let a = classified(top, anchor, excluded, name);
            let b = classified(top, anchor, excluded, below(name, seg));
            b is InDesign && b->candidate == below(a->candidate, seg)
        }),
{
    if array_element(seg) {
        let ds = seg.subrange(1, seg.len() - 1);
        assert forall|j: int| 0 <= j < ds.len() implies '0' <= #[trigger] ds[j] && ds[j] <= '9' by {
            assert(ds[j] == seg[j + 1]);
        }
        assert(is_digits(ds));
        assert(seg =~= selector(ds));
    }
    if gen_block(seg) {
        let ds = seg.subrange(6, seg.len() as int);
        assert forall|j: int| 0 <= j < ds.len() implies '0' <= #[trigger] ds[j] && ds[j] <= '9' by {
            assert(ds[j] == seg[j + 6]);
        }
        assert(is_digits(ds));
        assert(seg.subrange(0, 6) == seq!['g', 'e', 'n', 'b', 'l', 'k']);
        assert(seg =~= seg.subrange(0, 6) + ds);
        assert(seg =~= numbered_block(ds));
    }
    lemma_one_more(top, anchor, excluded, name, seg);
}

/// The scope that wraps the design stands for its top.
pub proof fn law_the_anchor_stands_for_the_top(
    top: Seq<char>,
    anchor: Seq<Seq<char>>,
    excluded: Seq<Seq<char>>,
)
    requires
        anchor.len() > 0,
        dotless(anchor),
    ensures
        ({
            let c = classified(top, anchor, excluded, dot_joined(anchor));
            c is InDesign && c->candidate == top
        }),
{
    lemma_joined(anchor);
    let segs = segments(dot_joined(anchor));
    assert(segs.take(anchor.len() as int) =~= anchor);
    assert(segs.skip(anchor.len() as int) =~= Seq::empty());
    assert(kept_segments(top, segs.skip(anchor.len() as int), 0).0 =~= seq![top]);
}

/// A signal is in the design exactly where its name begins with the segments of the anchor;
/// any other is excluded exactly where one of its segments is listed.
pub proof fn law_signals_are_told_apart(
    top: Seq<char>,
    anchor: Seq<Seq<char>>,
    excluded: Seq<Seq<char>>,
    name: Seq<char>,
)
    ensures
        ({
            let segs = segments(name);
            let inside = anchor.len() <= segs.len() && forall|k: int|
                0 <= k < anchor.len() ==> #[trigger] anchor[k] == segs[k];
            let listed = exists|k: int|
                0 <= k < segs.len() && excluded.contains(#[trigger] segs[k]);
            let c = classified(top, anchor, excluded, name);
            &&& c is InDesign <==> inside
            &&& c is Excluded <==> !inside && listed
            &&& c is OutOfDesign <==> !inside && !listed
        }),
{
    let segs = segments(name);
    if anchor.len() <= segs.len() {
        let head = segs.take(anchor.len() as int);
        if forall|k: int| 0 <= k < anchor.len() ==> #[trigger] anchor[k] == segs[k] {
            assert(head =~= anchor);
        }
        if head == anchor {
            assert forall|k: int| 0 <= k < anchor.len() implies #[trigger] anchor[k] == segs[k] by {
                assert(head[k] == segs[k]);
            }
        }
    }
}

// --- Matches ------------------------------------------------------------------

/// Whether a node is there and has a kind.
pub open spec fn is_a(d: Document, id: u32, kind: NodeKind) -> bool {
    id < d.nodes@.len() && d.nodes@[id as int].kind == kind
}

/// Whether a node at a path is a variable, a net or a port.
pub open spec fn signal_here(d: Document, path: Seq<char>, x: u32) -> bool {
    at_path(d, path).contains(x) && (is_a(d, x, NodeKind::Var) || is_a(d, x, NodeKind::Net)
        || is_a(d, x, NodeKind::Port))
}

/// Whether a node at a path has a kind.
pub open spec fn kind_here(d: Document, path: Seq<char>, kind: NodeKind) -> bool {
    exists|x: u32| #[trigger] at_path(d, path).contains(x) && is_a(d, x, kind)
}

/// Whether a node is the one that a path stands for: a variable, or else a net, or else a
/// port.
pub open spec fn stands_for(d: Document, path: Seq<char>, x: u32) -> bool {
    &&& at_path(d, path).contains(x)
    &&& is_a(d, x, NodeKind::Var) || (is_a(d, x, NodeKind::Net) && !kind_here(
        d,
        path,
        NodeKind::Var,
    )) || (is_a(d, x, NodeKind::Port) && !kind_here(d, path, NodeKind::Var) && !kind_here(
        d,
        path,
        NodeKind::Net,
    ))
}

spec fn best(d: Document, at: Seq<u32>, n: nat, x: u32) -> bool {
    let s = at.take(n as int);
    &&& s.contains(x)
    &&& is_a(d, x, NodeKind::Var) || is_a(d, x, NodeKind::Net) || is_a(d, x, NodeKind::Port)
    &&& forall|y: u32| #[trigger]
        s.contains(y) ==> (is_a(d, y, NodeKind::Var) ==> is_a(d, x, NodeKind::Var)) && (is_a(
            d,
            y,
            NodeKind::Net,
        ) ==> is_a(d, x, NodeKind::Var) || is_a(d, x, NodeKind::Net))
}

proof fn lemma_pick(d: Document, at: Seq<u32>, n: nat)
    requires
        n <= at.len(),
    ensures
        match pick(d, at, n) {
            Some(x) => best(d, at, n, x),
            None => forall|y: u32| #[trigger]
                at.take(n as int).contains(y) ==> !is_a(d, y, NodeKind::Var) && !is_a(
                    d,
                    y,
                    NodeKind::Net,
                ) && !is_a(d, y, NodeKind::Port),
        },
    decreases n,
{
    if n == 0 {
        assert(at.take(0) =~= Seq::empty());
    } else {
        lemma_pick(d, at, (n - 1) as nat);
        crate::order::lemma_take_contains(at, n - 1);
        let s = at.take(n as int);
        match pick(d, at, n) {
            Some(x) => {
                assert(s.contains(x));
                assert forall|y: u32| #[trigger] s.contains(y) implies (is_a(d, y, NodeKind::Var)
                    ==> is_a(d, x, NodeKind::Var)) && (is_a(d, y, NodeKind::Net) ==> is_a(
                    d,
                    x,
                    NodeKind::Var,
                ) || is_a(d, x, NodeKind::Net)) by {
                    assert(at.take(n - 1).contains(y) || y == at[n - 1]);
                }
            },
            None => {
                assert forall|y: u32| #[trigger] s.contains(y) implies !is_a(d, y, NodeKind::Var)
                    && !is_a(d, y, NodeKind::Net) && !is_a(d, y, NodeKind::Port) by {
                    assert(at.take(n - 1).contains(y) || y == at[n - 1]);
                }
            },
        }
    }
}

/// A path stands for the variable at it, or else for the net, or else for the port; it stands
/// for nothing exactly where it has none of them.
pub proof fn law_paths_stand_for_signals(d: Document, path: Seq<char>)
    ensures
        match picked(d, path) {
            Some(x) => stands_for(d, path, x),
            None => forall|x: u32| !#[trigger] signal_here(d, path, x),
        },
{
    let at = at_path(d, path);
    lemma_pick(d, at, at.len());
    assert(at.take(at.len() as int) =~= at);
    match picked(d, path) {
        Some(x) => {
            if kind_here(d, path, NodeKind::Var) {
                let y = choose|y: u32| #[trigger] at.contains(y) && is_a(d, y, NodeKind::Var);
                assert(at.take(at.len() as int).contains(y));
            }
            if kind_here(d, path, NodeKind::Net) {
                let y = choose|y: u32| #[trigger] at.contains(y) && is_a(d, y, NodeKind::Net);
                assert(at.take(at.len() as int).contains(y));
            }
        },
        None => {},
    }
}

/// Whether a path is another with one segment dropped that is neither its first nor its last.
pub open spec fn drops_one(candidate: Seq<char>, k: int, path: Seq<char>) -> bool {
    let segs = segments(candidate);
    0 < k < segs.len() - 1 && path == dot_joined(segs.take(k) + segs.skip(k + 1))
}

/// Whether a path of the design is left when segment `k` is dropped.
pub open spec fn drop_resolves(d: Document, candidate: Seq<char>, k: int) -> bool {
    let segs = segments(candidate);
    0 < k < segs.len() - 1 && at_path(d, dot_joined(segs.take(k) + segs.skip(k + 1))).len() > 0
}

proof fn lemma_droppable(d: Document, segs: Seq<Seq<char>>, n: int)
    ensures
        forall|k: int|
            droppable(d, segs, n).contains(k) <==> 0 < k < n && at_path(
                d,
                #[trigger] without_segment(segs, k),
            ).len() > 0,
        droppable(d, segs, n).no_duplicates(),
    decreases n,
{
    if n > 1 {
        lemma_droppable(d, segs, n - 1);
        let r = droppable(d, segs, n - 1);
        let s = droppable(d, segs, n);
        assert forall|k: int|
            s.contains(k) <==> 0 < k < n && at_path(d, #[trigger] without_segment(segs, k)).len()
                > 0 by {
            assert(r.contains(k) <==> 0 < k < n - 1 && at_path(d, without_segment(segs, k)).len()
                > 0);
            if s != r {
                if r.contains(k) {
                    let m = choose|m: int| 0 <= m < r.len() && r[m] == k;
                    assert(s[m] == k);
                }
                if k == n - 1 {
                    assert(s[r.len() as int] == k);
                }
                if s.contains(k) && k != n - 1 {
                    let m = choose|m: int| 0 <= m < s.len() && s[m] == k;
                    assert(r[m] == k);
                }
            }
        }
        if s != r {
            assert(!r.contains(n - 1)) by {
                assert(r.contains(n - 1) <==> 0 < n - 1 < n - 1 && at_path(
                    d,
                    without_segment(segs, n - 1),
                ).len() > 0);
            }
        }
    }
}

/// A view through an interface port stands for the path without the port: where exactly one
/// inner segment can be dropped so that a path of the design is left, that path, and nothing
/// where none or several can.
pub proof fn law_views_stand_for_one_path(d: Document, candidate: Seq<char>)
    ensures
        match alias_of(d, candidate) {
            Some(p) => exists|k: int| #[trigger]
                drop_resolves(d, candidate, k) && drops_one(candidate, k, p) && forall|j: int|
                    #[trigger] drop_resolves(d, candidate, j) ==> j == k,
            None => forall|k: int| #[trigger]
                drop_resolves(d, candidate, k) ==> exists|j: int|
                    j != k && #[trigger] drop_resolves(d, candidate, j),
        },
{
    let segs = segments(candidate);
    let drops = droppable(d, segs, segs.len() - 1);
    lemma_droppable(d, segs, segs.len() - 1);
    assert forall|k: int| drops.contains(k) <==> #[trigger] drop_resolves(d, candidate, k) by {
        assert(drops.contains(k) <==> 0 < k < segs.len() - 1 && at_path(
            d,
            without_segment(segs, k),
        ).len() > 0);
    }
    match alias_of(d, candidate) {
        Some(p) => {
            let k = drops[0];
            assert(drops.contains(k));
            assert(drop_resolves(d, candidate, k));
            assert forall|j: int| #[trigger] drop_resolves(d, candidate, j) implies j == k by {
                assert(drops.contains(j));
            }
        },
        None => {
            assert forall|k: int| #[trigger] drop_resolves(d, candidate, k) implies exists|j: int|
                j != k && #[trigger] drop_resolves(d, candidate, j) by {
                assert(drops.contains(k));
                assert(drops.len() > 1);
                let j = if drops[0] == k {
                    drops[1]
                } else {
                    drops[0]
                };
                assert(drops.contains(j));
                assert(j != k);
                assert(drop_resolves(d, candidate, j));
            }
        },
    }
}

/// Whether all nodes at a path are parameters, and there is one.
pub open spec fn only_parameters(d: Document, path: Seq<char>) -> bool {
    at_path(d, path).len() > 0 && forall|x: u32| #[trigger]
        at_path(d, path).contains(x) ==> is_a(d, x, NodeKind::Param)
}

proof fn lemma_parameters(d: Document, path: Seq<char>)
    ensures
        parameter_path(d, path) <==> only_parameters(d, path),
{
    let at = at_path(d, path);
    if parameter_path(d, path) {
        assert forall|x: u32| #[trigger] at.contains(x) implies is_a(d, x, NodeKind::Param) by {
            let i = choose|i: int| 0 <= i < at.len() && at[i] == x;
            assert(crate::model::kind_at(d, at[i]) == Some(NodeKind::Param));
        }
    }
    if only_parameters(d, path) {
        assert forall|i: int| 0 <= i < at.len() implies crate::model::kind_at(
            d,
            #[trigger] at[i],
        ) == Some(NodeKind::Param) by {
            assert(at.contains(at[i]));
        }
    }
}

/// What comes of a signal in the design: the signal at its path; where there is none, the
/// signal that a view at its path stands for; where there is none either, it is a parameter
/// if the trace or the design says so, and a miss if not.
pub proof fn law_signals_in_the_design_are_matched(
    d: Document,
    top: Seq<char>,
    anchor: Seq<Seq<char>>,
    excluded: Seq<Seq<char>>,
    s: WaveVar,
)
    requires
        classified(top, anchor, excluded, s.full_name@) is InDesign,
    ensures
        ({
            let path = classified(top, anchor, excluded, s.full_name@)->candidate;
            let alias = alias_of(d, path);
            match outcome(d, top, anchor, excluded, s) {
                OutcomeV::Direct { node, .. } => stands_for(d, path, node),
                OutcomeV::Alias { node, .. } => (forall|x: u32| !#[trigger] signal_here(d, path, x))
                    && alias is Some && stands_for(d, alias->0, node),
                OutcomeV::Parameter => (forall|x: u32| !#[trigger] signal_here(d, path, x)) && (
                alias is Some ==> forall|x: u32| !#[trigger] signal_here(d, alias->0, x)) && (
                s.is_parameter || only_parameters(d, path) || (alias is Some && only_parameters(
                    d,
                    alias->0,
                ))),
                OutcomeV::Unmatched { candidate } => candidate == path && (forall|x: u32|
                    !#[trigger] signal_here(d, path, x)) && (alias is Some ==> forall|x: u32|
                    !#[trigger] signal_here(d, alias->0, x)) && !s.is_parameter && !only_parameters(
                    d,
                    path,
                ) && !(alias is Some && only_parameters(d, alias->0)),
                _ => false,
            }
        }),
{
    let path = classified(top, anchor, excluded, s.full_name@)->candidate;
    law_paths_stand_for_signals(d, path);
    lemma_parameters(d, path);
    match alias_of(d, path) {
        Some(p) => {
            law_paths_stand_for_signals(d, p);
            lemma_parameters(d, p);
        },
        None => {},
    }
}

/// A signal outside the design is counted as excluded or as a mystery, never as a match.
pub proof fn law_signals_outside_are_no_matches(
    d: Document,
    top: Seq<char>,
    anchor: Seq<Seq<char>>,
    excluded: Seq<Seq<char>>,
    s: WaveVar,
)
    ensures
        outcome(d, top, anchor, excluded, s) is Excluded <==> classified(
            top,
            anchor,
            excluded,
            s.full_name@,
        ) is Excluded,
        outcome(d, top, anchor, excluded, s) is Mystery <==> classified(
            top,
            anchor,
            excluded,
            s.full_name@,
        ) is OutOfDesign,
{
}

/// All elements of an array match what the array matches.
pub proof fn law_array_elements_match_alike(
    d: Document,
    top: Seq<char>,
    anchor: Seq<Seq<char>>,
    excluded: Seq<Seq<char>>,
    s: WaveVar,
    t: WaveVar,
    ds: Seq<char>,
)
    requires
        classified(top, anchor, excluded, s.full_name@) is InDesign,
        is_digits(ds),
        t.full_name@ == below(s.full_name@, selector(ds)),
        t.is_parameter == s.is_parameter,
    ensures
        match (
            outcome(d, top, anchor, excluded, s),
            outcome(d, top, anchor, excluded, t),
        ) {
            (OutcomeV::Direct { node: a, .. }, OutcomeV::Direct { node: b, .. }) => a == b,
            (OutcomeV::Alias { node: a, .. }, OutcomeV::Alias { node: b, .. }) => a == b,
            (OutcomeV::Parameter, OutcomeV::Parameter) => true,
            (OutcomeV::Unmatched { candidate: a }, OutcomeV::Unmatched { candidate: b }) => a == b,
            _ => false,
        },
{
    law_array_elements_are_their_array(top, anchor, excluded, s.full_name@, ds);
}

// --- Counts and links ---------------------------------------------------------

/// One more signal is counted under what came of it, and under nothing else.
pub proof fn law_each_signal_adds_to_one_count(os: Seq<OutcomeV>, o: OutcomeV)
    ensures
        tally(os.push(o), Tally::Direct) == tally(os, Tally::Direct) + if o is Direct {
            1nat
        } else {
            0nat
        },
        tally(os.push(o), Tally::Alias) == tally(os, Tally::Alias) + if o is Alias {
            1nat
        } else {
            0nat
        },
        tally(os.push(o), Tally::Parameter) == tally(os, Tally::Parameter) + if o is Parameter {
            1nat
        } else {
            0nat
        },
        tally(os.push(o), Tally::Unmatched) == tally(os, Tally::Unmatched) + if o is Unmatched {
            1nat
        } else {
            0nat
        },
        tally(os.push(o), Tally::Excluded) == tally(os, Tally::Excluded) + if o is Excluded {
            1nat
        } else {
            0nat
        },
        tally(os.push(o), Tally::Mystery) == tally(os, Tally::Mystery) + if o is Mystery {
            1nat
        } else {
            0nat
        },
        tally(Seq::empty(), Tally::Direct) == 0,
        tally(Seq::empty(), Tally::Alias) == 0,
        tally(Seq::empty(), Tally::Parameter) == 0,
        tally(Seq::empty(), Tally::Unmatched) == 0,
        tally(Seq::empty(), Tally::Excluded) == 0,
        tally(Seq::empty(), Tally::Mystery) == 0,
{
    assert(os.push(o).drop_last() =~= os);
}

/// A signal that matches is linked to its node, until the node or the signal is linked again.
pub proof fn law_matches_are_linked(w: WaveMaps, os: Seq<OutcomeV>, signals: Seq<WaveVar>)
    requires
        os.len() > 0,
        os.len() <= signals.len(),
    ensures
        ({
            let r = links(w, os, signals);
            let before = links(w, os.drop_last(), signals);
            let v = signals[os.len() - 1].var_ref as u64;
            match os.last() {
                OutcomeV::Direct { node, .. } => r.by_node.contains_key(node) && r.by_node[node]
                    == v && r.by_signal.contains_key(v) && r.by_signal[v] == node,
                OutcomeV::Alias { node, .. } => r.by_node.contains_key(node) && r.by_node[node]
                    == v && r.by_signal.contains_key(v) && r.by_signal[v] == node,
                _ => r == before,
            }
        }),
        forall|node: u32|
            (os.last() is Direct ==> os.last()->Direct_node != node) && (os.last() is Alias
                ==> os.last()->Alias_node != node) && links(
                w,
                os.drop_last(),
                signals,
            ).bijective() && #[trigger] links(w, os.drop_last(), signals).by_node.contains_key(node)
                && links(w, os.drop_last(), signals).by_node[node] != signals[os.len()
                - 1].var_ref as u64 ==> links(w, os, signals).by_node.contains_key(node) && links(
                w,
                os,
                signals,
            ).by_node[node] == links(w, os.drop_last(), signals).by_node[node],
{
}

// --- The anchor ---------------------------------------------------------------

/// Whether a text has no bracket that opens.
pub open spec fn unselected(t: Seq<char>) -> bool {
    forall|j: int| 0 <= j < t.len() ==> #[trigger] t[j] != '['
}

proof fn lemma_concat(a: Seq<char>, b: Seq<char>)
    ensures
        segments(below(a, b)) == segments(a) + segments(b),
    decreases b.len(),
{
    lemma_parts(a);
    lemma_parts(b);
    let s = a.push('.');
    if b.len() == 0 {
        assert(s + b =~= s);
        assert(s.drop_last() =~= a);
        assert(segments(b) =~= seq![Seq::<char>::empty()]);
        assert(segments(s) =~= segments(a) + segments(b));
    } else {
        let c = b.drop_last();
        lemma_concat(a, c);
        lemma_parts(c);
        let t = s + b;
        assert(t.drop_last() =~= s + c);
        assert(t.last() == b.last());
        let r = segments(a) + segments(c);
        if b.last() == '.' {
            assert(r.push(Seq::empty()) =~= segments(a) + segments(b));
        } else {
            assert(r.last() == segments(c).last());
            assert(r.drop_last().push(r.last().push(b.last())) =~= segments(a) + segments(b));
        }
    }
}

proof fn lemma_segment_chars(s: Seq<char>, k: int, j: int)
    requires
        0 <= k < segments(s).len(),
        0 <= j < segments(s)[k].len(),
    ensures
        s.contains(segments(s)[k][j]),
    decreases s.len(),
{
    let t = s.drop_last();
    if s.len() > 0 {
        lemma_parts(t);
        let r = segments(t);
        let q = segments(s);
        if s.last() == '.' {
            if k < r.len() {
                lemma_segment_chars(t, k, j);
                let m = choose|m: int| 0 <= m < t.len() && t[m] == r[k][j];
                assert(s[m] == q[k][j]);
            }
        } else if k == r.len() - 1 && j == r.last().len() {
            assert(q[k][j] == s.last());
            assert(s[s.len() - 1] == q[k][j]);
        } else {
            assert(q[k][j] == r[k][j]);
            lemma_segment_chars(t, k, j);
            let m = choose|m: int| 0 <= m < t.len() && t[m] == r[k][j];
            assert(s[m] == q[k][j]);
        }
    }
}

proof fn lemma_rebased(top: Seq<char>, segs: Seq<Seq<char>>, n: nat)
    requires
        0 < n <= segs.len(),
        forall|k: int| 0 <= k < n ==> unselected(#[trigger] segs[k]),
    ensures
        rebased(top, segs, n) == below(top, dot_joined(segs.take(n as int))),
    decreases n,
{
    assert(unselected(segs[n - 1]));
    let head = segs.take(n as int);
    assert(head.drop_last() =~= segs.take(n - 1));
    if n == 1 {
        assert(rebased(top, segs, 0) == top);
        assert(head[0] == segs[0]);
        assert(rebased(top, segs, n) =~= below(top, dot_joined(head)));
    } else {
        lemma_rebased(top, segs, (n - 1) as nat);
        assert(rebased(top, segs, n) =~= below(top, dot_joined(head)));
    }
}

/// A scope makes a signal below it resolve exactly where the rest of the signal's name is a
/// path below the design's top, and the signal is no parameter.
pub proof fn law_anchors_make_signals_resolve(
    d: Document,
    top: Seq<char>,
    anchor: Seq<Seq<char>>,
    rest: Seq<char>,
    s: WaveVar,
)
    requires
        anchor.len() > 0,
        dotless(anchor),
        unselected(rest),
        s.full_name@ == below(dot_joined(anchor), rest),
    ensures
        resolves(d, top, anchor, s) <==> !s.is_parameter && at_path(d, below(top, rest)).len() > 0,
{
    lemma_joined(anchor);
    lemma_concat(dot_joined(anchor), rest);
    let segs = segments(s.full_name@);
    let tail = segments(rest);
    lemma_parts(rest);
    assert(segs.take(anchor.len() as int) =~= anchor);
    assert(segs.skip(anchor.len() as int) =~= tail);
    assert forall|k: int| 0 <= k < tail.len() implies unselected(#[trigger] tail[k]) by {
        assert forall|j: int| 0 <= j < tail[k].len() implies #[trigger] tail[k][j] != '[' by {
            lemma_segment_chars(rest, k, j);
            let m = choose|m: int| 0 <= m < rest.len() && rest[m] == tail[k][j];
        }
    }
    lemma_rebased(top, tail, tail.len());
    assert(tail.take(tail.len() as int) =~= tail);
    lemma_round(rest);
}

/// Where one scope makes a signal below it resolve, the detected scope makes at least one
/// resolve, however the other scopes do; a scope is tried down to six segments.
pub proof fn law_a_scope_that_resolves_is_detected(
    d: Document,
    top: Seq<char>,
    signals: Seq<WaveVar>,
    k: int,
    depth: nat,
)
    requires
        0 <= k < signals.len(),
        depth <= 6,
        depth < segments(signals[k].full_name@).len(),
        resolves(d, top, segments(signals[k].full_name@).take(depth as int), signals[k]),
    ensures
        exists|j: int|
            0 <= j < signals.len() && resolves(
                d,
                top,
                detected(d, signals, top),
                #[trigger] signals[j],
            ),
{
    let p = segments(signals[k].full_name@).take(depth as int);
    law_detected_anchor_resolves_most(d, signals, top, k, depth);
    lemma_scores(d, top, p, signals, signals.len(), k);
    lemma_scored(d, top, detected(d, signals, top), signals, signals.len());
}

proof fn lemma_scores(
    d: Document,
    top: Seq<char>,
    p: Seq<Seq<char>>,
    signals: Seq<WaveVar>,
    n: nat,
    k: int,
)
    requires
        0 <= k < n <= signals.len(),
        resolves(d, top, p, signals[k]),
    ensures
        score(d, top, p, signals, n) > 0,
    decreases n,
{
    if k < n - 1 {
        lemma_scores(d, top, p, signals, (n - 1) as nat, k);
    }
}

proof fn lemma_scored(
    d: Document,
    top: Seq<char>,
    p: Seq<Seq<char>>,
    signals: Seq<WaveVar>,
    n: nat,
)
    requires
        n <= signals.len(),
        score(d, top, p, signals, n) > 0,
    ensures
        exists|j: int| 0 <= j < n && resolves(d, top, p, #[trigger] signals[j]),
    decreases n,
{
    if resolves(d, top, p, signals[n - 1]) {
        assert(resolves(d, top, p, signals[n - 1]));
    } else {
        lemma_scored(d, top, p, signals, (n - 1) as nat);
        let j = choose|j: int| 0 <= j < n - 1 && resolves(d, top, p, #[trigger] signals[j]);
        assert(resolves(d, top, p, signals[j]));
    }
}

proof fn lemma_samples(os: Seq<OutcomeV>, t: Tally)
    ensures
        ({
            let r = samples(os, t);
            &&& r.len() <= 100
            &&& forall|k: int|
                0 <= k < r.len() ==> 0 <= #[trigger] r[k] < os.len() && tally_of(os[r[k]]) == t
            &&& forall|i: int|
                0 <= i < os.len() && tally_of(#[trigger] os[i]) == t ==> r.contains(i) || r.len()
                    == 100
        }),
    decreases os.len(),
{
    if os.len() > 0 {
        let init = os.drop_last();
        lemma_samples(init, t);
        let q = samples(init, t);
        let r = samples(os, t);
        assert forall|k: int| 0 <= k < r.len() implies 0 <= #[trigger] r[k] < os.len() && tally_of(
            os[r[k]],
        ) == t by {
            if k < q.len() {
                assert(r[k] == q[k]);
                assert(os[q[k]] == init[q[k]]);
            }
        }
        assert forall|i: int| 0 <= i < os.len() && tally_of(#[trigger] os[i]) == t implies r.contains(
            i,
        ) || r.len() == 100 by {
            if i < init.len() {
                assert(init[i] == os[i]);
                if q.contains(i) {
                    let k = choose|k: int| 0 <= k < q.len() && q[k] == i;
                    assert(r[k] == i);
                }
            } else if q.len() < 100 {
                assert(r[q.len() as int] == i);
            }
        }
    }
}

/// The misses that a report shows are misses, a hundred at most, and all of them where there
/// are fewer.
pub proof fn law_misses_are_shown(os: Seq<OutcomeV>, t: Tally, i: int)
    ensures
        samples(os, t).len() <= 100,
        samples(os, t).contains(i) ==> 0 <= i < os.len() && tally_of(os[i]) == t,
        0 <= i < os.len() && tally_of(os[i]) == t && samples(os, t).len() < 100 ==> samples(
            os,
            t,
        ).contains(i),
{
    lemma_samples(os, t);
    if samples(os, t).contains(i) {
        let k = choose|k: int| 0 <= k < samples(os, t).len() && samples(os, t)[k] == i;
        assert(samples(os, t)[k] == i);
    }
}

} // verus!
