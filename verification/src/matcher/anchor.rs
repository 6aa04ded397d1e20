//! Finding the scope prefix that wraps the design in a trace.

use crate::matcher::normalize::{leads, starts_with_anchor};
use crate::matcher::run::WaveVar;
use crate::model::{at_path, Design, Document};
use crate::paths::{ids_at, lemma_ids_push, PathIndex};
use crate::text::{all_chars, chars_of, clone_texts, owned, segments, split_dots};
use vstd::prelude::*;
use vstd::string::*;

verus! {

broadcast use vstd::string::group_string_axioms;

/// The deepest prefix considered.
pub const MAX_ANCHOR_DEPTH: usize = 6;

/// A prefix written with a dot behind each segment, by which prefixes are told apart.
pub open spec fn prefix_key(p: Seq<Seq<char>>) -> Seq<char>
    decreases p.len(),
{
    if p.len() == 0 {
        Seq::empty()
    } else {
        prefix_key(p.drop_last()) + p.last().push('.')
    }
}

/// Whether no segment holds a dot.
pub open spec fn dotless(p: Seq<Seq<char>>) -> bool {
    forall|i: int, j: int|
        0 <= i < p.len() && 0 <= j < p[i].len() ==> (#[trigger] p[i][j]) != '.'
}

pub(crate) proof fn lemma_segments_extend(s: Seq<char>, t: Seq<char>, q: Seq<Seq<char>>)
    requires
        segments(s) == q.push(Seq::empty()),
        forall|j: int| 0 <= j < t.len() ==> t[j] != '.',
    ensures
        segments(s + t) == q.push(t),
    decreases t.len(),
{
    if t.len() == 0 {
        assert(s + t =~= s);
        assert(t =~= Seq::empty());
    } else {
        let u = t.drop_last();
        lemma_segments_extend(s, u, q);
        assert((s + t).drop_last() =~= s + u);
        assert(q.push(u).drop_last() =~= q);
        assert(u.push(t.last()) =~= t);
    }
}

proof fn lemma_key_segments(p: Seq<Seq<char>>)
    requires
        dotless(p),
    ensures
        segments(prefix_key(p)) == p.push(Seq::empty()),
    decreases p.len(),
{
    if p.len() == 0 {
        assert(p.push(Seq::empty()) =~= seq![Seq::<char>::empty()]);
    } else {
        let q = p.drop_last();
        assert(dotless(q)) by {
            assert forall|i: int, j: int| 0 <= i < q.len() && 0 <= j < q[i].len() implies (
            #[trigger] q[i][j]) != '.' by {
                assert(p[i][j] != '.');
            }
        }
        lemma_key_segments(q);
        let s = prefix_key(q);
        let t = p.last();
        assert forall|j: int| 0 <= j < t.len() implies t[j] != '.' by {
            assert(p[p.len() - 1][j] != '.');
        }
        lemma_segments_extend(s, t, q);
        assert(prefix_key(p) =~= (s + t).push('.'));
        assert((s + t).push('.').drop_last() =~= s + t);
        assert(q.push(t) =~= p);
    }
}

/// The key tells prefixes apart.
pub proof fn lemma_key_injective(p: Seq<Seq<char>>, q: Seq<Seq<char>>)
    requires
        dotless(p),
        dotless(q),
        prefix_key(p) == prefix_key(q),
    ensures
        p == q,
{
    lemma_key_segments(p);
    lemma_key_segments(q);
    assert(p =~= p.push(Seq::empty()).drop_last());
    assert(q =~= q.push(Seq::empty()).drop_last());
}

pub(crate) proof fn lemma_segments_dotless(s: Seq<char>)
    ensures
        dotless(segments(s)),
        segments(s).len() > 0,
    decreases s.len(),
{
    if s.len() > 0 {
        let r = segments(s.drop_last());
        lemma_segments_dotless(s.drop_last());
        assert forall|i: int, j: int|
            0 <= i < segments(s).len() && 0 <= j < segments(s)[i].len() implies (
        #[trigger] segments(s)[i][j]) != '.' by {
            if i < r.len() - 1 {
                assert(segments(s)[i] == r[i]);
                assert(r[i][j] != '.');
            } else if i == r.len() - 1 {
                if j < r[i].len() {
                    assert(r[i][j] != '.');
                }
            }
        }
    }
}

/// How many leading segments of a name are tried as prefixes.
pub open spec fn prefix_depths(segs: Seq<Seq<char>>) -> nat {
    if segs.len() - 1 < MAX_ANCHOR_DEPTH {
        segs.len() as nat
    } else {
        (MAX_ANCHOR_DEPTH + 1) as nat
    }
}

/// A list of prefixes with one more, unless it is there.
pub open spec fn with_prefix(c: Seq<Seq<Seq<char>>>, p: Seq<Seq<char>>) -> Seq<Seq<Seq<char>>> {
    if c.contains(p) {
        c
    } else {
        c.push(p)
    }
}

/// The list with the prefixes of fewer than `n` segments of a name.
pub open spec fn prefixes_of(c: Seq<Seq<Seq<char>>>, segs: Seq<Seq<char>>, n: nat) -> Seq<
    Seq<Seq<char>>,
>
    decreases n,
{
    if n == 0 {
        c
    } else {
        with_prefix(prefixes_of(c, segs, (n - 1) as nat), segs.take(n - 1))
    }
}

/// The prefixes of the first `n` signals, each once, in order of first appearance.
pub open spec fn candidates(signals: Seq<WaveVar>, n: nat) -> Seq<Seq<Seq<char>>>
    decreases n,
{
    if n == 0 {
        Seq::empty()
    } else {
        let segs = segments(signals[n - 1].full_name@);
        prefixes_of(candidates(signals, (n - 1) as nat), segs, prefix_depths(segs))
    }
}

/// Whether a segment stands in brackets.
pub open spec fn bracketed(seg: Seq<char>) -> bool {
    seg.len() > 0 && seg[0] == '[' && seg.last() == ']'
}

/// The path of the first `n` segments under the design top, bracketed ones left out.
pub open spec fn rebased(top: Seq<char>, segs: Seq<Seq<char>>, n: nat) -> Seq<char>
    decreases n,
{
    if n == 0 {
        top
    } else {
        let r = rebased(top, segs, (n - 1) as nat);
        if bracketed(segs[n - 1]) {
            r
        } else {
            r.push('.') + segs[n - 1]
        }
    }
}

/// Whether a signal resolves to a path of the design under a prefix.
pub open spec fn resolves(d: Document, top: Seq<char>, prefix: Seq<Seq<char>>, s: WaveVar) -> bool {
    let segs = segments(s.full_name@);
    let rest = segs.skip(prefix.len() as int);
    &&& !s.is_parameter
    &&& segs.len() > prefix.len()
    &&& leads(segs, prefix)
    &&& at_path(d, rebased(top, rest, rest.len())).len() > 0
}

/// How many of the first `n` signals resolve under a prefix.
pub open spec fn score(
    d: Document,
    top: Seq<char>,
    prefix: Seq<Seq<char>>,
    signals: Seq<WaveVar>,
    n: nat,
) -> nat
    decreases n,
{
    if n == 0 {
        0
    } else {
        score(d, top, prefix, signals, (n - 1) as nat) + if resolves(
            d,
            top,
            prefix,
            signals[n - 1],
        ) {
            1nat
        } else {
            0nat
        }
    }
}

/// The best of the first `n` candidates and its score: more matches win, and of equal
/// ones the longer prefix; a prefix that matches nothing never wins.
pub open spec fn best_of(
    d: Document,
    top: Seq<char>,
    signals: Seq<WaveVar>,
    c: Seq<Seq<Seq<char>>>,
    n: nat,
) -> (Seq<Seq<char>>, nat)
    decreases n,
{
    if n == 0 {
        (Seq::empty(), 0)
    } else {
        let (best, top_score) = best_of(d, top, signals, c, (n - 1) as nat);
        let p = c[n - 1];
        let sc = score(d, top, p, signals, signals.len());
        if sc > 0 && (sc > top_score || (sc == top_score && p.len() > best.len())) {
            (p, sc)
        } else {
            (best, top_score)
        }
    }
}

/// The scope prefix under which most signals resolve.
pub open spec fn detected(d: Document, signals: Seq<WaveVar>, top: Seq<char>) -> Seq<Seq<char>> {
    let c = candidates(signals, signals.len());
    best_of(d, top, signals, c, c.len()).0
}

/// The prefixes collected, with an index over their keys.
struct Prefixes {
    list: Vec<Vec<String>>,
    keys: PathIndex,
}

spec fn prefix_views(l: Seq<Vec<String>>) -> Seq<Seq<Seq<char>>> {
    Seq::new(l.len(), |i: int| all_chars(l[i]@))
}

impl Prefixes {
    spec fn wf(&self) -> bool {
        &&& self.keys.wf()
        &&& forall|i: int|
            0 <= i < prefix_views(self.list@).len() ==> dotless(
                #[trigger] prefix_views(self.list@)[i],
            )
        &&& forall|k: Seq<char>|
            (ids_at(self.keys@, k).len() > 0) <==> exists|i: int|
                0 <= i < prefix_views(self.list@).len() && prefix_key(
                    #[trigger] prefix_views(self.list@)[i],
                ) == k
    }
}

fn key_of(p: &[String]) -> (r: String)
    ensures
        r@ == prefix_key(all_chars(p@)),
{
    let ghost all = all_chars(p@);
    let mut out: String = String::new();
    let mut i: usize = 0;
    proof {
        reveal_strlit(".");
        assert("."@ =~= seq!['.']);
        assert(all.take(0) =~= Seq::empty());
    }
    while i < p.len()
        invariant
            i <= p@.len(),
            all == all_chars(p@),
            "."@ == seq!['.'],
            out@ == prefix_key(all.take(i as int)),
        decreases p@.len() - i,
    {
        proof {
            assert(all.take(i + 1).drop_last() =~= all.take(i as int));
        }
        let ghost before = out@;
        out.append(p[i].as_str());
        out.append(".");
        assert(out@ =~= before + p@[i as int]@.push('.'));
        i += 1;
    }
    assert(all.take(i as int) =~= all);
    out
}

fn add_prefix(c: &mut Prefixes, segs: &Vec<String>, depth: usize)
    requires
        old(c).wf(),
        depth <= segs@.len(),
        dotless(all_chars(segs@)),
    ensures
        final(c).wf(),
        prefix_views(final(c).list@) == with_prefix(
            prefix_views(old(c).list@),
            all_chars(segs@).take(depth as int),
        ),
{
    let mut p: Vec<String> = Vec::new();
    let mut i: usize = 0;
    while i < depth
        invariant
            i <= depth <= segs@.len(),
            p@ == segs@.take(i as int),
        decreases depth - i,
    {
        p.push(segs[i].clone());
        i += 1;
        assert(p@ =~= segs@.take(i as int));
    }
    let ghost pv = all_chars(segs@).take(depth as int);
    let ghost views = prefix_views(c.list@);
    let ghost log = c.keys@;
    proof {
        assert(all_chars(p@) =~= pv);
        assert(dotless(pv)) by {
            assert forall|i: int, j: int| 0 <= i < pv.len() && 0 <= j < pv[i].len() implies (
            #[trigger] pv[i][j]) != '.' by {
                assert(all_chars(segs@)[i][j] != '.');
            }
        }
    }
    let key: String = key_of(p.as_slice());
    let known: bool = c.keys.get(key.as_str()).len() > 0;
    proof {
        assert(known <==> views.contains(pv)) by {
            if known {
                let i = choose|i: int|
                    0 <= i < views.len() && prefix_key(#[trigger] views[i]) == key@;
                lemma_key_injective(views[i], pv);
            }
            if views.contains(pv) {
                let i = choose|i: int| 0 <= i < views.len() && views[i] == pv;
                assert(prefix_key(views[i]) == key@);
            }
        }
    }
    if !known {
        c.keys.insert(key.as_str(), 0);
        c.list.push(p);
        proof {
            let after = prefix_views(c.list@);
            assert(after =~= views.push(pv));
            assert forall|k: Seq<char>|
                (ids_at(c.keys@, k).len() > 0) <==> exists|i: int|
                    0 <= i < after.len() && prefix_key(#[trigger] after[i]) == k by {
                lemma_ids_push(log, key@, 0, k);
                if ids_at(log, k).len() > 0 {
                    let i = choose|i: int|
                        0 <= i < views.len() && prefix_key(#[trigger] views[i]) == k;
                    assert(prefix_key(after[i]) == k);
                }
                if k == key@ {
                    assert(prefix_key(after[views.len() as int]) == k);
                }
                if exists|i: int| 0 <= i < after.len() && prefix_key(#[trigger] after[i]) == k {
                    let i = choose|i: int|
                        0 <= i < after.len() && prefix_key(#[trigger] after[i]) == k;
                    if i < views.len() {
                        assert(prefix_key(views[i]) == k);
                    }
                }
            }
        }
    }
}

fn collect(signals: &[WaveVar]) -> (r: Vec<Vec<String>>)
    ensures
        prefix_views(r@) == candidates(signals@, signals@.len()),
{
    let mut c: Prefixes = Prefixes { list: Vec::new(), keys: PathIndex::new() };
    assert(prefix_views(c.list@) =~= Seq::empty());
    let mut i: usize = 0;
    while i < signals.len()
        invariant
            i <= signals@.len(),
            c.wf(),
            prefix_views(c.list@) == candidates(signals@, i as nat),
        decreases signals@.len() - i,
    {
        let segs: Vec<String> = split_dots(signals[i].full_name.as_str());
        let ghost sv = all_chars(segs@);
        proof {
            lemma_segments_dotless(signals@[i as int].full_name@);
        }
        let ghost c0 = prefix_views(c.list@);
        let n: usize = if segs.len() - 1 < MAX_ANCHOR_DEPTH {
            segs.len()
        } else {
            MAX_ANCHOR_DEPTH + 1
        };
        let mut k: usize = 0;
        while k < n
            invariant
                k <= n <= segs@.len(),
                sv == all_chars(segs@),
                dotless(sv),
                c.wf(),
                prefix_views(c.list@) == prefixes_of(c0, sv, k as nat),
            decreases n - k,
        {
            add_prefix(&mut c, &segs, k);
            k += 1;
        }
        i += 1;
    }
    c.list
}

fn is_bracketed(seg: &str) -> (r: bool)
    ensures
        r == bracketed(seg@),
{
    let cs: Vec<char> = chars_of(seg);
    let n: usize = cs.len();
    n > 0 && cs[0] == '[' && cs[n - 1] == ']'
}

fn signal_resolves(design: &Design, s: &WaveVar, top: &str, prefix: &Vec<String>) -> (r: bool)
    requires
        design.wf(),
    ensures
        r == resolves(design.doc, top@, all_chars(prefix@), *s),
{
    if s.is_parameter {
        return false;
    }
    let segs: Vec<String> = split_dots(s.full_name.as_str());
    let ghost sv = all_chars(segs@);
    let p: usize = prefix.len();
    if segs.len() <= p || !starts_with_anchor(segs.as_slice(), prefix.as_slice()) {
        return false;
    }
    let ghost rest = sv.skip(p as int);
    let mut path: String = owned(top);
    let mut i: usize = p;
    proof {
        reveal_strlit(".");
        assert("."@ =~= seq!['.']);
    }
    while i < segs.len()
        invariant
            p <= i <= segs@.len(),
            sv == all_chars(segs@),
            rest == sv.skip(p as int),
            "."@ == seq!['.'],
            path@ == rebased(top@, rest, (i - p) as nat),
        decreases segs@.len() - i,
    {
        assert(rest[i - p] == segs@[i as int]@);
        let ghost before = path@;
        if !is_bracketed(segs[i].as_str()) {
            path.append(".");
            path.append(segs[i].as_str());
            assert(path@ =~= before.push('.') + segs@[i as int]@);
        }
        i += 1;
    }
    design.nodes_at_path(path.as_str()).len() > 0
}

fn score_prefix(design: &Design, signals: &[WaveVar], top: &str, prefix: &Vec<String>) -> (r: usize)
    requires
        design.wf(),
    ensures
        r == score(design.doc, top@, all_chars(prefix@), signals@, signals@.len()),
{
    let mut hits: usize = 0;
    let mut i: usize = 0;
    while i < signals.len()
        invariant
            i <= signals@.len(),
            hits <= i,
            design.wf(),
            hits == score(design.doc, top@, all_chars(prefix@), signals@, i as nat),
        decreases signals@.len() - i,
    {
        if signal_resolves(design, &signals[i], top, prefix) {
            hits += 1;
        }
        i += 1;
    }
    hits
}

/// The scope prefix of a trace under which most signals resolve to a path of the
/// design; empty where nothing does better.
pub fn detect_anchor(design: &Design, signals: &[WaveVar], design_top: &str) -> (r: Vec<String>)
    requires
        design.wf(),
    ensures
        all_chars(r@) == detected(design.doc, signals@, design_top@),
{
    let list: Vec<Vec<String>> = collect(signals);
    let ghost c = prefix_views(list@);
    let mut best: Vec<String> = Vec::new();
    let mut best_score: usize = 0;
    let mut i: usize = 0;
    assert(all_chars(best@) =~= Seq::empty());
    while i < list.len()
        invariant
            i <= list@.len(),
            design.wf(),
            c == prefix_views(list@),
            (all_chars(best@), best_score as nat) == best_of(
                design.doc,
                design_top@,
                signals@,
                c,
                i as nat,
            ),
        decreases list@.len() - i,
    {
        assert(c[i as int] == all_chars(list@[i as int]@));
        let sc: usize = score_prefix(design, signals, design_top, &list[i]);
        if sc > 0 && (sc > best_score || (sc == best_score && list[i].len() > best.len())) {
            best = clone_texts(list[i].as_slice());
            best_score = sc;
        }
        i += 1;
    }
    best
}

// --- Laws ---------------------------------------------------------------------

proof fn lemma_prefixes_kept(c: Seq<Seq<Seq<char>>>, segs: Seq<Seq<char>>, n: nat, i: int)
    requires
        0 <= i < c.len(),
    ensures
        i < prefixes_of(c, segs, n).len(),
        prefixes_of(c, segs, n)[i] == c[i],
    decreases n,
{
    if n > 0 {
        lemma_prefixes_kept(c, segs, (n - 1) as nat, i);
    }
}

proof fn lemma_prefixes_listed(c: Seq<Seq<Seq<char>>>, segs: Seq<Seq<char>>, n: nat, depth: nat)
    requires
        depth < n,
    ensures
        prefixes_of(c, segs, n).contains(segs.take(depth as int)),
    decreases n,
{
    let r = prefixes_of(c, segs, (n - 1) as nat);
    let p = segs.take(depth as int);
    if depth == n - 1 {
        if !r.contains(p) {
            assert(prefixes_of(c, segs, n).last() == p);
        }
    } else {
        lemma_prefixes_listed(c, segs, (n - 1) as nat, depth);
        let i = choose|i: int| 0 <= i < r.len() && r[i] == p;
        assert(prefixes_of(c, segs, n)[i] == p);
    }
}

proof fn lemma_candidate_listed(signals: Seq<WaveVar>, n: nat, k: int, depth: nat)
    requires
        0 <= k < n <= signals.len(),
        depth < prefix_depths(segments(signals[k].full_name@)),
    ensures
        candidates(signals, n).contains(segments(signals[k].full_name@).take(depth as int)),
    decreases n,
{
    let c = candidates(signals, (n - 1) as nat);
    let segs = segments(signals[n - 1].full_name@);
    let p = segments(signals[k].full_name@).take(depth as int);
    if k == n - 1 {
        lemma_prefixes_listed(c, segs, prefix_depths(segs), depth);
    } else {
        lemma_candidate_listed(signals, (n - 1) as nat, k, depth);
        let i = choose|i: int| 0 <= i < c.len() && c[i] == p;
        lemma_prefixes_kept(c, segs, prefix_depths(segs), i);
        assert(candidates(signals, n)[i] == p);
    }
}

proof fn lemma_best_of(
    d: Document,
    top: Seq<char>,
    signals: Seq<WaveVar>,
    c: Seq<Seq<Seq<char>>>,
    n: nat,
    i: int,
)
    requires
        0 <= i < n <= c.len(),
    ensures
        ({
            let (best, most) = best_of(d, top, signals, c, n);
            let sc = score(d, top, c[i], signals, signals.len());
            &&& sc <= most
            &&& sc == most && sc > 0 ==> c[i].len() <= best.len()
            &&& most > 0 ==> score(d, top, best, signals, signals.len()) == most
        }),
    decreases n,
{
    if i < n - 1 {
        lemma_best_of(d, top, signals, c, (n - 1) as nat, i);
    } else if n > 1 {
        lemma_best_of(d, top, signals, c, (n - 1) as nat, 0);
    } else {
        assert(best_of(d, top, signals, c, 0) == (Seq::<Seq<char>>::empty(), 0nat));
    }
}

/// No scope that a signal lies in, as deep as scopes are tried, makes more signals resolve
/// than the detected one does, and of those that make as many resolve none is deeper.
pub proof fn law_detected_anchor_resolves_most(
    d: Document,
    signals: Seq<WaveVar>,
    top: Seq<char>,
    k: int,
    depth: nat,
)
    requires
        0 <= k < signals.len(),
        depth < segments(signals[k].full_name@).len(),
        depth <= MAX_ANCHOR_DEPTH,
    ensures
        ({
            let p = segments(signals[k].full_name@).take(depth as int);
            let best = detected(d, signals, top);
            let n = signals.len();
            &&& score(d, top, p, signals, n) <= score(d, top, best, signals, n)
            &&& score(d, top, p, signals, n) == score(d, top, best, signals, n) && score(
                d,
                top,
                p,
                signals,
                n,
            ) > 0 ==> p.len() <= best.len()
        }),
{
    let p = segments(signals[k].full_name@).take(depth as int);
    let c = candidates(signals, signals.len());
    lemma_candidate_listed(signals, signals.len(), k, depth);
    let i = choose|i: int| 0 <= i < c.len() && c[i] == p;
    lemma_best_of(d, top, signals, c, c.len(), i);
}

} // verus!
