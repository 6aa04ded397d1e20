//! Intervals over source offsets, per file, and what overlaps a query.

use crate::groups::{keys_in, under, Groups};
use crate::order::lemma_ascending;
use rust_lapper::{Interval, Lapper};
use std::collections::HashMap;
use vstd::prelude::*;

verus! {

broadcast use vstd::std_specs::hash::group_hash_axioms;

/// A half-open interval and the value it carries: `(start, stop, value)`.
pub type Span = (u64, u64, u64);

/// Whether `a` comes no later than `b`, by start and then by stop.
pub open spec fn no_later(a: Span, b: Span) -> bool {
    a.0 < b.0 || (a.0 == b.0 && a.1 <= b.1)
}

/// `q` with `x` behind every element that comes no later than it.
pub open spec fn placed(q: Seq<Span>, x: Span) -> Seq<Span>
    decreases q.len(),
{
    if q.len() == 0 || no_later(q.last(), x) {
        q.push(x)
    } else {
        placed(q.drop_last(), x).push(q.last())
    }
}

/// The spans by start and then by stop; equal ones keep their order.
pub open spec fn in_order(s: Seq<Span>) -> Seq<Span>
    decreases s.len(),
{
    if s.len() == 0 {
        s
    } else {
        placed(in_order(s.drop_last()), s.last())
    }
}

/// The values of the spans that overlap `[start, stop)`, in sequence.
pub open spec fn hits(s: Seq<Span>, start: u64, stop: u64) -> Seq<u64>
    decreases s.len(),
{
    if s.len() == 0 {
        Seq::empty()
    } else {
        let r = hits(s.drop_last(), start, stop);
        if s.last().0 < stop && s.last().1 > start {
            r.push(s.last().2)
        } else {
            r
        }
    }
}

/// An interval tree over the spans of one file.
#[verifier::external_body]
pub struct SpanTree {
    inner: Lapper<u64, u64>,
}

/// The spans that a tree holds, in the order in which a query walks them.
pub uninterp spec fn spans_of(t: SpanTree) -> Seq<Span>;

impl SpanTree {
    /// `rust_lapper::Lapper::new`: it keeps the given intervals, sorted by start and
    /// then by stop with a stable sort.
    #[verifier::external_body]
    fn new(spans: Vec<Span>) -> (r: SpanTree)
        ensures
            spans_of(r) == in_order(spans@),
    {
        let ivs: Vec<Interval<u64, u64>> = spans.into_iter().map(
            |s| Interval { start: s.0, stop: s.1, val: s.2 },
        ).collect();
        SpanTree { inner: Lapper::new(ivs) }
    }

    /// `rust_lapper::Lapper::find`: it walks the intervals in their order and yields
    /// each one whose start is below `stop` and whose stop is above `start`.
    #[verifier::external_body]
    fn find(&self, start: u64, stop: u64) -> (r: Vec<u64>)
        ensures
            r@ == hits(spans_of(*self), start, stop),
    {
        self.inner.find(start, stop).map(|iv| iv.val).collect()
    }
}

/// Span trees by file. Its view is the log of `(file, span)` it was built from.
pub struct SpanIndex {
    trees: HashMap<u32, SpanTree>,
    log: Ghost<Seq<(u32, Span)>>,
}

impl View for SpanIndex {
    type V = Seq<(u32, Span)>;

    closed spec fn view(&self) -> Seq<(u32, Span)> {
        self.log@
    }
}

/// The values whose span in `file` overlaps `[start, stop)`, by start and then by stop.
pub open spec fn overlapping(
    log: Seq<(u32, Span)>,
    file: u32,
    start: u64,
    stop: u64,
) -> Seq<u64> {
    hits(in_order(under(log, file)), start, stop)
}

proof fn lemma_placed_values(q: Seq<Span>, x: Span, n: int)
    requires
        x.2 < n,
        forall|k: int| 0 <= k < q.len() ==> (#[trigger] q[k]).2 < n,
    ensures
        forall|k: int| 0 <= k < placed(q, x).len() ==> (#[trigger] placed(q, x)[k]).2 < n,
    decreases q.len(),
{
    if q.len() > 0 && !no_later(q.last(), x) {
        lemma_placed_values(q.drop_last(), x, n);
        let r = placed(q.drop_last(), x);
        assert(q[q.len() - 1].2 < n);
        assert forall|k: int| 0 <= k < r.len() + 1 implies (#[trigger] placed(q, x)[k]).2 < n by {
            if k < r.len() {
                assert(r[k].2 < n);
            }
        }
    }
}

proof fn lemma_order_values(s: Seq<Span>, n: int)
    requires
        forall|k: int| 0 <= k < s.len() ==> (#[trigger] s[k]).2 < n,
    ensures
        forall|k: int| 0 <= k < in_order(s).len() ==> (#[trigger] in_order(s)[k]).2 < n,
    decreases s.len(),
{
    if s.len() > 0 {
        lemma_order_values(s.drop_last(), n);
        lemma_placed_values(in_order(s.drop_last()), s.last(), n);
    }
}

proof fn lemma_hit_values(s: Seq<Span>, start: u64, stop: u64, n: int)
    requires
        forall|k: int| 0 <= k < s.len() ==> (#[trigger] s[k]).2 < n,
    ensures
        forall|k: int| 0 <= k < hits(s, start, stop).len() ==> #[trigger] hits(s, start, stop)[k] < n,
    decreases s.len(),
{
    if s.len() > 0 {
        lemma_hit_values(s.drop_last(), start, stop, n);
        let r = hits(s.drop_last(), start, stop);
        assert(s[s.len() - 1].2 < n);
        assert forall|k: int| 0 <= k < hits(s, start, stop).len() implies #[trigger] hits(
            s,
            start,
            stop,
        )[k] < n by {
            if k < r.len() {
                assert(r[k] < n);
            }
        }
    }
}

proof fn lemma_under_values(log: Seq<(u32, Span)>, file: u32, n: int)
    requires
        forall|k: int| 0 <= k < log.len() ==> (#[trigger] log[k]).1.2 < n,
    ensures
        forall|k: int| 0 <= k < under(log, file).len() ==> (#[trigger] under(log, file)[k]).2 < n,
    decreases log.len(),
{
    if log.len() > 0 {
        lemma_under_values(log.drop_last(), file, n);
        let r = under(log.drop_last(), file);
        assert(log[log.len() - 1].1.2 < n);
        assert forall|k: int| 0 <= k < under(log, file).len() implies (#[trigger] under(
            log,
            file,
        )[k]).2 < n by {
            if k < r.len() {
                assert(r[k].2 < n);
            }
        }
    }
}

/// What overlaps a query carries values that the log carries.
pub proof fn lemma_overlapping_values(
    log: Seq<(u32, Span)>,
    file: u32,
    start: u64,
    stop: u64,
    n: int,
)
    requires
        forall|k: int| 0 <= k < log.len() ==> (#[trigger] log[k]).1.2 < n,
    ensures
        forall|k: int|
            0 <= k < overlapping(log, file, start, stop).len() ==> #[trigger] overlapping(
                log,
                file,
                start,
                stop,
            )[k] < n,
{
    lemma_under_values(log, file, n);
    lemma_order_values(under(log, file), n);
    lemma_hit_values(in_order(under(log, file)), start, stop, n);
}

fn copied(v: &Vec<Span>) -> (r: Vec<Span>)
    ensures
        r@ == v@,
{
    let mut out: Vec<Span> = Vec::new();
    let mut i: usize = 0;
    while i < v.len()
        invariant
            i <= v.len(),
            out@ == v@.subrange(0, i as int),
        decreases v.len() - i,
    {
        out.push(v[i]);
        i += 1;
        assert(out@ =~= v@.subrange(0, i as int));
    }
    assert(out@ =~= v@);
    out
}

impl SpanIndex {
    /// Each file with spans has a tree over them.
    pub closed spec fn wf(&self) -> bool {
        &&& forall|k: u32| #[trigger] self.trees@.contains_key(k) <==> under(self.log@, k).len() > 0
        &&& forall|k: u32| #[trigger]
            self.trees@.contains_key(k) ==> spans_of(self.trees@[k]) == in_order(
                under(self.log@, k),
            )
    }

    /// The index over grouped spans.
    pub fn build(groups: &Groups<Span>) -> (r: SpanIndex)
        requires
            groups.wf(),
        ensures
            r.wf(),
            r@ == groups@,
    {
        let mut trees: HashMap<u32, SpanTree> = HashMap::new();
        let files: Vec<u32> = groups.keys();
        let mut i: usize = 0;
        proof {
            lemma_ascending(keys_in(groups@));
            assert forall|x: u32| files@.contains(x) <==> under(groups@, x).len() > 0 by {
                assert(keys_in(groups@).contains(x) <==> under(groups@, x).len() > 0);
            }
        }
        while i < files.len()
            invariant
                groups.wf(),
                i <= files.len(),
                forall|x: u32| files@.contains(x) <==> under(groups@, x).len() > 0,
                forall|k: u32| #[trigger]
                    trees@.contains_key(k) <==> files@.subrange(0, i as int).contains(k),
                forall|k: u32| #[trigger]
                    trees@.contains_key(k) ==> spans_of(trees@[k]) == in_order(under(groups@, k)),
            decreases files.len() - i,
        {
            let f: u32 = files[i];
            assert(files@.contains(f));
            match groups.get(f) {
                Some(v) => {
                    trees.insert(f, SpanTree::new(copied(v)));
                },
                None => {},
            }
            proof {
                let a = files@.subrange(0, i as int);
                let b = files@.subrange(0, i + 1);
                assert(b =~= a.push(f));
                assert forall|k: u32| b.contains(k) <==> a.contains(k) || k == f by {
                    if a.contains(k) {
                        let m = choose|m: int| 0 <= m < a.len() && a[m] == k;
                        assert(b[m] == k);
                    }
                    if k == f {
                        assert(b[i as int] == k);
                    }
                }
            }
            i += 1;
        }
        assert(files@.subrange(0, i as int) =~= files@);
        SpanIndex { trees, log: Ghost(groups@) }
    }

    /// The values whose span in `file` overlaps `[start, stop)`.
    pub fn find(&self, file: u32, start: u64, stop: u64) -> (r: Vec<u64>)
        requires
            self.wf(),
        ensures
            r@ == overlapping(self@, file, start, stop),
    {
        match self.trees.get(&file) {
            Some(t) => t.find(start, stop),
            None => {
                assert(!self.trees@.contains_key(file));
                assert(under(self.log@, file) =~= Seq::empty());
                Vec::new()
            },
        }
    }
}

} // verus!
