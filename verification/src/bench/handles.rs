//! Waveform signals and handles for a benchmark on a given design.

use crate::ingest::signal_kind;
use crate::matcher::run::WaveVar;
use crate::bench::synth::Synth;
use crate::model::{
    incident, lemma_incident, Design, Document, Node, NodeId, NodeKind, Range,
};
use crate::text::chars_of;
use vstd::prelude::*;

verus! {

/// The nodes, among the first `n`, that are variables, or any signals.
pub open spec fn signal_nodes(nodes: Seq<Node>, vars_only: bool, n: nat) -> Seq<Node>
    decreases n,
{
    if n == 0 {
        Seq::empty()
    } else {
        let r = signal_nodes(nodes, vars_only, (n - 1) as nat);
        let x = nodes[n - 1];
        if x.kind == NodeKind::Var || (!vars_only && signal_kind(x.kind)) {
            r.push(x)
        } else {
            r
        }
    }
}

/// Whether signals are `count` copies of the given nodes' paths, in turn.
pub open spec fn are_signals(v: Seq<WaveVar>, nodes: Seq<Node>, count: nat) -> bool {
    if nodes.len() == 0 {
        v.len() == 0
    } else {
        &&& v.len() == count
        &&& forall|i: int|
            0 <= i < count ==> (#[trigger] v[i]).var_ref == i as u32 && v[i].signal_ref == i as u32
                && v[i].full_name@ == nodes[i % (nodes.len() as int)].path@ && !v[i].is_parameter
    }
}

fn signals_from_nodes(nodes: &[Node], vars_only: bool, count: usize) -> (r: Vec<WaveVar>)
    ensures
        are_signals(r@, signal_nodes(nodes@, vars_only, nodes@.len()), count as nat),
{
    let mut at: Vec<usize> = Vec::new();
    let mut i: usize = 0;
    while i < nodes.len()
        invariant
            i <= nodes@.len(),
            at@.len() == signal_nodes(nodes@, vars_only, i as nat).len(),
            forall|k: int|
                0 <= k < at@.len() ==> (#[trigger] at@[k]) < nodes@.len() && nodes@[at@[k] as int]
                    == signal_nodes(nodes@, vars_only, i as nat)[k],
        decreases nodes@.len() - i,
    {
        let wanted: bool = match nodes[i].kind {
            NodeKind::Var => true,
            NodeKind::Net | NodeKind::Port => !vars_only,
            _ => false,
        };
        if wanted {
            at.push(i);
        }
        i += 1;
    }
    let ghost found = signal_nodes(nodes@, vars_only, nodes@.len());
    let mut out: Vec<WaveVar> = Vec::new();
    if at.len() == 0 {
        return out;
    }
    let n: usize = at.len();
    let mut i: usize = 0;
    while i < count
        invariant
            i <= count,
            n == at@.len(),
            n == found.len(),
            n > 0,
            out@.len() == i,
            forall|k: int|
                0 <= k < at@.len() ==> (#[trigger] at@[k]) < nodes@.len() && nodes@[at@[k] as int]
                    == found[k],
            forall|k: int|
                0 <= k < i ==> (#[trigger] out@[k]).var_ref == k as u32 && out@[k].signal_ref
                    == k as u32 && out@[k].full_name@ == found[k % (n as int)].path@
                    && !out@[k].is_parameter,
        decreases count - i,
    {
        let id: u32 = #[verifier::truncate]
        (i as u32);
        let k: usize = at[i % n];
        out.push(
            WaveVar {
                var_ref: id,
                signal_ref: id,
                full_name: nodes[k].path.clone(),
                is_parameter: false,
            },
        );
        i += 1;
    }
    out
}

/// `count` signals named after the variables of a generated document, in turn.
pub fn synth_signals(synth: &Synth, _design: &Design, count: usize) -> (r: Vec<WaveVar>)
    ensures
        are_signals(r@, signal_nodes(synth.doc.nodes@, true, synth.doc.nodes@.len()), count as nat),
{
    signals_from_nodes(synth.doc.nodes.as_slice(), true, count)
}

/// `count` signals named after the signals of a design, in turn.
pub fn signals_from_design(design: &Design, count: usize) -> (r: Vec<WaveVar>)
    ensures
        are_signals(
            r@,
            signal_nodes(design.doc.nodes@, false, design.doc.nodes@.len()),
            count as nat,
        ),
{
    signals_from_nodes(design.nodes(), false, count)
}

/// Handles for a benchmark on a design that carries none of its own.
#[derive(Debug)]
pub struct RealHandles {
    pub mid_scope: String,
    pub mid_instance: NodeId,
    pub probe_path: String,
    pub probe_source: (u32, usize),
    pub hot_net: NodeId,
    pub hot_fanout: usize,
}

impl Clone for RealHandles {
    fn clone(&self) -> (r: Self)
        ensures
            r == *self,
    {
        RealHandles {
            mid_scope: self.mid_scope.clone(),
            mid_instance: self.mid_instance,
            probe_path: self.probe_path.clone(),
            probe_source: self.probe_source,
            hot_net: self.hot_net,
            hot_fanout: self.hot_fanout,
        }
    }
}

/// Whether no node has more edges than `id`.
pub open spec fn most_edges(d: Document, id: u32) -> bool {
    forall|x: u32| (#[trigger] incident(d, x)).len() <= incident(d, id).len()
}

/// How many dots a text holds.
pub open spec fn dots(s: Seq<char>) -> nat
    decreases s.len(),
{
    if s.len() == 0 {
        0
    } else {
        dots(s.drop_last()) + if s.last() == '.' {
            1nat
        } else {
            0nat
        }
    }
}

/// The indices, among the first `n`, of instances that have children.
pub open spec fn parents_at(nodes: Seq<Node>, n: nat) -> Seq<int>
    decreases n,
{
    if n == 0 {
        Seq::empty()
    } else {
        let r = parents_at(nodes, (n - 1) as nat);
        if nodes[n - 1].kind == NodeKind::Instance && nodes[n - 1].children@.len() > 0 {
            r.push(n - 1)
        } else {
            r
        }
    }
}

/// How many of the first `n` depths are below `k`.
pub open spec fn shallower(ds: Seq<nat>, k: nat, n: nat) -> nat
    decreases n,
{
    if n == 0 {
        0
    } else {
        shallower(ds, k, (n - 1) as nat) + if ds[n - 1] < k {
            1nat
        } else {
            0nat
        }
    }
}

/// Whether `i` is at place `r` when depths are put in order, equal ones as they come.
pub open spec fn placed_at(ds: Seq<nat>, i: int, r: int) -> bool {
    &&& 0 <= i < ds.len()
    &&& r == shallower(ds, ds[i], ds.len()) + (shallower(ds, (ds[i] + 1) as nat, i as nat)
        - shallower(ds, ds[i], i as nat))
}

/// The depths of nodes: the dots in their paths.
pub open spec fn depths(nodes: Seq<Node>, at: Seq<int>) -> Seq<nat> {
    Seq::new(at.len(), |k: int| dots(nodes[at[k]].path@))
}

/// A place just behind the start of a range: its file and an offset.
pub open spec fn inside_start(r: Range) -> (u32, usize) {
    (r.file, (r.start.offset as u64 + 1) as usize)
}

/// The first node, from `from`, that is a signal with a range, or has a range at all.
pub open spec fn probe_from(nodes: Seq<Node>, signal: bool, from: int) -> Option<int>
    decreases nodes.len() - from,
{
    if from < 0 || from >= nodes.len() {
        None
    } else if nodes[from].def_range is Some && (!signal || signal_kind(nodes[from].kind)) {
        Some(from)
    } else {
        probe_from(nodes, signal, from + 1)
    }
}

/// The node to probe: the first signal with a range, or else the first with one.
pub open spec fn probe_of(nodes: Seq<Node>) -> Option<int> {
    match probe_from(nodes, true, 0) {
        Some(i) => Some(i),
        None => probe_from(nodes, false, 0),
    }
}

fn count_dots(s: &str) -> (r: usize)
    ensures
        r == dots(s@),
{
    let cs: Vec<char> = chars_of(s);
    let mut n: usize = 0;
    let mut i: usize = 0;
    assert(s@.take(0) =~= Seq::empty());
    while i < cs.len()
        invariant
            i <= cs@.len(),
            cs@ == s@,
            n <= i,
            n == dots(s@.take(i as int)),
        decreases cs@.len() - i,
    {
        assert(s@.take(i + 1).drop_last() =~= s@.take(i as int));
        if cs[i] == '.' {
            n += 1;
        }
        i += 1;
    }
    assert(s@.take(i as int) =~= s@);
    n
}

/// How many of the depths are at most `k`.
fn count_up_to(ds: &Vec<usize>, k: usize, Ghost(dv): Ghost<Seq<nat>>) -> (r: usize)
    requires
        dv.len() == ds@.len(),
        forall|i: int| 0 <= i < ds@.len() ==> (#[trigger] ds@[i]) == dv[i],
    ensures
        r == shallower(dv, (k + 1) as nat, dv.len()),
{
    let mut c: usize = 0;
    let mut i: usize = 0;
    while i < ds.len()
        invariant
            i <= ds@.len(),
            c <= i,
            dv.len() == ds@.len(),
            forall|i: int| 0 <= i < ds@.len() ==> (#[trigger] ds@[i]) == dv[i],
            c == shallower(dv, (k + 1) as nat, i as nat),
        decreases ds@.len() - i,
    {
        assert(ds@[i as int] == dv[i as int]);
        if ds[i] <= k {
            c += 1;
        }
        i += 1;
    }
    c
}

proof fn lemma_shallower_all(ds: Seq<nat>, k: nat, n: nat)
    requires
        n <= ds.len(),
        forall|i: int| 0 <= i < ds.len() ==> (#[trigger] ds[i]) < k,
    ensures
        shallower(ds, k, n) == n,
    decreases n,
{
    if n > 0 {
        lemma_shallower_all(ds, k, (n - 1) as nat);
    }
}

proof fn lemma_shallower_none(ds: Seq<nat>, n: nat)
    ensures
        shallower(ds, 0, n) == 0,
    decreases n,
{
    if n > 0 {
        lemma_shallower_none(ds, (n - 1) as nat);
    }
}

/// The element at place `r` of an order by depth.
fn place(ds: &Vec<usize>, r: usize, Ghost(dv): Ghost<Seq<nat>>) -> (i: usize)
    requires
        r < ds@.len(),
        dv.len() == ds@.len(),
        forall|i: int| 0 <= i < ds@.len() ==> (#[trigger] ds@[i]) == dv[i],
    ensures
        placed_at(dv, i as int, r as int),
{
    let ghost len = dv.len();
    let mut k: usize = 0;
    let mut low: usize = 0;
    proof {
        lemma_shallower_none(dv, len);
    }
    let mut high: usize = count_up_to(ds, 0, Ghost(dv));
    while high <= r
        invariant
            len == ds@.len(),
            dv.len() == len,
            r < len,
            low <= r,
            low == shallower(dv, k as nat, len),
            high == shallower(dv, (k + 1) as nat, len),
            forall|i: int| 0 <= i < ds@.len() ==> (#[trigger] ds@[i]) == dv[i],
        decreases usize::MAX - k,
    {
        proof {
            if k == usize::MAX {
                assert forall|i: int| 0 <= i < dv.len() implies (#[trigger] dv[i]) < k + 1 by {
                    assert(ds@[i] == dv[i]);
                }
                lemma_shallower_all(dv, (k + 1) as nat, len);
            }
        }
        low = high;
        k += 1;
        high = count_up_to(ds, k, Ghost(dv));
    }
    let want: usize = r - low;
    let mut seen: usize = 0;
    let mut i: usize = 0;
    while i < ds.len()
        invariant
            i <= ds@.len(),
            len == ds@.len(),
            dv.len() == len,
            low <= r < shallower(dv, (k + 1) as nat, len),
            low == shallower(dv, k as nat, len),
            want == r - low,
            seen <= want,
            seen == shallower(dv, (k + 1) as nat, i as nat) - shallower(dv, k as nat, i as nat),
            forall|i: int| 0 <= i < ds@.len() ==> (#[trigger] ds@[i]) == dv[i],
        decreases ds@.len() - i,
    {
        assert(ds@[i as int] == dv[i as int]);
        if ds[i] == k {
            if seen == want {
                return i;
            }
            seen += 1;
        }
        i += 1;
    }
    assert(false);
    0
}

/// Whether an instance and its path are half way down: in the middle of the instances that
/// have children, in the order of their depth. The top stands in where there is none.
pub open spec fn is_middle(d: Document, instance: u32, scope: Seq<char>) -> bool {
    let at = parents_at(d.nodes@, d.nodes@.len());
    if at.len() == 0 {
        instance == 0 && scope == d.design@
    } else {
        exists|i: int|
            #![trigger at[i]]
            placed_at(depths(d.nodes@, at), i, at.len() as int / 2) && instance
                == d.nodes@[at[i]].id && scope == d.nodes@[at[i]].path@
    }
}

/// Whether a path and a place are those of the node to probe.
pub open spec fn is_probe(d: Document, path: Seq<char>, source: (u32, usize)) -> bool {
    match probe_of(d.nodes@) {
        Some(i) => path == d.nodes@[i].path@ && source == inside_start(d.nodes@[i].def_range->0),
        None => path == d.design@ && source == (0u32, 0usize),
    }
}

/// Whether handles suit a document: a node with most edges, an instance half way down, and
/// a signal to probe.
pub open spec fn are_handles(d: Document, h: RealHandles) -> bool {
    &&& h.hot_fanout == incident(d, h.hot_net).len()
    &&& most_edges(d, h.hot_net)
    &&& d.edges@.len() == 0 ==> h.hot_net == 0
    &&& is_middle(d, h.mid_instance, h.mid_scope@)
    &&& is_probe(d, h.probe_path@, h.probe_source)
}

/// Handles for a benchmark: the node with most edges, an instance half way down, and a
/// signal to probe. Where several nodes have most edges, any of them may be taken.
pub fn derive_handles(design: &Design) -> (r: RealHandles)
    requires
        design.wf(),
    ensures
        are_handles(design.doc, r),
{
    let (hot_net, hot_fanout) = hottest(design);
    let (mid_instance, mid_scope) = middle(design);
    let (probe_path, probe_source) = probe(design);
    RealHandles { mid_scope, mid_instance, probe_path, probe_source, hot_net, hot_fanout }
}

fn hottest(design: &Design) -> (r: (NodeId, usize))
    requires
        design.wf(),
    ensures
        r.1 == incident(design.doc, r.0).len(),
        most_edges(design.doc, r.0),
        design.doc.edges@.len() == 0 ==> r.0 == 0,
{
    let mut best: NodeId = 0;
    let mut most: usize = design.edge_indices_of(0).len();
    let mut i: usize = 0;
    while i < design.doc.edges.len()
        invariant
            i <= design.doc.edges@.len(),
            design.wf(),
            most == incident(design.doc, best).len(),
            i == 0 ==> best == 0,
            forall|k: int|
                0 <= k < i ==> incident(design.doc, (#[trigger] design.doc.edges@[k]).port).len()
                    <= most && incident(design.doc, design.doc.edges@[k].endpoint).len() <= most,
        decreases design.doc.edges@.len() - i,
    {
        let p: NodeId = design.doc.edges[i].port;
        let n: usize = design.edge_indices_of(p).len();
        if n > most {
            best = p;
            most = n;
        }
        let q: NodeId = design.doc.edges[i].endpoint;
        let m: usize = design.edge_indices_of(q).len();
        if m > most {
            best = q;
            most = m;
        }
        i += 1;
    }
    proof {
        assert forall|x: u32| (#[trigger] incident(design.doc, x)).len() <= most by {
            if incident(design.doc, x).len() > 0 {
                lemma_incident(design.doc, x);
                let e = design.doc.edges@[incident(design.doc, x)[0] as int];
                assert(e.port == x || e.endpoint == x);
            }
        }
    }
    (best, most)
}

fn middle(design: &Design) -> (r: (NodeId, String))
    ensures
        is_middle(design.doc, r.0, r.1@),
{
    let nodes: &[Node] = design.nodes();
    let mut at: Vec<usize> = Vec::new();
    let mut ds: Vec<usize> = Vec::new();
    let mut i: usize = 0;
    while i < nodes.len()
        invariant
            i <= nodes@.len(),
            at@.len() == parents_at(nodes@, i as nat).len(),
            ds@.len() == at@.len(),
            forall|k: int|
                0 <= k < at@.len() ==> (#[trigger] at@[k]) == parents_at(nodes@, i as nat)[k]
                    && at@[k] < nodes@.len(),
            forall|k: int|
                0 <= k < at@.len() ==> (#[trigger] ds@[k]) == dots(nodes@[at@[k] as int].path@),
        decreases nodes@.len() - i,
    {
        if nodes[i].kind == NodeKind::Instance && nodes[i].children.len() > 0 {
            at.push(i);
            ds.push(count_dots(nodes[i].path.as_str()));
        }
        i += 1;
    }
    let ghost av = parents_at(nodes@, nodes@.len());
    if at.len() == 0 {
        return (0, design.doc.design.clone());
    }
    let ghost dv = depths(nodes@, av);
    let half: usize = at.len() / 2;
    assert(dv.len() == ds@.len());
    assert forall|k: int| 0 <= k < ds@.len() implies (#[trigger] ds@[k]) == dv[k] by {
        assert(at@[k] == av[k]);
    }
    let m: usize = place(&ds, half, Ghost(dv));
    assert(at@[m as int] == av[m as int]);
    (nodes[at[m]].id, nodes[at[m]].path.clone())
}

fn first_ranged(nodes: &[Node], signal: bool) -> (r: Option<usize>)
    ensures
        match r {
            Some(i) => probe_from(nodes@, signal, 0) == Some(i as int) && i < nodes@.len()
                && nodes@[i as int].def_range is Some,
            None => probe_from(nodes@, signal, 0) is None,
        },
{
    let mut i: usize = 0;
    while i < nodes.len()
        invariant
            i <= nodes@.len(),
            probe_from(nodes@, signal, 0) == probe_from(nodes@, signal, i as int),
        decreases nodes@.len() - i,
    {
        let kind_fits: bool = match nodes[i].kind {
            NodeKind::Var | NodeKind::Net | NodeKind::Port => true,
            _ => !signal,
        };
        if kind_fits && nodes[i].def_range.is_some() {
            return Some(i);
        }
        i += 1;
    }
    None
}

fn probe(design: &Design) -> (r: (String, (u32, usize)))
    ensures
        is_probe(design.doc, r.0@, r.1),
{
    let nodes: &[Node] = design.nodes();
    let found: Option<usize> = match first_ranged(nodes, true) {
        Some(i) => Some(i),
        None => first_ranged(nodes, false),
    };
    match found {
        Some(i) => match &nodes[i].def_range {
            Some(r) => {
                let offset: usize = #[verifier::truncate]
                ((r.start.offset as u64 + 1) as usize);
                (nodes[i].path.clone(), (r.file, offset))
            },
            None => (design.doc.design.clone(), (0, 0)),
        },
        None => (design.doc.design.clone(), (0, 0)),
    }
}

} // verus!
