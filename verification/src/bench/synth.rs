//! Synthetic designs: valid documents of a chosen size, the same for the same seed.

use crate::bench::rng::{mixed, stepped, SplitMix64};
use crate::model::{
    children_at, Design, Dir, Document, Edge, FileEntry, Generator, Location, Node, NodeId,
    NodeKind, Range, WaveMaps,
};
use crate::order::{ascending, increasing, lemma_ascending, lemma_ascending_unique};
use crate::schematic::hierarchy::{climbs, hierarchical};
use crate::schematic::kinds::{has_kind, nests};
use crate::text::{
    decimal, decimal_of, dotted, joined, lemma_decimal_injective, lemma_decimal_nonempty, owned,
};
use vstd::prelude::*;
use vstd::string::*;

verus! {

broadcast use vstd::string::group_string_axioms;

/// Knobs of a synthetic design.
#[derive(Debug, Clone, Copy, PartialEq, Eq, Structural)]
pub struct SynthConfig {
    /// Target number of nodes.
    pub node_count: usize,
    /// Edges per leaf driver.
    pub fanout: usize,
    /// Instance nesting below the root.
    pub depth: usize,
    /// Number of waveform signals to make.
    pub signal_count: usize,
    /// Seed of the edge directions.
    pub seed: u64,
}

impl SynthConfig {
    /// The size of a small real design.
    pub fn baseline() -> (r: Self)
        ensures
            r == (SynthConfig {
                node_count: 665,
                fanout: 4,
                depth: 3,
                signal_count: 512,
                seed: 0xC0FF_EE00,
            }),
    {
        SynthConfig {
            node_count: 665,
            fanout: 4,
            depth: 3,
            signal_count: 512,
            seed: 0xC0FF_EE00,
        }
    }

    /// About a hundred thousand nodes.
    pub fn mid() -> (r: Self)
        ensures
            r == (SynthConfig {
                node_count: 100_000,
                fanout: 8,
                depth: 4,
                signal_count: 20_000,
                seed: 0xC0FF_EE00,
            }),
    {
        SynthConfig {
            node_count: 100_000,
            fanout: 8,
            depth: 4,
            signal_count: 20_000,
            seed: 0xC0FF_EE00,
        }
    }

    /// About a million nodes.
    pub fn large() -> (r: Self)
        ensures
            r == (SynthConfig {
                node_count: 1_000_000,
                fanout: 8,
                depth: 5,
                signal_count: 100_000,
                seed: 0xC0FF_EE00,
            }),
    {
        SynthConfig {
            node_count: 1_000_000,
            fanout: 8,
            depth: 5,
            signal_count: 100_000,
            seed: 0xC0FF_EE00,
        }
    }
}

/// A generated design and the handles that benchmarks use on it.
pub struct Synth {
    pub doc: Document,
    /// A net that every register is wired to.
    pub clock_net: NodeId,
    /// The number of those wires.
    pub clock_fanout: usize,
    /// The path of an instance half way down.
    pub mid_scope: String,
    pub mid_instance: NodeId,
    /// The path of a variable.
    pub probe_path: String,
    /// A file and an offset inside a node's range.
    pub probe_source: (u32, usize),
}

// --- What is generated --------------------------------------------------------

/// A node of a synthetic design.
#[verifier::ext_equal]
pub struct EntryV {
    pub kind: NodeKind,
    pub name: Seq<char>,
    pub path: Seq<char>,
    pub parent: Option<u32>,
    pub dir: Option<Dir>,
}

/// An edge of a synthetic design.
#[verifier::ext_equal]
pub struct LinkV {
    pub port: u32,
    pub endpoint: u32,
    pub dir: Dir,
}

/// The top instance.
pub open spec fn top_entry() -> EntryV {
    EntryV {
        kind: NodeKind::Instance,
        name: "top"@,
        path: "top"@,
        parent: None,
        dir: None,
    }
}

/// The name of the `i`-th instance under another.
pub open spec fn unit_name(i: nat) -> Seq<char> {
    seq!['u'] + decimal(i)
}

/// A node named `name` under the node at index `p`.
pub open spec fn entry_under(
    es: Seq<EntryV>,
    p: int,
    kind: NodeKind,
    name: Seq<char>,
    dir: Option<Dir>,
) -> EntryV {
    EntryV { kind, name, path: es[p].path + seq!['.'] + name, parent: Some(p as u32), dir }
}

/// The nodes with the first `n` instances under node `p` added.
pub open spec fn units_under(es: Seq<EntryV>, p: int, n: nat) -> Seq<EntryV>
    decreases n,
{
    if n == 0 {
        es
    } else {
        let r = units_under(es, p, (n - 1) as nat);
        r.push(entry_under(r, p, NodeKind::Instance, unit_name((n - 1) as nat), None))
    }
}

/// The nodes with `branch` instances under each of the `n` nodes from `start`.
pub open spec fn grown(es: Seq<EntryV>, start: int, n: nat, branch: nat) -> Seq<EntryV>
    decreases n,
{
    if n == 0 {
        es
    } else {
        units_under(grown(es, start, (n - 1) as nat, branch), start + n - 1, branch)
    }
}

/// The instance tree of `l` levels, and where its last level starts.
pub open spec fn levels(l: nat, branch: nat) -> (Seq<EntryV>, int)
    decreases l,
{
    if l == 0 {
        (seq![top_entry()], 0)
    } else {
        let (es, start) = levels((l - 1) as nat, branch);
        (grown(es, start, (es.len() - start) as nat, branch), es.len() as int)
    }
}

/// The `k`-th node put into a leaf: a variable and a register first, then ports with
/// their backing nets, then more variables.
pub open spec fn leaf_entry(es: Seq<EntryV>, leaf: int, k: nat) -> EntryV {
    if k == 0 {
        entry_under(es, leaf, NodeKind::Var, "s0"@, None)
    } else if k == 1 {
        entry_under(es, leaf, NodeKind::Ff, "q_reg"@, None)
    } else if k == 2 {
        entry_under(es, leaf, NodeKind::Port, "din"@, Some(Dir::In))
    } else if k == 3 {
        entry_under(es, leaf, NodeKind::Net, "din"@, None)
    } else if k == 4 {
        entry_under(es, leaf, NodeKind::Port, "dout"@, Some(Dir::Out))
    } else if k == 5 {
        entry_under(es, leaf, NodeKind::Net, "dout"@, None)
    } else {
        entry_under(es, leaf, NodeKind::Var, seq!['s'] + decimal((k - 5) as nat), None)
    }
}

/// The nodes with `n` more put into the leaves in turn. The leaves are the nodes from
/// `start` up to `stop`.
pub open spec fn leaves_filled(es: Seq<EntryV>, start: int, stop: int, n: nat) -> Seq<EntryV>
    decreases n,
{
    if n == 0 {
        es
    } else {
        let r = leaves_filled(es, start, stop, (n - 1) as nat);
        let count = stop - start;
        r.push(leaf_entry(r, start + (n - 1) as int % count, ((n - 1) as int / count) as nat))
    }
}

/// The nesting that is generated: at least one level.
pub open spec fn synth_depth(cfg: SynthConfig) -> nat {
    if cfg.depth > 0 {
        cfg.depth as nat
    } else {
        1
    }
}

/// How many nodes are put into the leaves.
pub open spec fn fill_count(cfg: SynthConfig, tree: nat) -> nat {
    if cfg.node_count > tree {
        (cfg.node_count - tree) as nat
    } else {
        0
    }
}

/// The nodes of a synthetic design but for its clock.
pub open spec fn body_entries(cfg: SynthConfig, branch: nat) -> Seq<EntryV> {
    let (es, start) = levels(synth_depth(cfg), branch);
    leaves_filled(es, start, es.len() as int, fill_count(cfg, es.len()))
}

/// The clock net.
pub open spec fn clock_entry() -> EntryV {
    EntryV {
        kind: NodeKind::Net,
        name: "clk"@,
        path: "top.clk"@,
        parent: Some(0u32),
        dir: None,
    }
}

/// The nodes of a synthetic design.
pub open spec fn synth_entries(cfg: SynthConfig, branch: nat) -> Seq<EntryV> {
    body_entries(cfg, branch).push(clock_entry())
}

/// The nodes that name `p` as their parent.
pub open spec fn named_children(es: Seq<EntryV>, p: u32) -> Set<u32> {
    Set::new(|j: u32| j < es.len() && es[j as int].parent == Some(p))
}

/// The registers.
pub open spec fn registers(es: Seq<EntryV>) -> Set<u32> {
    Set::new(|j: u32| j < es.len() && es[j as int].kind == NodeKind::Ff)
}

/// The direction that a random number stands for.
pub open spec fn dir_of(z: u64) -> Dir {
    if z & 1 == 0 {
        Dir::Out
    } else {
        Dir::In
    }
}

/// The edges from a leaf's first child to the next `n` ones, and the generator's state
/// behind them.
pub open spec fn leaf_links(links: Seq<LinkV>, sigs: Seq<u32>, n: nat, state: u64) -> (
    Seq<LinkV>,
    u64,
)
    decreases n,
{
    if n == 0 {
        (links, state)
    } else {
        let (r, s) = leaf_links(links, sigs, (n - 1) as nat, state);
        (
            r.push(LinkV { port: sigs[0], endpoint: sigs[n as int], dir: dir_of(mixed(stepped(s))) }),
            stepped(s),
        )
    }
}

/// How many edges a leaf with `n` children gets.
pub open spec fn links_wanted(n: nat, fanout: nat) -> nat {
    if n == 0 {
        0
    } else if n - 1 < fanout {
        (n - 1) as nat
    } else {
        fanout
    }
}

/// The edges of the first `n` leaves from `start`.
pub open spec fn all_leaf_links(
    es: Seq<EntryV>,
    start: int,
    fanout: nat,
    n: nat,
    state: u64,
) -> (Seq<LinkV>, u64)
    decreases n,
{
    if n == 0 {
        (Seq::empty(), state)
    } else {
        let (r, s) = all_leaf_links(es, start, fanout, (n - 1) as nat, state);
        let sigs = ascending(named_children(es, (start + n - 1) as u32));
        leaf_links(r, sigs, links_wanted(sigs.len(), fanout), s)
    }
}

/// The edges with the clock wired to the first `n` registers.
pub open spec fn clock_links(links: Seq<LinkV>, regs: Seq<u32>, clock: u32, n: nat) -> Seq<LinkV>
    decreases n,
{
    if n == 0 {
        links
    } else {
        clock_links(links, regs, clock, (n - 1) as nat).push(
            LinkV { port: regs[n - 1], endpoint: clock, dir: Dir::Out },
        )
    }
}

/// The edges of a synthetic design.
pub open spec fn synth_links(cfg: SynthConfig, branch: nat) -> Seq<LinkV> {
    let (tree, start) = levels(synth_depth(cfg), branch);
    let es = body_entries(cfg, branch);
    let leaf = all_leaf_links(
        es,
        start,
        cfg.fanout as nat,
        (tree.len() - start) as nat,
        cfg.seed,
    ).0;
    let regs = ascending(registers(synth_entries(cfg, branch)));
    clock_links(leaf, regs, es.len() as u32, regs.len())
}

/// The source range of the `i`-th node.
pub open spec fn range_of(i: int) -> Range {
    Range {
        file: 0,
        start: Location { line: 1, col: 1, offset: (10 * i) as u32 },
        end: Location { line: 1, col: 1, offset: (10 * i + 8) as u32 },
    }
}

/// Whether a node is the `i`-th of the entries: its id is its index, and its children
/// are the nodes that name it.
pub open spec fn is_entry(n: Node, es: Seq<EntryV>, i: int) -> bool {
    &&& n.id == i
    &&& n.kind == es[i].kind
    &&& n.name@ == es[i].name
    &&& n.path@ == es[i].path
    &&& n.parent == es[i].parent
    &&& n.children@ == ascending(named_children(es, i as u32))
    &&& n.symbol_key@ == es[i].path
    &&& n.def_range == Some(range_of(i))
    &&& n.inst_range is None
    &&& n.type_ is None
    &&& n.dir == es[i].dir
    &&& n.const_value is None
    &&& n.modport is None
    &&& n.members is None
    &&& n.reset is None
    &&& n.enable is None
    &&& n.mem_depth is None
    &&& n.init_source is None
    &&& n.op is None
    &&& n.drivers@.len() == 0
    &&& n.loads@.len() == 0
}

/// Whether nodes are the entries.
pub open spec fn are_entries(nodes: Seq<Node>, es: Seq<EntryV>) -> bool {
    nodes.len() == es.len() && forall|i: int|
        0 <= i < nodes.len() ==> is_entry(#[trigger] nodes[i], es, i)
}

/// Whether an edge is the `i`-th of the links.
pub open spec fn is_link(e: Edge, l: LinkV, i: int) -> bool {
    &&& e.id == i as u32
    &&& e.port == l.port
    &&& e.endpoint == l.endpoint
    &&& e.dir == l.dir
    &&& e.select is None
    &&& e.mem_port is None
    &&& e.mux_port is None
}

/// Whether edges are the links.
pub open spec fn are_links(edges: Seq<Edge>, ls: Seq<LinkV>) -> bool {
    edges.len() == ls.len() && forall|i: int|
        0 <= i < edges.len() ==> is_link(#[trigger] edges[i], ls[i], i)
}

/// Whether a document is the synthetic one for a configuration.
pub open spec fn is_synth(d: Document, cfg: SynthConfig, branch: nat) -> bool {
    &&& d.schema_version == 1
    &&& d.design@ == "top"@
    &&& d.generator.tool@ == "scale-bench"@
    &&& d.generator.version@ == "0.1.0"@
    &&& d.files@.len() == 1
    &&& d.files@[0].id == 0
    &&& d.files@[0].path@ == "synth.sv"@
    &&& d.files@[0].language is None
    &&& are_entries(d.nodes@, synth_entries(cfg, branch))
    &&& are_links(d.edges@, synth_links(cfg, branch))
    &&& d.enums@.len() == 0
    &&& d.source_map@.len() == 0
    &&& d.name_refs@.len() == 0
}

/// The greatest number of nodes whose ranges have offsets.
pub const MAX_NODES: usize = 429_496_729;

// --- Sizes --------------------------------------------------------------------

proof fn lemma_units_len(es: Seq<EntryV>, p: int, n: nat)
    ensures
        units_under(es, p, n).len() == es.len() + n,
        forall|i: int| 0 <= i < es.len() ==> #[trigger] units_under(es, p, n)[i] == es[i],
    decreases n,
{
    if n > 0 {
        lemma_units_len(es, p, (n - 1) as nat);
    }
}

proof fn lemma_grown_prefix(es: Seq<EntryV>, start: int, n: nat, m: nat, branch: nat)
    requires
        n <= m,
    ensures
        grown(es, start, n, branch).len() <= grown(es, start, m, branch).len(),
        forall|i: int|
            0 <= i < grown(es, start, n, branch).len() ==> #[trigger] grown(
                es,
                start,
                m,
                branch,
            )[i] == grown(es, start, n, branch)[i],
    decreases m,
{
    if n < m {
        lemma_grown_prefix(es, start, n, (m - 1) as nat, branch);
        lemma_units_len(grown(es, start, (m - 1) as nat, branch), start + m - 1, branch);
    }
}

proof fn lemma_levels(l: nat, branch: nat)
    requires
        branch >= 1,
    ensures
        0 <= levels(l, branch).1 < levels(l, branch).0.len(),
    decreases l,
{
    if l > 0 {
        lemma_levels((l - 1) as nat, branch);
        let (es, start) = levels((l - 1) as nat, branch);
        let n = (es.len() - start) as nat;
        lemma_grown_prefix(es, start, 1, n, branch);
        lemma_units_len(es, start, branch);
        assert(grown(es, start, 1, branch) == units_under(grown(es, start, 0, branch), start, branch));
    }
}

proof fn lemma_levels_grow(l: nat, m: nat, branch: nat)
    requires
        l <= m,
        branch >= 1,
    ensures
        levels(l, branch).0.len() <= levels(m, branch).0.len(),
        forall|i: int|
            0 <= i < levels(l, branch).0.len() ==> #[trigger] levels(m, branch).0[i] == levels(
                l,
                branch,
            ).0[i],
    decreases m,
{
    if l < m {
        lemma_levels_grow(l, (m - 1) as nat, branch);
        lemma_levels((m - 1) as nat, branch);
        let (es, start) = levels((m - 1) as nat, branch);
        lemma_grown_prefix(es, start, 0, (es.len() - start) as nat, branch);
    }
}

proof fn lemma_filled(es: Seq<EntryV>, start: int, stop: int, n: nat)
    ensures
        leaves_filled(es, start, stop, n).len() == es.len() + n,
        forall|i: int|
            0 <= i < es.len() ==> #[trigger] leaves_filled(es, start, stop, n)[i] == es[i],
    decreases n,
{
    if n > 0 {
        lemma_filled(es, start, stop, (n - 1) as nat);
    }
}

// --- Building -----------------------------------------------------------------

struct Builder {
    nodes: Vec<Node>,
    edges: Vec<Edge>,
    off: u32,
    rng: SplitMix64,
}

impl Builder {
    spec fn holds(&self, es: Seq<EntryV>, ls: Seq<LinkV>) -> bool {
        &&& are_entries(self.nodes@, es)
        &&& are_links(self.edges@, ls)
        &&& parents_before(es)
        &&& es.len() <= MAX_NODES
        &&& self.off == 10 * es.len()
    }

    fn new(seed: u64) -> (r: Builder)
        ensures
            r.holds(Seq::empty(), Seq::empty()),
            r.rng@ == seed,
    {
        Builder { nodes: Vec::new(), edges: Vec::new(), off: 0, rng: SplitMix64::new(seed) }
    }

    fn next_range(&mut self) -> (r: Range)
        requires
            old(self).off + 10 <= u32::MAX,
        ensures
            final(self).off == old(self).off + 10,
            final(self).nodes == old(self).nodes,
            final(self).edges == old(self).edges,
            final(self).rng == old(self).rng,
            r.file == 0,
            r.start == (Location { line: 1, col: 1, offset: old(self).off }),
            r.end == (Location { line: 1, col: 1, offset: (old(self).off + 8) as u32 }),
    {
        let lo: u32 = self.off;
        self.off = self.off + 10;
        let hi: u32 = lo + 8;
        Range {
            file: 0,
            start: Location { line: 1, col: 1, offset: lo },
            end: Location { line: 1, col: 1, offset: hi },
        }
    }

    fn push(
        &mut self,
        kind: NodeKind,
        name: &str,
        path: String,
        parent: Option<NodeId>,
        dir: Option<Dir>,
        Ghost(es): Ghost<Seq<EntryV>>,
        Ghost(ls): Ghost<Seq<LinkV>>,
    ) -> (id: NodeId)
        requires
            old(self).holds(es, ls),
            es.len() < MAX_NODES,
            parent is Some ==> parent->0 < es.len(),
        ensures
            id == es.len(),
            final(self).rng == old(self).rng,
            final(self).holds(
                es.push(EntryV { kind, name: name@, path: path@, parent, dir }),
                ls,
            ),
    {
        let id: NodeId = self.nodes.len() as NodeId;
        let ghost before = self.nodes@;
        let range: Range = self.next_range();
        let symbol_key: String = path.clone();
        let ghost e = EntryV { kind, name: name@, path: path@, parent, dir };
        let ghost es2 = es.push(e);
        self.nodes.push(
            Node {
                id,
                kind,
                name: owned(name),
                path,
                parent,
                children: Vec::new(),
                symbol_key,
                def_range: Some(range),
                inst_range: None,
                type_: None,
                dir,
                const_value: None,
                modport: None,
                members: None,
                reset: None,
                enable: None,
                mem_depth: None,
                init_source: None,
                op: None,
                drivers: Vec::new(),
                loads: Vec::new(),
            },
        );
        let ghost mid = self.nodes@;
        if let Some(p) = parent {
            self.nodes[p as usize].children.push(id);
        }
        proof {
            assert forall|i: int| 0 <= i < self.nodes@.len() implies is_entry(
                #[trigger] self.nodes@[i],
                es2,
                i,
            ) by {
                let a = named_children(es, i as u32);
                let b = named_children(es2, i as u32);
                lemma_ascending(a);
                if i < es.len() {
                    assert(is_entry(before[i], es, i));
                    if parent == Some(i as u32) {
                        let q = ascending(a).push(id);
                        assert forall|x: u32| b.contains(x) <==> q.contains(x) by {
                            assert(a.contains(x) <==> ascending(a).contains(x));
                            if ascending(a).contains(x) {
                                let k = choose|k: int|
                                    0 <= k < ascending(a).len() && ascending(a)[k] == x;
                                assert(q[k] == x);
                            }
                            if x == id {
                                assert(q[ascending(a).len() as int] == x);
                            }
                            if q.contains(x) && x != id {
                                let k = choose|k: int| 0 <= k < q.len() && q[k] == x;
                                assert(ascending(a)[k] == x);
                            }
                        }
                        assert forall|k: int| 0 <= k < ascending(a).len() implies #[trigger] ascending(
                            a,
                        )[k] < id by {
                            assert(ascending(a).contains(ascending(a)[k]));
                            assert(a.contains(ascending(a)[k]));
                        }
                        lemma_ascending_unique(b, q);
                    } else {
                        assert(a =~= b);
                    }
                } else {
                    assert(b =~= Set::empty()) by {
                        assert forall|x: u32| !b.contains(x) by {
                            if b.contains(x) && x < es.len() {
                                assert(es2[x as int] == es[x as int]);
                                assert(es[x as int].parent->0 < x);
                            }
                        }
                    }
                    lemma_ascending_unique(b, Seq::empty());
                }
            }
        }
        id
    }

    fn edge(&mut self, port: NodeId, endpoint: NodeId, dir: Dir, Ghost(es): Ghost<Seq<EntryV>>, Ghost(
        ls,
    ): Ghost<Seq<LinkV>>)
        requires
            old(self).holds(es, ls),
        ensures
            final(self).rng == old(self).rng,
            final(self).holds(es, ls.push(LinkV { port, endpoint, dir })),
    {
        let id: u32 = #[verifier::truncate]
        (self.edges.len() as u32);
        let ghost before = self.edges@;
        self.edges.push(
            Edge { id, port, endpoint, dir, select: None, mem_port: None, mux_port: None },
        );
        proof {
            assert forall|i: int| 0 <= i < self.edges@.len() implies is_link(
                #[trigger] self.edges@[i],
                ls.push(LinkV { port, endpoint, dir })[i],
                i,
            ) by {
                if i < before.len() {
                    assert(is_link(before[i], ls[i], i));
                }
            }
        }
    }
}

/// The children of a node as they were listed.
fn children_copy(b: &Builder, leaf: NodeId, Ghost(es): Ghost<Seq<EntryV>>, Ghost(ls): Ghost<
    Seq<LinkV>,
>) -> (r: Vec<NodeId>)
    requires
        b.holds(es, ls),
        leaf < es.len(),
    ensures
        r@ == ascending(named_children(es, leaf)),
{
    let mut out: Vec<NodeId> = Vec::new();
    assert(is_entry(b.nodes@[leaf as int], es, leaf as int));
    crate::schematic::kinds::append_ids(&mut out, b.nodes[leaf as usize].children.as_slice());
    assert(out@ =~= ascending(named_children(es, leaf)));
    out
}

fn path_under(b: &Builder, p: NodeId, name: &str, Ghost(es): Ghost<Seq<EntryV>>, Ghost(ls): Ghost<
    Seq<LinkV>,
>) -> (r: String)
    requires
        b.holds(es, ls),
        p < es.len(),
    ensures
        r@ == es[p as int].path + seq!['.'] + name@,
{
    assert(is_entry(b.nodes@[p as int], es, p as int));
    dotted(b.nodes[p as usize].path.as_str(), name)
}

/// The instance tree.
fn grow_tree(b: &mut Builder, depth: usize, branch: usize, mid_level: usize) -> (r: (usize, usize))
    requires
        old(b).holds(seq![top_entry()], Seq::empty()),
        branch >= 1,
        1 <= mid_level <= depth,
        levels(depth as nat, branch as nat).0.len() < MAX_NODES,
    ensures
        final(b).holds(levels(depth as nat, branch as nat).0, Seq::empty()),
        final(b).rng == old(b).rng,
        r.0 == levels(depth as nat, branch as nat).1,
        r.1 == levels(mid_level as nat, branch as nat).1,
{
    let ghost bn = branch as nat;
    let ghost none = Seq::<LinkV>::empty();
    let ghost rng0 = b.rng;
    let ghost last = levels(depth as nat, bn).0;
    let mut start: usize = 0;
    let mut mid: usize = 0;
    let mut l: usize = 0;
    while l < depth
        invariant
            l <= depth,
            1 <= mid_level <= depth,
            mid_level <= l ==> mid == levels(mid_level as nat, bn).1,
            branch >= 1,
            bn == branch,
            none == Seq::<LinkV>::empty(),
            last == levels(depth as nat, bn).0,
            last.len() < MAX_NODES,
            b.holds(levels(l as nat, bn).0, none),
            b.rng == rng0,
            start == levels(l as nat, bn).1,
        decreases depth - l,
    {
        let ghost es = levels(l as nat, bn).0;
        let stop: usize = b.nodes.len();
        proof {
            lemma_levels(l as nat, bn);
            lemma_levels_grow((l + 1) as nat, depth as nat, bn);
        }
        let ghost full = grown(es, start as int, (stop - start) as nat, bn);
        assert(levels((l + 1) as nat, bn).0 == full);
        let mut p: usize = start;
        while p < stop
            invariant
                start <= p <= stop,
                stop == es.len(),
                stop <= MAX_NODES,
                bn == branch,
                full == grown(es, start as int, (stop - start) as nat, bn),
                full.len() < MAX_NODES,
                b.holds(grown(es, start as int, (p - start) as nat, bn), none),
                b.rng == rng0,
            decreases stop - p,
        {
            let ghost here = grown(es, start as int, (p - start) as nat, bn);
            let ghost next = grown(es, start as int, (p + 1 - start) as nat, bn);
            proof {
                lemma_grown_prefix(es, start as int, 0, (p - start) as nat, bn);
                lemma_grown_prefix(
                    es,
                    start as int,
                    (p + 1 - start) as nat,
                    (stop - start) as nat,
                    bn,
                );
                assert(next == units_under(here, p as int, bn));
                lemma_units_len(here, p as int, bn);
            }
            let mut i: usize = 0;
            while i < branch
                invariant
                    i <= branch,
                    p < here.len(),
                    p <= MAX_NODES,
                    bn == branch,
                    next == units_under(here, p as int, bn),
                    next.len() == here.len() + bn,
                    next.len() < MAX_NODES,
                    b.holds(units_under(here, p as int, i as nat), none),
                    b.rng == rng0,
                decreases branch - i,
            {
                let ghost now = units_under(here, p as int, i as nat);
                proof {
                    lemma_units_len(here, p as int, i as nat);
                    reveal_strlit("u");
                    assert("u"@ =~= seq!['u']);
                }
                let num: String = decimal_of(i as u64);
                let name: String = joined("u", num.as_str());
                let path: String = path_under(b, p as u32, name.as_str(), Ghost(now), Ghost(none));
                let id: NodeId = b.push(
                    NodeKind::Instance,
                    name.as_str(),
                    path,
                    Some(p as u32),
                    None,
                    Ghost(now),
                    Ghost(none),
                );
                i += 1;
            }
            p += 1;
        }
        start = stop;
        l += 1;
        if l == mid_level {
            mid = stop;
        }
    }
    (start, mid)
}

/// One node for a leaf.
fn put_in_leaf(b: &mut Builder, leaf: NodeId, k: u64, Ghost(es): Ghost<Seq<EntryV>>, Ghost(
    ls,
): Ghost<Seq<LinkV>>)
    requires
        old(b).holds(es, ls),
        es.len() < MAX_NODES,
        leaf < es.len(),
    ensures
        final(b).holds(es.push(leaf_entry(es, leaf as int, k as nat)), ls),
        final(b).rng == old(b).rng,
{
    let numbered: String;
    let (kind, name, dir): (NodeKind, &str, Option<Dir>) = if k == 0 {
        (NodeKind::Var, "s0", None)
    } else if k == 1 {
        (NodeKind::Ff, "q_reg", None)
    } else if k == 2 {
        (NodeKind::Port, "din", Some(Dir::In))
    } else if k == 3 {
        (NodeKind::Net, "din", None)
    } else if k == 4 {
        (NodeKind::Port, "dout", Some(Dir::Out))
    } else if k == 5 {
        (NodeKind::Net, "dout", None)
    } else {
        proof {
            reveal_strlit("s");
            assert("s"@ =~= seq!['s']);
        }
        let num: String = decimal_of(k - 5);
        numbered = joined("s", num.as_str());
        (NodeKind::Var, numbered.as_str(), None)
    };
    let path: String = path_under(b, leaf, name, Ghost(es), Ghost(ls));
    let id: NodeId = b.push(kind, name, path, Some(leaf), dir, Ghost(es), Ghost(ls));
}

/// Puts nodes into the leaves in turn.
fn fill_leaves(b: &mut Builder, start: usize, stop: usize, count: usize, Ghost(es): Ghost<
    Seq<EntryV>,
>)
    requires
        old(b).holds(es, Seq::empty()),
        start < stop,
        stop == es.len(),
        es.len() + count < MAX_NODES,
    ensures
        final(b).holds(leaves_filled(es, start as int, stop as int, count as nat), Seq::empty()),
        final(b).rng == old(b).rng,
{
    let ghost none = Seq::<LinkV>::empty();
    let ghost rng0 = b.rng;
    let n: usize = stop - start;
    let mut i: usize = 0;
    let mut li: usize = 0;
    let mut k: u64 = 0;
    assert(0int % (n as int) == 0 && 0int / (n as int) == 0) by (nonlinear_arith)
        requires
            n > 0,
    ;
    while i < count
        invariant
            i <= count,
            start < stop,
            n == stop - start,
            stop == es.len(),
            es.len() + count < MAX_NODES,
            none == Seq::<LinkV>::empty(),
            li < n,
            li == (i as int) % (n as int),
            k == (i as int) / (n as int),
            k <= i,
            b.holds(leaves_filled(es, start as int, stop as int, i as nat), none),
            b.rng == rng0,
        decreases count - i,
    {
        let ghost now = leaves_filled(es, start as int, stop as int, i as nat);
        proof {
            lemma_filled(es, start as int, stop as int, i as nat);
        }
        put_in_leaf(b, (start + li) as u32, k, Ghost(now), Ghost(none));
        proof {
            let a = i as int;
            let m = n as int;
            assert(li + 1 == m ==> (a + 1) % m == 0 && (a + 1) / m == k + 1) by (nonlinear_arith)
                requires
                    m > 0,
                    li == a % m,
                    k == a / m,
                    a >= 0,
            ;
            assert(li + 1 < m ==> (a + 1) % m == li + 1 && (a + 1) / m == k) by (nonlinear_arith)
                requires
                    m > 0,
                    li == a % m,
                    k == a / m,
                    a >= 0,
            ;
        }
        if li + 1 == n {
            li = 0;
            k += 1;
        } else {
            li += 1;
        }
        i += 1;
    }
}

/// Wires each leaf's first child to its next ones.
fn link_leaves(b: &mut Builder, start: usize, stop: usize, fanout: usize, Ghost(es): Ghost<
    Seq<EntryV>,
>)
    requires
        old(b).holds(es, Seq::empty()),
        start <= stop <= es.len(),
        es.len() <= MAX_NODES,
    ensures
        final(b).holds(
            es,
            all_leaf_links(es, start as int, fanout as nat, (stop - start) as nat, old(b).rng@).0,
        ),
{
    let ghost seed = b.rng@;
    let mut p: usize = start;
    while p < stop
        invariant
            start <= p <= stop,
            stop <= es.len(),
            es.len() <= MAX_NODES,
            b.holds(
                es,
                all_leaf_links(es, start as int, fanout as nat, (p - start) as nat, seed).0,
            ),
            b.rng@ == all_leaf_links(es, start as int, fanout as nat, (p - start) as nat, seed).1,
        decreases stop - p,
    {
        let ghost before = all_leaf_links(es, start as int, fanout as nat, (p - start) as nat, seed);
        let sigs: Vec<NodeId> = children_copy(b, p as u32, Ghost(es), Ghost(before.0));
        assert(sigs@ == ascending(named_children(es, (start + (p - start + 1) - 1) as u32)));
        let n: usize = if sigs.len() == 0 {
            0
        } else if sigs.len() - 1 < fanout {
            sigs.len() - 1
        } else {
            fanout
        };
        let mut i: usize = 0;
        while i < n
            invariant
                i <= n,
                n == links_wanted(sigs@.len(), fanout as nat),
                b.holds(es, leaf_links(before.0, sigs@, i as nat, before.1).0),
                b.rng@ == leaf_links(before.0, sigs@, i as nat, before.1).1,
            decreases n - i,
        {
            let ghost ls = leaf_links(before.0, sigs@, i as nat, before.1).0;
            let ghost nodes = b.nodes;
            let z: u64 = b.rng.next_u64();
            let dir: Dir = if z & 1 == 0 {
                Dir::Out
            } else {
                Dir::In
            };
            b.edge(sigs[0], sigs[i + 1], dir, Ghost(es), Ghost(ls));
            i += 1;
        }
        p += 1;
    }
}

/// The registers, ascending.
fn find_registers(b: &Builder, Ghost(es): Ghost<Seq<EntryV>>, Ghost(ls): Ghost<Seq<LinkV>>) -> (r:
    Vec<NodeId>)
    requires
        b.holds(es, ls),
    ensures
        r@ == ascending(registers(es)),
{
    let mut out: Vec<NodeId> = Vec::new();
    let mut i: usize = 0;
    while i < b.nodes.len()
        invariant
            i <= b.nodes@.len(),
            b.holds(es, ls),
            increasing(out@),
            forall|k: int| 0 <= k < out@.len() ==> #[trigger] out@[k] < i,
            forall|x: u32|
                out@.contains(x) <==> x < i && es[x as int].kind == NodeKind::Ff,
        decreases b.nodes@.len() - i,
    {
        assert(is_entry(b.nodes@[i as int], es, i as int));
        let ghost before = out@;
        if b.nodes[i].kind == NodeKind::Ff {
            out.push(b.nodes[i].id);
        }
        proof {
            assert forall|x: u32|
                out@.contains(x) <==> x < i + 1 && es[x as int].kind == NodeKind::Ff by {
                if before.contains(x) {
                    let k = choose|k: int| 0 <= k < before.len() && before[k] == x;
                    assert(out@[k] == x);
                }
                if x == i && es[i as int].kind == NodeKind::Ff {
                    assert(out@[before.len() as int] == x);
                }
                if out@.contains(x) {
                    let k = choose|k: int| 0 <= k < out@.len() && out@[k] == x;
                    if k < before.len() {
                        assert(before[k] == x);
                        assert(before.contains(x));
                    }
                }
            }
        }
        i += 1;
    }
    proof {
        lemma_ascending_unique(registers(es), out@);
    }
    out
}

/// Wires the clock to every register.
fn link_clock(b: &mut Builder, regs: &Vec<NodeId>, clock: NodeId, Ghost(es): Ghost<
    Seq<EntryV>,
>, Ghost(ls): Ghost<Seq<LinkV>>)
    requires
        old(b).holds(es, ls),
    ensures
        final(b).holds(es, clock_links(ls, regs@, clock, regs@.len())),
{
    let mut i: usize = 0;
    while i < regs.len()
        invariant
            i <= regs@.len(),
            b.holds(es, clock_links(ls, regs@, clock, i as nat)),
        decreases regs@.len() - i,
    {
        b.edge(regs[i], clock, Dir::Out, Ghost(es), Ghost(clock_links(ls, regs@, clock, i as nat)));
        i += 1;
    }
}

/// The instance half way down: the first of the middle level.
pub open spec fn mid_index(cfg: SynthConfig, branch: nat) -> int {
    let depth = synth_depth(cfg);
    levels(
        if depth / 2 > 0 {
            depth / 2
        } else {
            1
        },
        branch,
    ).1
}

/// Whether a document and the handles into it are what is generated: the clock with its
/// fan-out, an instance half way down, and the first node put into a leaf as the probe.
pub open spec fn is_generated(r: Synth, cfg: SynthConfig, branch: nat) -> bool {
    let es = synth_entries(cfg, branch);
    let tree = levels(synth_depth(cfg), branch).0.len();
    &&& is_synth(r.doc, cfg, branch)
    &&& r.clock_net == body_entries(cfg, branch).len()
    &&& r.clock_fanout == ascending(registers(es)).len()
    &&& r.mid_instance == mid_index(cfg, branch)
    &&& r.mid_scope@ == es[mid_index(cfg, branch)].path
    &&& if fill_count(cfg, tree) > 0 {
        r.probe_path@ == es[tree as int].path && r.probe_source == (0u32, (10 * tree + 1) as usize)
    } else {
        r.probe_path@ == "top"@ && r.probe_source == (0u32, 1usize)
    }
}

/// A valid document of about the size asked for. `branch` is how many instances each
/// instance above the leaves has.
pub fn generate(cfg: &SynthConfig, branch: usize) -> (r: Synth)
    requires
        branch >= 2,
        synth_entries(*cfg, branch as nat).len() < MAX_NODES,
    ensures
        is_generated(r, *cfg, branch as nat),
{
    let depth: usize = if cfg.depth > 0 {
        cfg.depth
    } else {
        1
    };
    let ghost bn = branch as nat;
    let ghost none = Seq::<LinkV>::empty();
    let mut b: Builder = Builder::new(cfg.seed);
    let ghost tree_es = levels(depth as nat, bn).0;
    let ghost start0 = levels(depth as nat, bn).1;
    let ghost body = body_entries(*cfg, bn);
    proof {
        lemma_levels(depth as nat, bn);
        lemma_filled(tree_es, start0, tree_es.len() as int, fill_count(*cfg, tree_es.len()));
        lemma_levels_grow(0, depth as nat, bn);
        let m = if depth / 2 > 0 {
            (depth / 2) as nat
        } else {
            1nat
        };
        lemma_levels(m, bn);
        lemma_levels_grow(m, depth as nat, bn);
    }
    let root: NodeId = b.push(
        NodeKind::Instance,
        "top",
        owned("top"),
        None,
        None,
        Ghost(Seq::empty()),
        Ghost(none),
    );
    assert(Seq::<EntryV>::empty().push(top_entry()) =~= seq![top_entry()]);
    let mid_level: usize = if depth / 2 > 0 {
        depth / 2
    } else {
        1
    };
    let (start, mid) = grow_tree(&mut b, depth, branch, mid_level);
    let tree: usize = b.nodes.len();
    let fill: usize = if cfg.node_count > tree {
        cfg.node_count - tree
    } else {
        0
    };
    fill_leaves(&mut b, start, tree, fill, Ghost(tree_es));
    assert(b.holds(body, none));
    link_leaves(&mut b, start, tree, cfg.fanout, Ghost(body));
    let ghost leaf_ls = all_leaf_links(
        body,
        start as int,
        cfg.fanout as nat,
        (tree - start) as nat,
        cfg.seed,
    ).0;
    let clock_net: NodeId = b.push(
        NodeKind::Net,
        "clk",
        owned("top.clk"),
        Some(root),
        None,
        Ghost(body),
        Ghost(leaf_ls),
    );
    let ghost all = synth_entries(*cfg, bn);
    let regs: Vec<NodeId> = find_registers(&b, Ghost(all), Ghost(leaf_ls));
    link_clock(&mut b, &regs, clock_net, Ghost(all), Ghost(leaf_ls));
    proof {
        assert(is_entry(b.nodes@[mid as int], all, mid as int));
        assert(is_entry(b.nodes@[tree as int], all, tree as int));
        assert(is_entry(b.nodes@[0], all, 0));
    }
    let mid_scope: String = b.nodes[mid].path.clone();
    let (probe_path, probe_source) = if fill > 0 {
        (b.nodes[tree].path.clone(), (0u32, 10 * tree + 1))
    } else {
        (owned("top"), (0u32, 1usize))
    };
    let mut files: Vec<FileEntry> = Vec::new();
    files.push(FileEntry { id: 0, path: owned("synth.sv"), language: None });
    let doc: Document = Document {
        schema_version: 1,
        design: owned("top"),
        generator: Generator { tool: owned("scale-bench"), version: owned("0.1.0") },
        files,
        nodes: b.nodes,
        edges: b.edges,
        enums: Vec::new(),
        source_map: Vec::new(),
        name_refs: Vec::new(),
    };
    Synth {
        doc,
        clock_net,
        clock_fanout: regs.len(),
        mid_scope,
        mid_instance: mid as u32,
        probe_path,
        probe_source,
    }
}

// --- Laws ---------------------------------------------------------------------

/// Whether nodes of one parent have different names, every node but the first has a
/// parent below `bound`, and is an instance.
spec fn tree_like(es: Seq<EntryV>, bound: int) -> bool {
    &&& es.len() > 0
    &&& es[0] == top_entry()
    &&& forall|i: int|
        1 <= i < es.len() ==> (#[trigger] es[i]).parent is Some && es[i].parent->0 < bound
            && es[i].kind == NodeKind::Instance && es[i].name.len() > 0 && es[i].name[0] == 'u'
    &&& forall|i: int, j: int|
        1 <= i < j < es.len() && (#[trigger] es[i]).parent == (#[trigger] es[j]).parent
            ==> es[i].name != es[j].name
}

proof fn lemma_units_tree(es: Seq<EntryV>, p: int, n: nat)
    requires
        0 <= p < es.len(),
        es.len() + n < MAX_NODES,
        tree_like(es, p),
        parents_before(es),
    ensures
        tree_like(units_under(es, p, n), p + 1),
        parents_before(units_under(es, p, n)),
        forall|i: int|
            es.len() <= i < units_under(es, p, n).len() ==> (#[trigger] units_under(
                es,
                p,
                n,
            )[i]).parent == Some(p as u32) && units_under(es, p, n)[i].name == unit_name(
                (i - es.len()) as nat,
            ),
    decreases n,
{
    lemma_units_len(es, p, n);
    if n > 0 {
        lemma_units_tree(es, p, (n - 1) as nat);
        let r = units_under(es, p, (n - 1) as nat);
        let s = units_under(es, p, n);
        lemma_units_len(es, p, (n - 1) as nat);
        let last = r.len() as int;
        assert forall|i: int, j: int|
            1 <= i < j < s.len() && (#[trigger] s[i]).parent == (
            #[trigger] s[j]).parent implies s[i].name != s[j].name by {
            if j == last {
                if i >= es.len() {
                    assert(r[i].name == unit_name((i - es.len()) as nat));
                    if s[i].name == s[j].name {
                        let a = (i - es.len()) as nat;
                        let b = (n - 1) as nat;
                        assert(unit_name(a).skip(1) =~= decimal(a));
                        assert(unit_name(b).skip(1) =~= decimal(b));
                        lemma_decimal_injective(a, b);
                    }
                } else {
                    assert(es[i].parent->0 < p);
                }
            } else {
                assert(s[i] == r[i] && s[j] == r[j]);
            }
        }
        assert forall|i: int| 1 <= i < s.len() implies (#[trigger] s[i]).parent is Some
            && s[i].parent->0 < p + 1 && s[i].kind == NodeKind::Instance && s[i].name.len() > 0
            && s[i].name[0] == 'u' by {
            if i < last {
                assert(s[i] == r[i]);
            }
        }
    }
}

proof fn lemma_grown_tree(es: Seq<EntryV>, start: int, n: nat, branch: nat)
    requires
        0 <= start,
        start + n <= es.len(),
        tree_like(es, start),
        parents_before(es),
        grown(es, start, n, branch).len() < MAX_NODES,
    ensures
        tree_like(grown(es, start, n, branch), start + n),
        parents_before(grown(es, start, n, branch)),
    decreases n,
{
    if n > 0 {
        lemma_grown_prefix(es, start, (n - 1) as nat, n, branch);
        lemma_grown_prefix(es, start, 0, (n - 1) as nat, branch);
        lemma_grown_tree(es, start, (n - 1) as nat, branch);
        let r = grown(es, start, (n - 1) as nat, branch);
        lemma_units_len(r, start + n - 1, branch);
        lemma_units_tree(r, start + n - 1, branch);
    }
}

proof fn lemma_levels_tree(l: nat, branch: nat)
    requires
        branch >= 1,
        levels(l, branch).0.len() < MAX_NODES,
    ensures
        tree_like(levels(l, branch).0, levels(l, branch).1),
        parents_before(levels(l, branch).0),
        l > 0 ==> levels(l, branch).1 > 0,
    decreases l,
{
    if l > 0 {
        lemma_levels_grow((l - 1) as nat, l, branch);
        lemma_levels((l - 1) as nat, branch);
        lemma_levels_tree((l - 1) as nat, branch);
        let (es, start) = levels((l - 1) as nat, branch);
        lemma_grown_tree(es, start, (es.len() - start) as nat, branch);
    }
}

proof fn lemma_leaf_names(k: nat, m: nat, es: Seq<EntryV>, fs: Seq<EntryV>, leaf: int)
    requires
        k < m,
        es[leaf] == fs[leaf],
        leaf_entry(es, leaf, k).name == leaf_entry(fs, leaf, m).name,
    ensures
        (k == 2 && m == 3) || (k == 4 && m == 5),
{
    reveal_strlit("s0");
    reveal_strlit("q_reg");
    reveal_strlit("din");
    reveal_strlit("dout");
    let a = leaf_entry(es, leaf, k).name;
    let b = leaf_entry(fs, leaf, m).name;
    assert(a[0] == b[0]);
    assert(a.len() == b.len());
    if m >= 6 {
        lemma_decimal_nonempty((m - 5) as nat);
        assert(b.skip(1) =~= decimal((m - 5) as nat));
        if k >= 6 {
            assert(a.skip(1) =~= decimal((k - 5) as nat));
            lemma_decimal_injective((k - 5) as nat, (m - 5) as nat);
        } else if k == 0 {
            assert(a.skip(1) =~= decimal(0)) by {
                assert(decimal(0) =~= seq!['0']);
            }
            lemma_decimal_injective(0, (m - 5) as nat);
        }
    }
}

/// What the fill puts at each place.
proof fn lemma_fill_at(es: Seq<EntryV>, start: int, stop: int, n: nat, t: int)
    requires
        0 <= t < n,
        0 <= start < stop,
        stop == es.len(),
        es.len() + n < MAX_NODES,
    ensures
        ({
            let f = leaves_filled(es, start, stop, n);
            let count = stop - start;
            let leaf = start + t % count;
            &&& start <= leaf < stop
            &&& f[es.len() + t].kind == leaf_entry(es, leaf, (t / count) as nat).kind
            &&& f[es.len() + t].name == leaf_entry(es, leaf, (t / count) as nat).name
            &&& f[es.len() + t].path == leaf_entry(es, leaf, (t / count) as nat).path
            &&& f[es.len() + t].parent == Some(leaf as u32)
        }),
    decreases n,
{
    let count = stop - start;
    assert(0 <= t % count < count) by (nonlinear_arith)
        requires
            count > 0,
            t >= 0,
    ;
    lemma_filled(es, start, stop, (n - 1) as nat);
    lemma_filled(es, start, stop, n);
    if t < n - 1 {
        lemma_fill_at(es, start, stop, (n - 1) as nat, t);
    }
}

proof fn lemma_fill_unique(es: Seq<EntryV>, start: int, stop: int, n: nat, t: int, u: int)
    requires
        0 <= t < u < n,
        0 <= start < stop,
        stop == es.len(),
        es.len() + n < MAX_NODES,
        leaves_filled(es, start, stop, n)[es.len() + t].parent == leaves_filled(
            es,
            start,
            stop,
            n,
        )[es.len() + u].parent,
        leaves_filled(es, start, stop, n)[es.len() + t].name == leaves_filled(
            es,
            start,
            stop,
            n,
        )[es.len() + u].name,
    ensures
        ({
            let a = leaves_filled(es, start, stop, n)[es.len() + t];
            let b = leaves_filled(es, start, stop, n)[es.len() + u];
            a.path == b.path && crate::ingest::signal_kind(a.kind) && crate::ingest::signal_kind(
                b.kind,
            )
        }),
{
    let count = stop - start;
    lemma_fill_at(es, start, stop, n, t);
    lemma_fill_at(es, start, stop, n, u);
    let leaf = start + t % count;
    assert(t % count == u % count);
    assert(t / count < u / count) by (nonlinear_arith)
        requires
            count > 0,
            0 <= t < u,
            t % count == u % count,
    ;
    lemma_leaf_names((t / count) as nat, (u / count) as nat, es, es, leaf);
}

proof fn lemma_names(cfg: SynthConfig, branch: nat, j: int, i: int)
    requires
        branch >= 2,
        synth_entries(cfg, branch).len() < MAX_NODES,
        0 <= j < i < synth_entries(cfg, branch).len(),
        synth_entries(cfg, branch)[i].parent == synth_entries(cfg, branch)[j].parent,
        synth_entries(cfg, branch)[i].name == synth_entries(cfg, branch)[j].name,
    ensures
        ({
            let a = synth_entries(cfg, branch)[j];
            let b = synth_entries(cfg, branch)[i];
            a.path == b.path && crate::ingest::signal_kind(a.kind) && crate::ingest::signal_kind(
                b.kind,
            )
        }),
{
    let all = synth_entries(cfg, branch);
    let (tree, start) = levels(synth_depth(cfg), branch);
    let n = fill_count(cfg, tree.len());
    let body = body_entries(cfg, branch);
    lemma_levels(synth_depth(cfg), branch);
    lemma_filled(tree, start, tree.len() as int, n);
    lemma_levels_tree(synth_depth(cfg), branch);
    let len = tree.len() as int;
    reveal_strlit("clk");
    if i < len {
        assert(all[i] == tree[i] && all[j] == tree[j]);
        if j == 0 {
            assert(tree[0].parent is None);
        }
    } else if i < body.len() {
        lemma_fill_at(tree, start, len, n, i - len);
        if j < len {
            assert(all[j] == tree[j]);
            if j > 0 {
                assert(tree[j].parent->0 < start);
            }
        } else {
            lemma_fill_unique(tree, start, len, n, j - len, i - len);
        }
    } else {
        if j < len {
            assert(all[j] == tree[j]);
            if j > 0 {
                assert(tree[j].name[0] == 'u');
                assert("clk"@[0] == 'c');
            }
        } else {
            lemma_fill_at(tree, start, len, n, j - len);
        }
    }
}

/// Whether every link joins nodes before `n`.
spec fn links_below(ls: Seq<LinkV>, n: int) -> bool {
    forall|i: int| 0 <= i < ls.len() ==> (#[trigger] ls[i]).port < n && ls[i].endpoint < n
}

proof fn lemma_leaf_links(links: Seq<LinkV>, sigs: Seq<u32>, n: nat, state: u64, bound: int)
    requires
        links_below(links, bound),
        n < sigs.len() || n == 0,
        forall|k: int| 0 <= k < sigs.len() ==> #[trigger] sigs[k] < bound,
    ensures
        links_below(leaf_links(links, sigs, n, state).0, bound),
    decreases n,
{
    if n > 0 {
        lemma_leaf_links(links, sigs, (n - 1) as nat, state, bound);
    }
}

proof fn lemma_children_bound(es: Seq<EntryV>, p: u32)
    ensures
        forall|k: int|
            0 <= k < ascending(named_children(es, p)).len() ==> #[trigger] ascending(
                named_children(es, p),
            )[k] < es.len(),
{
    let a = named_children(es, p);
    lemma_ascending(a);
    assert forall|k: int| 0 <= k < ascending(a).len() implies #[trigger] ascending(a)[k]
        < es.len() by {
        assert(ascending(a).contains(ascending(a)[k]));
        assert(a.contains(ascending(a)[k]));
    }
}

proof fn lemma_all_leaf_links(es: Seq<EntryV>, start: int, fanout: nat, n: nat, state: u64)
    ensures
        links_below(all_leaf_links(es, start, fanout, n, state).0, es.len() as int),
    decreases n,
{
    if n > 0 {
        lemma_all_leaf_links(es, start, fanout, (n - 1) as nat, state);
        let (r, s) = all_leaf_links(es, start, fanout, (n - 1) as nat, state);
        let p = (start + n - 1) as u32;
        let sigs = ascending(named_children(es, p));
        lemma_children_bound(es, p);
        lemma_leaf_links(r, sigs, links_wanted(sigs.len(), fanout), s, es.len() as int);
    }
}

proof fn lemma_clock_links(links: Seq<LinkV>, regs: Seq<u32>, clock: u32, n: nat)
    requires
        n <= regs.len(),
    ensures
        clock_links(links, regs, clock, n).len() == links.len() + n,
        forall|i: int|
            0 <= i < links.len() ==> #[trigger] clock_links(links, regs, clock, n)[i] == links[i],
        forall|i: int|
            links.len() <= i < links.len() + n ==> (#[trigger] clock_links(
                links,
                regs,
                clock,
                n,
            )[i]).endpoint == clock && clock_links(links, regs, clock, n)[i].port
                == regs[i - links.len()],
    decreases n,
{
    if n > 0 {
        lemma_clock_links(links, regs, clock, (n - 1) as nat);
    }
}

proof fn lemma_registers(es: Seq<EntryV>)
    ensures
        forall|k: int|
            0 <= k < ascending(registers(es)).len() ==> #[trigger] ascending(registers(es))[k]
                < es.len(),
{
    let a = registers(es);
    lemma_ascending(a);
    assert forall|k: int| 0 <= k < ascending(a).len() implies #[trigger] ascending(a)[k]
        < es.len() by {
        assert(ascending(a).contains(ascending(a)[k]));
        assert(a.contains(ascending(a)[k]));
    }
}

/// Every generated document is accepted: it refers to itself soundly and its names are
/// unique, the pairs of a port and its backing net included.
pub proof fn law_generated_documents_are_valid(d: Document, cfg: SynthConfig, branch: nat)
    requires
        branch >= 2,
        synth_entries(cfg, branch).len() < MAX_NODES,
        is_synth(d, cfg, branch),
    ensures
        crate::ingest::fault(d) is None,
{
    let es = synth_entries(cfg, branch);
    let body = body_entries(cfg, branch);
    let (tree, start) = levels(synth_depth(cfg), branch);
    let n = fill_count(cfg, tree.len());
    lemma_levels(synth_depth(cfg), branch);
    lemma_filled(tree, start, tree.len() as int, n);
    lemma_levels_tree(synth_depth(cfg), branch);
    assert forall|i: int| 0 <= i < es.len() && (#[trigger] es[i]).parent is Some implies es[i].parent->0
        < es.len() by {
        if i < tree.len() {
            assert(es[i] == tree[i]);
        } else if i < body.len() {
            lemma_fill_at(tree, start, tree.len() as int, n, i - tree.len());
        }
    }
    let leaf = all_leaf_links(
        body,
        start,
        cfg.fanout as nat,
        (tree.len() - start) as nat,
        cfg.seed,
    ).0;
    lemma_all_leaf_links(body, start, cfg.fanout as nat, (tree.len() - start) as nat, cfg.seed);
    let regs = ascending(registers(es));
    lemma_registers(es);
    lemma_clock_links(leaf, regs, body.len() as u32, regs.len());
    assert(crate::ingest::refers_inside(d)) by {
        assert forall|i: int|
            #![trigger d.nodes@[i]]
            0 <= i < d.nodes@.len() implies (d.nodes@[i].parent is Some ==> d.nodes@[i].parent->0
            < d.nodes@.len()) && forall|k: int|
            0 <= k < d.nodes@[i].children@.len() ==> #[trigger] d.nodes@[i].children@[k]
                < d.nodes@.len() by {
            assert(is_entry(d.nodes@[i], es, i));
            assert(es[i].parent is Some ==> es[i].parent->0 < es.len());
            lemma_children_bound(es, i as u32);
        }
        assert forall|i: int| 0 <= i < d.edges@.len() implies (#[trigger] d.edges@[i]).port
            < d.nodes@.len() && d.edges@[i].endpoint < d.nodes@.len() by {
            let ls = synth_links(cfg, branch);
            assert(is_link(d.edges@[i], ls[i], i));
            if i < leaf.len() {
                assert(ls[i] == leaf[i]);
            }
        }
    }
    assert(crate::ingest::names_unique(d)) by {
        assert forall|i: int, j: int| 0 <= j < i < d.nodes@.len() implies !crate::ingest::clash(
            #[trigger] d.nodes@[j],
            #[trigger] d.nodes@[i],
        ) by {
            assert(is_entry(d.nodes@[i], es, i));
            assert(is_entry(d.nodes@[j], es, j));
            if crate::ingest::homonyms(d.nodes@[j], d.nodes@[i]) {
                lemma_names(cfg, branch, j, i);
            }
        }
    }
    crate::ingest::law_accepted_documents_are_sound(d);
}

/// The recorded fan-out of the clock is the number of edges at it.
pub proof fn law_clock_degree_is_recorded(d: Document, cfg: SynthConfig, branch: nat)
    requires
        branch >= 2,
        synth_entries(cfg, branch).len() < MAX_NODES,
        is_synth(d, cfg, branch),
    ensures
        crate::model::incident(d, body_entries(cfg, branch).len() as u32).len() == ascending(
            registers(synth_entries(cfg, branch)),
        ).len(),
{
    let es = synth_entries(cfg, branch);
    let body = body_entries(cfg, branch);
    let (tree, start) = levels(synth_depth(cfg), branch);
    let leaf = all_leaf_links(
        body,
        start,
        cfg.fanout as nat,
        (tree.len() - start) as nat,
        cfg.seed,
    ).0;
    lemma_all_leaf_links(body, start, cfg.fanout as nat, (tree.len() - start) as nat, cfg.seed);
    lemma_links_len(cfg, branch);
    let regs = ascending(registers(es));
    let clock = body.len() as u32;
    lemma_clock_links(leaf, regs, clock, regs.len());
    let ls = synth_links(cfg, branch);
    let m = crate::model::meeting(d.edges@, set![clock]);
    let q = Seq::new(regs.len(), |k: int| (leaf.len() + k) as u32);
    assert forall|x: u32| m.contains(x) <==> q.contains(x) by {
        if x < d.edges@.len() {
            assert(is_link(d.edges@[x as int], ls[x as int], x as int));
            if x < leaf.len() {
                assert(ls[x as int] == leaf[x as int]);
                assert(leaf[x as int].port < body.len() && leaf[x as int].endpoint < body.len());
            } else {
                assert(ls[x as int].endpoint == clock);
                assert(q[x - leaf.len()] == x);
            }
        }
        if q.contains(x) {
            let k = choose|k: int| 0 <= k < q.len() && q[k] == x;
            assert(x == leaf.len() + k);
        }
    }
    lemma_ascending_unique(m, q);
}

/// Two documents generated for one configuration hold the same nodes and edges.
pub proof fn law_generation_is_deterministic(a: Document, b: Document, cfg: SynthConfig, branch: nat)
    requires
        is_synth(a, cfg, branch),
        is_synth(b, cfg, branch),
    ensures
        a.nodes@.len() == b.nodes@.len(),
        forall|i: int|
            0 <= i < a.nodes@.len() ==> (#[trigger] a.nodes@[i]).path@ == b.nodes@[i].path@
                && a.nodes@[i].name@ == b.nodes@[i].name@ && a.nodes@[i].kind == b.nodes@[i].kind
                && a.nodes@[i].parent == b.nodes@[i].parent && a.nodes@[i].children@
                == b.nodes@[i].children@ && a.nodes@[i].def_range == b.nodes@[i].def_range
                && a.nodes@[i].dir == b.nodes@[i].dir,
        a.edges@ == b.edges@,
{
    let es = synth_entries(cfg, branch);
    let ls = synth_links(cfg, branch);
    assert forall|i: int| 0 <= i < a.nodes@.len() implies (#[trigger] a.nodes@[i]).path@
        == b.nodes@[i].path@ && a.nodes@[i].name@ == b.nodes@[i].name@ && a.nodes@[i].kind
        == b.nodes@[i].kind && a.nodes@[i].parent == b.nodes@[i].parent && a.nodes@[i].children@
        == b.nodes@[i].children@ && a.nodes@[i].def_range == b.nodes@[i].def_range
        && a.nodes@[i].dir == b.nodes@[i].dir by {
        assert(is_entry(a.nodes@[i], es, i));
        assert(is_entry(b.nodes@[i], es, i));
    }
    assert forall|i: int| 0 <= i < a.edges@.len() implies #[trigger] a.edges@[i] == b.edges@[i] by {
        assert(is_link(a.edges@[i], ls[i], i));
        assert(is_link(b.edges@[i], ls[i], i));
    }
    assert(a.edges@ =~= b.edges@);
}

/// Whether every node names a parent before itself.
pub open spec fn parents_before(es: Seq<EntryV>) -> bool {
    forall|i: int|
        0 <= i < es.len() && (#[trigger] es[i]).parent is Some ==> es[i].parent->0 < i
}

// --- Designs ------------------------------------------------------------------

/// The children of the first `n` nodes from `start`.
spec fn children_of_first(es: Seq<EntryV>, start: int, n: nat) -> Set<u32> {
    Set::new(
        |j: u32|
            j < es.len() && es[j as int].parent is Some && start <= es[j as int].parent->0 < start
                + n,
    )
}

proof fn lemma_below_size(s: Set<u32>, n: nat)
    requires
        n <= 0x1_0000_0000,
        forall|x: u32| #[trigger] s.contains(x) ==> x < n,
    ensures
        s.finite(),
        s.len() == ascending(s).len(),
        s.len() <= n,
    decreases n,
{
    lemma_ascending(s);
    let q = ascending(s);
    assert(q.to_set() =~= s);
    assert(q.no_duplicates());
    q.unique_seq_to_set();
    let ints = s.map(|x: u32| x as int);
    assert(ints.subset_of(vstd::set_lib::set_int_range(0, n as int))) by {
        assert forall|y: int| ints.contains(y) implies vstd::set_lib::set_int_range(
            0,
            n as int,
        ).contains(y) by {
            let x = choose|x: u32| s.contains(x) && y == x as int;
            assert(s.contains(x));
        }
    }
    vstd::set_lib::lemma_int_range(0, n as int);
    vstd::set_lib::lemma_len_subset(ints, vstd::set_lib::set_int_range(0, n as int));
    let p = q.map(|i: int, x: u32| x as int);
    assert(p.to_set() =~= ints) by {
        assert forall|y: int| ints.contains(y) implies p.to_set().contains(y) by {
            let x = choose|x: u32| s.contains(x) && y == x as int;
            let k = choose|k: int| 0 <= k < q.len() && q[k] == x;
            assert(p[k] == y);
        }
        assert forall|y: int| p.to_set().contains(y) implies ints.contains(y) by {
            let k = choose|k: int| 0 <= k < p.len() && p[k] == y;
            assert(q.contains(q[k]));
            assert(s.contains(q[k]) && q[k] as int == y);
        }
    }
    assert(p.no_duplicates());
    p.unique_seq_to_set();
}

proof fn lemma_leaf_links_len(links: Seq<LinkV>, sigs: Seq<u32>, n: nat, state: u64)
    ensures
        leaf_links(links, sigs, n, state).0.len() == links.len() + n,
    decreases n,
{
    if n > 0 {
        lemma_leaf_links_len(links, sigs, (n - 1) as nat, state);
    }
}

proof fn lemma_all_leaf_links_len(es: Seq<EntryV>, start: int, fanout: nat, n: nat, state: u64)
    requires
        0 <= start,
        start + n <= u32::MAX,
        es.len() <= u32::MAX,
    ensures
        all_leaf_links(es, start, fanout, n, state).0.len() <= children_of_first(
            es,
            start,
            n,
        ).len() <= es.len(),
        children_of_first(es, start, n).finite(),
    decreases n,
{
    lemma_below_size(children_of_first(es, start, n), es.len());
    if n > 0 {
        let m = (n - 1) as nat;
        lemma_all_leaf_links_len(es, start, fanout, m, state);
        let (r, s) = all_leaf_links(es, start, fanout, m, state);
        let p = (start + n - 1) as u32;
        let kids = named_children(es, p);
        lemma_below_size(kids, es.len());
        let sigs = ascending(kids);
        lemma_leaf_links_len(r, sigs, links_wanted(sigs.len(), fanout), s);
        assert(children_of_first(es, start, m).disjoint(kids));
        assert(children_of_first(es, start, m) + kids =~= children_of_first(es, start, n));
        vstd::set_lib::lemma_set_disjoint_lens(children_of_first(es, start, m), kids);
    }
}

proof fn lemma_links_len(cfg: SynthConfig, branch: nat)
    requires
        branch >= 2,
        synth_entries(cfg, branch).len() < MAX_NODES,
    ensures
        synth_links(cfg, branch).len() < 2 * MAX_NODES,
{
    let (tree, start) = levels(synth_depth(cfg), branch);
    let es = body_entries(cfg, branch);
    lemma_levels(synth_depth(cfg), branch);
    lemma_filled(tree, start, tree.len() as int, fill_count(cfg, tree.len()));
    let n = (tree.len() - start) as nat;
    lemma_all_leaf_links_len(es, start, cfg.fanout as nat, n, cfg.seed);
    let regs = registers(synth_entries(cfg, branch));
    lemma_below_size(regs, synth_entries(cfg, branch).len());
    lemma_clock_links(
        all_leaf_links(es, start, cfg.fanout as nat, n, cfg.seed).0,
        ascending(regs),
        es.len() as u32,
        ascending(regs).len(),
    );
}

proof fn lemma_grown_len(es: Seq<EntryV>, start: int, n: nat, branch: nat)
    ensures
        grown(es, start, n, branch).len() == es.len() + n * branch,
    decreases n,
{
    if n > 0 {
        lemma_grown_len(es, start, (n - 1) as nat, branch);
        lemma_units_len(grown(es, start, (n - 1) as nat, branch), start + n - 1, branch);
        assert(n * branch == (n - 1) * branch + branch) by (nonlinear_arith);
    } else {
        assert(0 * branch == 0);
    }
}

/// Whether the design for a configuration is small enough to be generated.
pub fn fits(cfg: &SynthConfig, branch: usize) -> (r: bool)
    requires
        branch >= 2,
    ensures
        r == (synth_entries(*cfg, branch as nat).len() < MAX_NODES),
{
    let ghost bn = branch as nat;
    let ghost full = levels(synth_depth(*cfg), bn);
    let depth: usize = if cfg.depth > 0 {
        cfg.depth
    } else {
        1
    };
    proof {
        lemma_filled(full.0, full.1, full.0.len() as int, fill_count(*cfg, full.0.len()));
    }
    if cfg.node_count >= MAX_NODES || branch >= MAX_NODES {
        proof {
            lemma_levels_grow(1, synth_depth(*cfg), bn);
            let (es, start) = levels(0, bn);
            lemma_grown_len(es, start, 1, bn);
            assert(1 * bn == bn);
        }
        return false;
    }
    let mut len: usize = 1;
    let mut width: usize = 1;
    let mut l: usize = 0;
    while l < depth
        invariant
            l <= depth,
            depth == synth_depth(*cfg),
            bn == branch,
            2 <= branch < MAX_NODES,
            full == levels(synth_depth(*cfg), bn),
            synth_entries(*cfg, bn).len() > full.0.len(),
            len == levels(l as nat, bn).0.len(),
            width == len - levels(l as nat, bn).1,
            1 <= width <= len < MAX_NODES,
        decreases depth - l,
    {
        assert(0 <= width * branch < 0x1000_0000_0000_0000) by (nonlinear_arith)
            requires
                1 <= width < 429_496_729,
                2 <= branch < 429_496_729,
        ;
        let wide: u64 = width as u64 * branch as u64;
        proof {
            let (es, start) = levels(l as nat, bn);
            lemma_grown_len(es, start, width as nat, bn);
            lemma_levels_grow((l + 1) as nat, synth_depth(*cfg), bn);
            lemma_levels(l as nat, bn);
            lemma_levels((l + 1) as nat, bn);
        }
        if wide + len as u64 >= MAX_NODES as u64 {
            return false;
        }
        width = wide as usize;
        len += width;
        l += 1;
    }
    let whole: usize = if cfg.node_count > len {
        cfg.node_count
    } else {
        len
    };
    whole + 1 < MAX_NODES
}

/// A generated design with its indices, and what was generated. The design has its own
/// copy of the document.
pub fn build_design(cfg: &SynthConfig, branch: usize) -> (r: (Design, Synth))
    requires
        branch >= 2,
        synth_entries(*cfg, branch as nat).len() < MAX_NODES,
    ensures
        r.0.wf(),
        is_synth(r.0.doc, *cfg, branch as nat),
        r.0.wave_index@ == WaveMaps::empty(),
        is_generated(r.1, *cfg, branch as nat),
{
    let synth: Synth = generate(cfg, branch);
    let copy: Synth = generate(cfg, branch);
    proof {
        lemma_links_len(*cfg, branch as nat);
    }
    (Design::from_document(copy.doc), synth)
}

proof fn lemma_climbs(d: Document, id: u32, n: nat)
    requires
        forall|i: int|
            0 <= i < d.nodes@.len() && (#[trigger] d.nodes@[i]).parent is Some
                ==> d.nodes@[i].parent->0 < i,
        id < d.nodes@.len(),
        id <= n,
    ensures
        climbs(d, id, n),
    decreases n,
{
    let x = d.nodes@[id as int];
    if x.parent is Some {
        lemma_climbs(d, x.parent->0, (n - 1) as nat);
    }
}

/// In every generated design the walks up and down the hierarchy end, so that it can be
/// drawn.
pub proof fn law_generated_designs_are_hierarchical(d: Document, cfg: SynthConfig, branch: nat)
    requires
        branch >= 2,
        synth_entries(cfg, branch).len() < MAX_NODES,
        is_synth(d, cfg, branch),
    ensures
        hierarchical(d),
{
    let es = synth_entries(cfg, branch);
    let body = body_entries(cfg, branch);
    let (tree, start) = levels(synth_depth(cfg), branch);
    let n = fill_count(cfg, tree.len());
    lemma_levels(synth_depth(cfg), branch);
    lemma_filled(tree, start, tree.len() as int, n);
    lemma_levels_tree(synth_depth(cfg), branch);
    assert forall|i: int| 0 <= i < es.len() implies (es[i].parent is Some ==> es[i].parent->0
        < i) && (#[trigger] es[i]).kind != NodeKind::GenBlock by {
        if i < tree.len() {
            assert(es[i] == tree[i]);
        } else if i < body.len() {
            lemma_fill_at(tree, start, tree.len() as int, n, i - tree.len());
        }
    }
    assert forall|i: int|
        0 <= i < d.nodes@.len() && (#[trigger] d.nodes@[i]).parent is Some implies d.nodes@[i].parent->0
        < i by {
        assert(is_entry(d.nodes@[i], es, i));
        assert(es[i].kind != NodeKind::GenBlock);
    }
    assert forall|id: u32| #[trigger] climbs(d, id, d.nodes@.len()) by {
        if id < d.nodes@.len() {
            lemma_climbs(d, id, d.nodes@.len());
        }
    }
    assert forall|id: u32| #[trigger] nests(d, id, d.nodes@.len()) by {
        assert forall|k: int|
            #![trigger children_at(d, id)[k]]
            0 <= k < children_at(d, id).len() implies !has_kind(
            d,
            children_at(d, id)[k],
            NodeKind::GenBlock,
        ) by {
            let c = children_at(d, id)[k];
            if c < d.nodes@.len() {
                assert(is_entry(d.nodes@[c as int], es, c as int));
                assert(es[c as int].kind != NodeKind::GenBlock);
            }
        }
    }
}

} // verus!
