//! Taking a document in: the checks that it refers to itself soundly, and the
//! decisions about derived load caches.

use crate::files::{dir_of, file_name, join_path, name_of, parent_dir, under_dir};
use crate::groups::{lemma_under_push, under, Groups};
use crate::model::{indexable, Design, Document, Edge, Node, NodeKind, WaveMaps};
use crate::text::{all_chars, decimal, owned, push_text, same};
use crate::words::{join, joined_by, Phrase};
use vstd::prelude::*;
use vstd::string::*;

verus! {

broadcast use vstd::string::group_string_axioms;

/// What is wrong with a document.
#[derive(Debug, Clone, Copy, PartialEq, Eq, Structural)]
pub enum ModelError {
    /// The schema version is not supported.
    SchemaVersion { version: u32 },
    /// A node names a parent that is not in the document.
    Parent { node: u32, parent: u32 },
    /// A node names a child that is not in the document.
    Child { node: u32, child: u32 },
    /// An edge names a node that is not in the document.
    Edge { edge: u32 },
    /// The node at an index shares its name with another object of its scope.
    Name { index: usize },
}

impl ModelError {
    /// Whether the node that is at fault, if the fault is a name, is in a document.
    pub open spec fn within(self, d: Document) -> bool {
        self matches ModelError::Name { index } ==> index < d.nodes@.len()
    }
}

/// The first of a node's children, from position `from`, that is out of range.
pub open spec fn bad_child(n: Node, len: nat, from: int) -> Option<u32>
    decreases n.children@.len() - from,
{
    if from < 0 || from >= n.children@.len() {
        None
    } else if n.children@[from] >= len {
        Some(n.children@[from])
    } else {
        bad_child(n, len, from + 1)
    }
}

/// What is wrong with the references of one node.
pub open spec fn node_fault(n: Node, len: nat) -> Option<ModelError> {
    if n.parent is Some && n.parent->0 >= len {
        Some(ModelError::Parent { node: n.id, parent: n.parent->0 })
    } else {
        match bad_child(n, len, 0) {
            Some(c) => Some(ModelError::Child { node: n.id, child: c }),
            None => None,
        }
    }
}

/// The first fault among the nodes from position `from`.
pub open spec fn nodes_fault(nodes: Seq<Node>, from: int) -> Option<ModelError>
    decreases nodes.len() - from,
{
    if from < 0 || from >= nodes.len() {
        None
    } else {
        match node_fault(nodes[from], nodes.len()) {
            Some(e) => Some(e),
            None => nodes_fault(nodes, from + 1),
        }
    }
}

/// The first fault among the edges from position `from`.
pub open spec fn edges_fault(edges: Seq<Edge>, len: nat, from: int) -> Option<ModelError>
    decreases edges.len() - from,
{
    if from < 0 || from >= edges.len() {
        None
    } else if edges[from].port >= len || edges[from].endpoint >= len {
        Some(ModelError::Edge { edge: edges[from].id })
    } else {
        edges_fault(edges, len, from + 1)
    }
}

/// Whether a kind is a port, net or variable.
pub open spec fn signal_kind(k: NodeKind) -> bool {
    k == NodeKind::Port || k == NodeKind::Net || k == NodeKind::Var
}

/// Whether a node is a named declaration.
pub open spec fn declares(n: Node) -> bool {
    (signal_kind(n.kind) || n.kind == NodeKind::Instance) && n.name@.len() > 0
}

/// Whether two declarations have one name in one scope.
pub open spec fn homonyms(a: Node, b: Node) -> bool {
    declares(a) && declares(b) && a.parent == b.parent && a.name@ == b.name@
}

/// Whether two declarations of one name are not one object: a port and the net or
/// variable behind it share their path, anything else clashes.
pub open spec fn clash(a: Node, b: Node) -> bool {
    homonyms(a, b) && !(a.path@ == b.path@ && signal_kind(a.kind) && signal_kind(b.kind))
}

/// Whether the node at `i` clashes with an earlier one.
pub open spec fn clashes_before(nodes: Seq<Node>, i: int) -> bool {
    exists|j: int| 0 <= j < i && clash(#[trigger] nodes[j], nodes[i])
}

/// The first node, from position `from`, that clashes with an earlier one.
pub open spec fn name_fault(nodes: Seq<Node>, from: int) -> Option<ModelError>
    decreases nodes.len() - from,
{
    if from < 0 || from >= nodes.len() {
        None
    } else if clashes_before(nodes, from) {
        Some(ModelError::Name { index: from as usize })
    } else {
        name_fault(nodes, from + 1)
    }
}

/// What is wrong with a document: its version, then its nodes, its edges, its names.
pub open spec fn fault(d: Document) -> Option<ModelError> {
    if d.schema_version != 1 {
        Some(ModelError::SchemaVersion { version: d.schema_version })
    } else {
        match nodes_fault(d.nodes@, 0) {
            Some(e) => Some(e),
            None => match edges_fault(d.edges@, d.nodes@.len(), 0) {
                Some(e) => Some(e),
                None => name_fault(d.nodes@, 0),
            },
        }
    }
}

/// Whether every reference of a document lies within it.
pub open spec fn refers_inside(d: Document) -> bool {
    &&& forall|i: int|
        #![trigger d.nodes@[i]]
        0 <= i < d.nodes@.len() ==> (d.nodes@[i].parent is Some ==> d.nodes@[i].parent->0
            < d.nodes@.len()) && forall|k: int|
            0 <= k < d.nodes@[i].children@.len() ==> #[trigger] d.nodes@[i].children@[k]
                < d.nodes@.len()
    &&& forall|i: int|
        0 <= i < d.edges@.len() ==> (#[trigger] d.edges@[i]).port < d.nodes@.len()
            && d.edges@[i].endpoint < d.nodes@.len()
}

/// Whether within a scope a name stands for one object.
pub open spec fn names_unique(d: Document) -> bool {
    forall|i: int, j: int|
        0 <= j < i < d.nodes@.len() ==> !clash(#[trigger] d.nodes@[j], #[trigger] d.nodes@[i])
}

proof fn lemma_bad_child(n: Node, len: nat, from: int)
    requires
        0 <= from <= n.children@.len(),
    ensures
        bad_child(n, len, from) is None <==> forall|k: int|
            from <= k < n.children@.len() ==> #[trigger] n.children@[k] < len,
    decreases n.children@.len() - from,
{
    if from < n.children@.len() {
        lemma_bad_child(n, len, from + 1);
        if n.children@[from] < len {
            assert forall|k: int| from <= k < n.children@.len() && bad_child(n, len, from)
                is None implies #[trigger] n.children@[k] < len by {
                if k > from {
                    assert(n.children@[k] < len);
                }
            }
        }
    }
}

proof fn lemma_nodes_fault(nodes: Seq<Node>, from: int)
    requires
        0 <= from <= nodes.len(),
    ensures
        nodes_fault(nodes, from) is None <==> forall|i: int|
            from <= i < nodes.len() ==> node_fault(#[trigger] nodes[i], nodes.len()) is None,
    decreases nodes.len() - from,
{
    if from < nodes.len() {
        lemma_nodes_fault(nodes, from + 1);
    }
}

proof fn lemma_edges_fault(edges: Seq<Edge>, len: nat, from: int)
    requires
        0 <= from <= edges.len(),
    ensures
        edges_fault(edges, len, from) is None <==> forall|i: int|
            from <= i < edges.len() ==> (#[trigger] edges[i]).port < len && edges[i].endpoint
                < len,
    decreases edges.len() - from,
{
    if from < edges.len() {
        lemma_edges_fault(edges, len, from + 1);
    }
}

proof fn lemma_name_fault(nodes: Seq<Node>, from: int)
    requires
        0 <= from <= nodes.len(),
    ensures
        name_fault(nodes, from) is None <==> forall|i: int|
            from <= i < nodes.len() ==> !#[trigger] clashes_before(nodes, i),
    decreases nodes.len() - from,
{
    if from < nodes.len() {
        lemma_name_fault(nodes, from + 1);
    }
}

/// A document is accepted exactly when its version is supported, its references lie
/// within it and its names are unique.
pub proof fn law_accepted_documents_are_sound(d: Document)
    ensures
        fault(d) is None <==> d.schema_version == 1 && refers_inside(d) && names_unique(d),
{
    let nodes = d.nodes@;
    lemma_nodes_fault(nodes, 0);
    lemma_edges_fault(d.edges@, nodes.len(), 0);
    lemma_name_fault(nodes, 0);
    assert forall|i: int|
        #![trigger nodes[i]]
        0 <= i < nodes.len() implies (node_fault(nodes[i], nodes.len()) is None <==> (
    nodes[i].parent is Some ==> nodes[i].parent->0 < nodes.len()) && forall|k: int|
        0 <= k < nodes[i].children@.len() ==> #[trigger] nodes[i].children@[k] < nodes.len()) by {
        lemma_bad_child(nodes[i], nodes.len(), 0);
    }
    assert(nodes_fault(nodes, 0) is None && edges_fault(d.edges@, nodes.len(), 0) is None
        <==> refers_inside(d));
    assert(name_fault(nodes, 0) is None <==> names_unique(d)) by {
        if name_fault(nodes, 0) is None {
            assert forall|i: int, j: int| 0 <= j < i < nodes.len() implies !clash(
                #[trigger] nodes[j],
                #[trigger] nodes[i],
            ) by {
                assert(!clashes_before(nodes, i));
            }
        }
        if names_unique(d) {
            assert forall|i: int| 0 <= i < nodes.len() implies !#[trigger] clashes_before(
                nodes,
                i,
            ) by {}
        }
    }
}

spec fn name_hash(s: Seq<char>, parent: Option<u32>) -> u32 {
    ((char_sum(s) + match parent {
        Some(p) => p as int,
        None => 0,
    }) % 0x1_0000_0000) as u32
}

spec fn char_sum(s: Seq<char>) -> int
    decreases s.len(),
{
    if s.len() == 0 {
        0
    } else {
        (char_sum(s.drop_last()) * 31 + s.last() as u32) % 0x1_0000_0000
    }
}

fn hash_name(n: &Node) -> (r: u32)
    ensures
        r == name_hash(n.name@, n.parent),
{
    let mut h: u64 = 0;
    let ghost s = n.name@;
    for c in it: n.name.as_str().chars()
        invariant
            it.seq() == s,
            h == char_sum(s.take(it.index() as int)),
            h < 0x1_0000_0000,
    {
        proof {
            assert(s.take(it.index() + 1).drop_last() =~= s.take(it.index() as int));
        }
        h = (h * 31 + (c as u32) as u64) % 0x1_0000_0000;
    }
    assert(s.take(s.len() as int) =~= s);
    let p: u64 = match n.parent {
        Some(x) => x as u64,
        None => 0,
    };
    ((h + p) % 0x1_0000_0000) as u32
}

fn same_parent(a: Option<u32>, b: Option<u32>) -> (r: bool)
    ensures
        r == (a == b),
{
    match a {
        Some(x) => match b {
            Some(y) => x == y,
            None => false,
        },
        None => b.is_none(),
    }
}

fn is_signal_decl(k: NodeKind) -> (r: bool)
    ensures
        r == signal_kind(k),
{
    match k {
        NodeKind::Port | NodeKind::Net | NodeKind::Var => true,
        _ => false,
    }
}

fn is_decl(n: &Node) -> (r: bool)
    ensures
        r == declares(*n),
{
    (is_signal_decl(n.kind) || n.kind == NodeKind::Instance) && !n.name.as_str().is_empty()
}

fn nodes_clash(a: &Node, b: &Node) -> (r: bool)
    requires
        declares(*a),
        declares(*b),
    ensures
        r == clash(*a, *b),
{
    if !same_parent(a.parent, b.parent) || !same(a.name.as_str(), b.name.as_str()) {
        return false;
    }
    !(same(a.path.as_str(), b.path.as_str()) && is_signal_decl(a.kind) && is_signal_decl(b.kind))
}

/// The first node that clashes with an earlier one.
fn check_name_uniqueness(doc: &Document) -> (r: Result<(), ModelError>)
    ensures
        match r {
            Ok(_) => name_fault(doc.nodes@, 0) is None,
            Err(e) => name_fault(doc.nodes@, 0) == Some(e) && e.within(*doc),
        },
{
    let mut seen: Groups<usize> = Groups::new();
    let mut i: usize = 0;
    while i < doc.nodes.len()
        invariant
            i <= doc.nodes@.len(),
            seen.wf(),
            forall|j: int|
                0 <= j < i && declares(#[trigger] doc.nodes@[j]) ==> under(
                    seen@,
                    name_hash(doc.nodes@[j].name@, doc.nodes@[j].parent),
                ).contains(j as usize),
            forall|h: u32, k: int|
                0 <= k < under(seen@, h).len() ==> (#[trigger] under(seen@, h)[k]) < i && declares(
                    doc.nodes@[under(seen@, h)[k] as int],
                ),
            name_fault(doc.nodes@, 0) == name_fault(doc.nodes@, i as int),
        decreases doc.nodes@.len() - i,
    {
        let n: &Node = &doc.nodes[i];
        let ghost nodes = doc.nodes@;
        if is_decl(n) {
            let h: u32 = hash_name(n);
            let bucket: &[usize] = seen.slice(h);
            let mut k: usize = 0;
            while k < bucket.len()
                invariant
                    k <= bucket@.len(),
                    i < doc.nodes@.len(),
                    declares(doc.nodes@[i as int]),
                    *n == doc.nodes@[i as int],
                    bucket@ == under(seen@, h),
                    forall|h: u32, k: int|
                        0 <= k < under(seen@, h).len() ==> (#[trigger] under(seen@, h)[k]) < i
                            && declares(doc.nodes@[under(seen@, h)[k] as int]),
                    forall|m: int|
                        0 <= m < k ==> !clash(
                            doc.nodes@[(#[trigger] bucket@[m]) as int],
                            doc.nodes@[i as int],
                        ),
                    name_fault(doc.nodes@, 0) == name_fault(doc.nodes@, i as int),
                decreases bucket@.len() - k,
            {
                let j: usize = bucket[k];
                assert(under(seen@, h)[k as int] < i);
                if nodes_clash(&doc.nodes[j], n) {
                    assert(clash(doc.nodes@[j as int], doc.nodes@[i as int]));
                    assert(clashes_before(doc.nodes@, i as int));
                    return Err(ModelError::Name { index: i });
                }
                k += 1;
            }
            let ghost log = seen@;
            proof {
                assert(!clashes_before(nodes, i as int)) by {
                    assert forall|j: int| 0 <= j < i implies !clash(
                        #[trigger] nodes[j],
                        nodes[i as int],
                    ) by {
                        if homonyms(nodes[j], nodes[i as int]) {
                            assert(under(log, h).contains(j as usize));
                            let m = choose|m: int|
                                0 <= m < under(log, h).len() && under(log, h)[m] == j as usize;
                            assert(!clash(nodes[bucket@[m] as int], nodes[i as int]));
                        }
                    }
                }
            }
            seen.push(h, i);
            proof {
                assert forall|j: int|
                    0 <= j < i + 1 && declares(#[trigger] nodes[j]) implies under(
                    seen@,
                    name_hash(nodes[j].name@, nodes[j].parent),
                ).contains(j as usize) by {
                    let g = name_hash(nodes[j].name@, nodes[j].parent);
                    lemma_under_push(log, h, i, g);
                    if j < i {
                        assert(under(log, g).contains(j as usize));
                        let m = choose|m: int|
                            0 <= m < under(log, g).len() && under(log, g)[m] == j as usize;
                        assert(under(seen@, g)[m] == j as usize);
                    } else {
                        assert(under(seen@, g)[under(log, g).len() as int] == i);
                    }
                }
                assert forall|g: u32, k: int| 0 <= k < under(seen@, g).len() implies (
                #[trigger] under(seen@, g)[k]) < i + 1 && declares(
                    nodes[under(seen@, g)[k] as int],
                ) by {
                    lemma_under_push(log, h, i, g);
                    if k < under(log, g).len() {
                        assert(under(log, g)[k] < i);
                    }
                }
            }
        } else {
            proof {
                assert(!clashes_before(nodes, i as int));
            }
        }
        i += 1;
    }
    Ok(())
}

/// The referential checks beyond the shape of a document.
pub fn validate(doc: &Document) -> (r: Result<(), ModelError>)
    ensures
        match r {
            Ok(_) => fault(*doc) is None,
            Err(e) => fault(*doc) == Some(e) && e.within(*doc),
        },
{
    if doc.schema_version != 1 {
        return Err(ModelError::SchemaVersion { version: doc.schema_version });
    }
    let n: usize = doc.nodes.len();
    let mut i: usize = 0;
    while i < n
        invariant
            n == doc.nodes@.len(),
            i <= n,
            doc.schema_version == 1,
            nodes_fault(doc.nodes@, 0) == nodes_fault(doc.nodes@, i as int),
        decreases n - i,
    {
        let node: &Node = &doc.nodes[i];
        if let Some(p) = node.parent {
            if p as usize >= n {
                return Err(ModelError::Parent { node: node.id, parent: p });
            }
        }
        let mut k: usize = 0;
        while k < node.children.len()
            invariant
                k <= node.children@.len(),
                n == doc.nodes@.len(),
                i < n,
                doc.schema_version == 1,
                *node == doc.nodes@[i as int],
                node.parent is Some ==> node.parent->0 < n,
                nodes_fault(doc.nodes@, 0) == nodes_fault(doc.nodes@, i as int),
                bad_child(*node, n as nat, 0) == bad_child(*node, n as nat, k as int),
            decreases node.children@.len() - k,
        {
            if node.children[k] as usize >= n {
                return Err(ModelError::Child { node: node.id, child: node.children[k] });
            }
            k += 1;
        }
        i += 1;
    }
    let mut i: usize = 0;
    while i < doc.edges.len()
        invariant
            n == doc.nodes@.len(),
            i <= doc.edges@.len(),
            doc.schema_version == 1,
            nodes_fault(doc.nodes@, 0) is None,
            edges_fault(doc.edges@, n as nat, 0) == edges_fault(doc.edges@, n as nat, i as int),
        decreases doc.edges@.len() - i,
    {
        let e: &Edge = &doc.edges[i];
        if e.port as usize >= n || e.endpoint as usize >= n {
            return Err(ModelError::Edge { edge: e.id });
        }
        i += 1;
    }
    check_name_uniqueness(doc)
}

// --- Derived caches -----------------------------------------------------------

/// Layout version of the model cache.
pub const RKYV_FORMAT_VERSION: u32 = 1;

/// Layout version of the waveform-index cache.
pub const WAVE_INDEX_FORMAT_VERSION: u32 = 1;

/// Size and modification time of a file, by which a cache is known to be stale.
#[derive(Debug, Clone, Copy, PartialEq, Eq, Structural)]
pub struct SourceMeta {
    pub len: u64,
    pub mtime_ns: u64,
}

/// What a model cache says of itself.
#[derive(Debug, Clone, Copy, PartialEq, Eq, Structural)]
pub struct CacheHeader {
    pub rkyv_format_version: u32,
    pub schema_version: u32,
    pub source: SourceMeta,
}

/// What a waveform-index cache says of itself.
#[derive(Debug, Clone, Copy, PartialEq, Eq, Structural)]
pub struct WaveIndexHeader {
    pub wave_index_format_version: u32,
    pub model: SourceMeta,
    pub trace: SourceMeta,
    pub opts_hash: u64,
}

impl CacheHeader {
    /// The header of a cache written now.
    pub fn current(schema_version: u32, source: SourceMeta) -> (r: CacheHeader)
        ensures
            r == (CacheHeader { rkyv_format_version: RKYV_FORMAT_VERSION, schema_version, source }),
    {
        CacheHeader { rkyv_format_version: RKYV_FORMAT_VERSION, schema_version, source }
    }

    /// Whether the cache stands for the source as it is: both versions are the current
    /// ones and neither size nor time of the source has changed.
    pub open spec fn fresh(self, source: SourceMeta) -> bool {
        self.rkyv_format_version == RKYV_FORMAT_VERSION && self.schema_version == 1 && self.source
            == source
    }
}

impl WaveIndexHeader {
    /// The header of a cache written now.
    pub fn current(model: SourceMeta, trace: SourceMeta, opts_hash: u64) -> (r: WaveIndexHeader)
        ensures
            r == (WaveIndexHeader {
                wave_index_format_version: WAVE_INDEX_FORMAT_VERSION,
                model,
                trace,
                opts_hash,
            }),
    {
        WaveIndexHeader {
            wave_index_format_version: WAVE_INDEX_FORMAT_VERSION,
            model,
            trace,
            opts_hash,
        }
    }

    /// Whether the cache stands for the model, the trace and the options as they are.
    pub open spec fn fresh(self, model: SourceMeta, trace: SourceMeta, opts_hash: u64) -> bool {
        self.wave_index_format_version == WAVE_INDEX_FORMAT_VERSION && self.model == model
            && self.trace == trace && self.opts_hash == opts_hash
    }
}

/// The directory that derived caches of a model go to: one of its own, beside the model.
pub open spec fn cache_dir(model: Seq<char>) -> Seq<char> {
    let dir = match dir_of(model) {
        Some(p) => if p.len() > 0 {
            p
        } else {
            "."@
        },
        None => "."@,
    };
    under_dir(dir, ".schemview_data"@)
}

/// The name of a file, empty where a path has none.
pub open spec fn name_or_empty(path: Seq<char>) -> Seq<char> {
    match name_of(path) {
        Some(s) => s,
        None => Seq::empty(),
    }
}

fn cache_dir_of(model: &str) -> (r: String)
    ensures
        r@ == cache_dir(model@),
{
    let dir: String = match parent_dir(model) {
        Some(p) => if p.as_str().is_empty() {
            owned(".")
        } else {
            p
        },
        None => owned("."),
    };
    join_path(dir.as_str(), ".schemview_data")
}

fn name_text(path: &str) -> (r: String)
    ensures
        r@ == name_or_empty(path@),
{
    match file_name(path) {
        Some(s) => s,
        None => String::new(),
    }
}

/// The cache of a model.
pub fn cache_path_for(model: &str) -> (r: String)
    ensures
        r@ == under_dir(cache_dir(model@), name_or_empty(model@) + ".rkyv"@),
{
    let name: String = Phrase::new(name_text(model).as_str()).add(".rkyv").done();
    join_path(cache_dir_of(model).as_str(), name.as_str())
}

/// The name of the waveform-index cache of a model and a trace, by the names of both files.
pub open spec fn pair_name(model: Seq<char>, trace: Seq<char>) -> Seq<char> {
    model + "."@ + trace + ".waveidx.rkyv"@
}

/// Where the waveform-index cache of a model and a trace is.
pub open spec fn pair_path(model: Seq<char>, trace: Seq<char>) -> Seq<char> {
    under_dir(cache_dir(model), pair_name(name_or_empty(model), name_or_empty(trace)))
}

/// The waveform-index cache of a model and a trace, by the names of both files.
pub fn wave_index_cache_path(model: &str, trace: &str) -> (r: String)
    ensures
        r@ == pair_path(model@, trace@),
{
    let name: String = Phrase::new(name_text(model).as_str()).add(".").add(
        name_text(trace).as_str(),
    ).add(".waveidx.rkyv").done();
    join_path(cache_dir_of(model).as_str(), name.as_str())
}

// --- Loading ------------------------------------------------------------------

/// Why a document that was read makes no design.
#[derive(Debug, Clone, Copy, PartialEq, Eq, Structural)]
pub enum LoadError {
    Fault(ModelError),
    /// There are too many edges to number, or an identifier ends past the offset range.
    Unindexable,
}

fn is_indexable(doc: &Document) -> (r: bool)
    ensures
        r == indexable(*doc),
{
    if doc.edges.len() as u64 > 0x1_0000_0000 {
        return false;
    }
    let mut i: usize = 0;
    while i < doc.name_refs.len()
        invariant
            i <= doc.name_refs@.len(),
            forall|k: int|
                0 <= k < i ==> (#[trigger] doc.name_refs@[k]).offset + doc.name_refs@[k].len
                    <= u32::MAX,
        decreases doc.name_refs@.len() - i,
    {
        if doc.name_refs[i].offset as u64 + doc.name_refs[i].len as u64 > 0xffff_ffff {
            return false;
        }
        i += 1;
    }
    true
}

/// A design from a document that was read: the document is checked, then indexed.
pub fn load(doc: Document) -> (r: Result<Design, LoadError>)
    ensures
        match r {
            Ok(d) => fault(doc) is None && indexable(doc) && d.wf() && d.doc == doc
                && d.wave_index@ == WaveMaps::empty(),
            Err(LoadError::Fault(e)) => fault(doc) == Some(e),
            Err(LoadError::Unindexable) => fault(doc) is None && !indexable(doc),
        },
{
    match validate(&doc) {
        Ok(_) => {},
        Err(e) => {
            return Err(LoadError::Fault(e));
        },
    }
    if !is_indexable(&doc) {
        return Err(LoadError::Unindexable);
    }
    Ok(Design::from_document(doc))
}

/// A design from a document that a fresh cache held: it was checked when it was written.
pub fn load_cached(doc: Document) -> (r: Option<Design>)
    ensures
        match r {
            Some(d) => indexable(doc) && d.wf() && d.doc == doc && d.wave_index@
                == WaveMaps::empty(),
            None => !indexable(doc),
        },
{
    if is_indexable(&doc) {
        Some(Design::from_document(doc))
    } else {
        None
    }
}

// --- Messages -----------------------------------------------------------------

/// The objects among the first `n` nodes that share the name of a node, each as its kind
/// and path.
pub open spec fn namesakes(nodes: Seq<Node>, at: int, n: nat) -> Seq<Seq<char>>
    decreases n,
{
    if n == 0 {
        Seq::empty()
    } else {
        let r = namesakes(nodes, at, (n - 1) as nat);
        let x = nodes[n - 1];
        if homonyms(x, nodes[at]) {
            r.push(x.kind.text() + " "@ + x.path@)
        } else {
            r
        }
    }
}

/// What is wrong with a document, in words.
pub open spec fn fault_text(d: Document, e: ModelError) -> Seq<char> {
    match e {
        ModelError::SchemaVersion { version } => "unsupported schema_version "@ + decimal(
            version as nat,
        ),
        ModelError::Parent { node, parent } => "node "@ + decimal(node as nat)
            + " has out-of-range parent "@ + decimal(parent as nat),
        ModelError::Child { node, child } => "node "@ + decimal(node as nat)
            + " has out-of-range child "@ + decimal(child as nat),
        ModelError::Edge { edge } => "edge "@ + decimal(edge as nat)
            + " references out-of-range node"@,
        ModelError::Name { index } => {
            let all = namesakes(d.nodes@, index as int, d.nodes@.len());
            "name collision in scope: '"@ + d.nodes@[index as int].name@ + "' maps to "@ + decimal(
                all.len(),
            ) + " distinct objects ["@ + joined_by(all, ", "@) + "]"@
        },
    }
}

fn nodes_homonyms(a: &Node, b: &Node) -> (r: bool)
    ensures
        r == homonyms(*a, *b),
{
    is_decl(a) && is_decl(b) && same_parent(a.parent, b.parent) && same(
        a.name.as_str(),
        b.name.as_str(),
    )
}

fn list_namesakes(doc: &Document, at: usize) -> (r: Vec<String>)
    requires
        at < doc.nodes@.len(),
    ensures
        all_chars(r@) == namesakes(doc.nodes@, at as int, doc.nodes@.len()),
{
    let mut out: Vec<String> = Vec::new();
    let mut i: usize = 0;
    assert(all_chars(out@) =~= Seq::empty());
    while i < doc.nodes.len()
        invariant
            i <= doc.nodes@.len(),
            at < doc.nodes@.len(),
            all_chars(out@) == namesakes(doc.nodes@, at as int, i as nat),
        decreases doc.nodes@.len() - i,
    {
        let n: &Node = &doc.nodes[i];
        if nodes_homonyms(n, &doc.nodes[at]) {
            let text: String = Phrase::new(n.kind.name()).add(" ").add(n.path.as_str()).done();
            push_text(&mut out, text.as_str());
        }
        i += 1;
    }
    out
}

impl ModelError {
    /// What is wrong with a document, in words.
    pub fn message(&self, doc: &Document) -> (r: String)
        requires
            self.within(*doc),
        ensures
            r@ == fault_text(*doc, *self),
    {
        match *self {
            ModelError::SchemaVersion { version } => Phrase::new("unsupported schema_version ").num(
                version as u64,
            ).done(),
            ModelError::Parent { node, parent } => Phrase::new("node ").num(node as u64).add(
                " has out-of-range parent ",
            ).num(parent as u64).done(),
            ModelError::Child { node, child } => Phrase::new("node ").num(node as u64).add(
                " has out-of-range child ",
            ).num(child as u64).done(),
            ModelError::Edge { edge } => Phrase::new("edge ").num(edge as u64).add(
                " references out-of-range node",
            ).done(),
            ModelError::Name { index } => {
                let all: Vec<String> = list_namesakes(doc, index);
                assert(all@.len() == all_chars(all@).len());
                Phrase::new("name collision in scope: '").add(doc.nodes[index].name.as_str()).add(
                    "' maps to ",
                ).num(all.len() as u64).add(" distinct objects [").add(
                    join(all.as_slice(), ", ").as_str(),
                ).add("]").done()
            },
        }
    }
}

// --- Laws on caches -----------------------------------------------------------

/// A model cache is served exactly while its source has the size and the time that it had
/// when the cache was written, and only for documents of the supported version.
pub proof fn law_model_cache_follows_its_source(schema: u32, then: SourceMeta, now: SourceMeta)
    ensures
        (CacheHeader {
            rkyv_format_version: RKYV_FORMAT_VERSION,
            schema_version: schema,
            source: then,
        }).fresh(now) <==> schema == 1 && then == now,
{
}

/// A waveform-index cache is served exactly while the model, the trace and the options are
/// what they were when it was written.
pub proof fn law_wave_cache_follows_its_sources(
    model: SourceMeta,
    trace: SourceMeta,
    opts: u64,
    model_now: SourceMeta,
    trace_now: SourceMeta,
    opts_now: u64,
)
    ensures
        (WaveIndexHeader {
            wave_index_format_version: WAVE_INDEX_FORMAT_VERSION,
            model,
            trace,
            opts_hash: opts,
        }).fresh(model_now, trace_now, opts_now) <==> model == model_now && trace == trace_now
            && opts == opts_now,
{
}

/// Whether the names of one model and trace run into those of another: the other model's name
/// is that of the one, a dot and some text, and the one trace's name is this text, a dot and
/// that of the other.
pub open spec fn run_together(
    model: Seq<char>,
    trace: Seq<char>,
    model2: Seq<char>,
    trace2: Seq<char>,
) -> bool {
    exists|x: Seq<char>|
        model2 == #[trigger] (model + "."@ + x) && trace == x + "."@ + trace2
}

proof fn lemma_run_together(a: Seq<char>, b: Seq<char>, a2: Seq<char>, b2: Seq<char>)
    requires
        pair_name(a, b) == pair_name(a2, b2),
        a.len() <= a2.len(),
    ensures
        (a == a2 && b == b2) || run_together(a, b, a2, b2),
{
    reveal_strlit(".");
    let s = pair_name(a, b);
    let n = s.len() - ".waveidx.rkyv"@.len();
    assert(s.subrange(0, n) =~= a + "."@ + b);
    assert(s.subrange(0, n) =~= a2 + "."@ + b2);
    let t = s.subrange(0, n);
    assert(a =~= t.subrange(0, a.len() as int));
    assert(a2 =~= t.subrange(0, a2.len() as int));
    assert(b =~= t.subrange(a.len() + 1int, n));
    assert(b2 =~= t.subrange(a2.len() + 1int, n));
    if a.len() < a2.len() {
        let x = t.subrange(a.len() + 1int, a2.len() as int);
        assert(t[a.len() as int] == '.');
        assert(t[a2.len() as int] == '.');
        assert(a2 =~= a + "."@ + x);
        assert(b =~= x + "."@ + b2);
    }
}

proof fn lemma_names_together(a: Seq<char>, b: Seq<char>, a2: Seq<char>, b2: Seq<char>)
    requires
        run_together(a, b, a2, b2),
    ensures
        pair_name(a, b) == pair_name(a2, b2),
{
    let x = choose|x: Seq<char>| a2 == #[trigger] (a + "."@ + x) && b == x + "."@ + b2;
    assert(pair_name(a, b) =~= pair_name(a2, b2));
}

proof fn lemma_pair_relative(model: Seq<char>, trace: Seq<char>)
    ensures
        !crate::files::absolute(pair_name(name_or_empty(model), name_or_empty(trace))),
{
    reveal_strlit(".");
    crate::files::lemma_name(model);
    let name = name_or_empty(model);
    if name.len() > 0 {
        assert(name.contains(name[0]));
        assert(pair_name(name, name_or_empty(trace))[0] == name[0]);
    } else {
        assert(pair_name(name, name_or_empty(trace))[0] == '.');
    }
}

proof fn lemma_same_place(dir: Seq<char>, p: Seq<char>, q: Seq<char>)
    requires
        !crate::files::absolute(p),
        !crate::files::absolute(q),
    ensures
        under_dir(dir, p) == under_dir(dir, q) <==> p == q,
{
    if under_dir(dir, p) == under_dir(dir, q) {
        let r = under_dir(dir, p);
        let k: nat = if dir.len() == 0 {
            0
        } else if dir.last() == '/' {
            dir.len()
        } else {
            dir.len() + "/"@.len()
        };
        assert(under_dir(dir, p).len() == k + p.len());
        assert(under_dir(dir, q).len() == k + q.len());
        assert(p =~= r.subrange(r.len() - p.len(), r.len() as int));
        assert(q =~= r.subrange(r.len() - p.len(), r.len() as int));
    }
}

proof fn lemma_same_name(a: Seq<char>, b: Seq<char>, a2: Seq<char>, b2: Seq<char>)
    ensures
        pair_name(a, b) == pair_name(a2, b2) <==> (a == a2 && b == b2) || run_together(
            a,
            b,
            a2,
            b2,
        ) || run_together(a2, b2, a, b),
{
    if pair_name(a, b) == pair_name(a2, b2) {
        if a.len() <= a2.len() {
            lemma_run_together(a, b, a2, b2);
        } else {
            lemma_run_together(a2, b2, a, b);
        }
    }
    if run_together(a, b, a2, b2) {
        lemma_names_together(a, b, a2, b2);
    }
    if run_together(a2, b2, a, b) {
        lemma_names_together(a2, b2, a, b);
    }
}

/// Two pairs of a model and a trace, the models in one directory, share a waveform-index
/// cache exactly where both files have the same names, or where the names run into each
/// other at a dot. All other pairs have caches of their own.
pub proof fn law_pairs_have_their_own_cache(
    model: Seq<char>,
    trace: Seq<char>,
    model2: Seq<char>,
    trace2: Seq<char>,
)
    requires
        cache_dir(model) == cache_dir(model2),
    ensures
        ({
            let (a, b) = (name_or_empty(model), name_or_empty(trace));
            let (a2, b2) = (name_or_empty(model2), name_or_empty(trace2));
            pair_path(model, trace) == pair_path(model2, trace2) <==> (a == a2 && b == b2)
                || run_together(a, b, a2, b2) || run_together(a2, b2, a, b)
        }),
{
    let (a, b) = (name_or_empty(model), name_or_empty(trace));
    let (a2, b2) = (name_or_empty(model2), name_or_empty(trace2));
    lemma_pair_relative(model, trace);
    lemma_pair_relative(model2, trace2);
    lemma_same_place(cache_dir(model), pair_name(a, b), pair_name(a2, b2));
    lemma_same_name(a, b, a2, b2);
}

/// One model has a waveform-index cache of its own for every trace with another name.
pub proof fn law_traces_have_their_own_cache(
    model: Seq<char>,
    trace: Seq<char>,
    trace2: Seq<char>,
)
    requires
        name_or_empty(trace) != name_or_empty(trace2),
    ensures
        pair_path(model, trace) != pair_path(model, trace2),
{
    law_pairs_have_their_own_cache(model, trace, model, trace2);
    let a = name_or_empty(model);
    reveal_strlit(".");
    assert forall|x: Seq<char>| a != #[trigger] (a + "."@ + x) by {
        assert(a.len() < (a + "."@ + x).len());
    }
}

} // verus!
