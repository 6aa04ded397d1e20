//! What a document is refused for, where its caches are, and what selections lead to.

use crate::files::under_dir;
use crate::ingest::{
    bad_child, cache_dir, edges_fault, fault, law_accepted_documents_are_sound, name_fault,
    name_or_empty, node_fault, nodes_fault, pair_name, pair_path, ModelError,
};
use crate::model::{Document, Edge, EnumMember, NameClass, Node, NodeKind, Range};
use crate::session::{
    class_word, harness_args, is_link_to, is_location, shown_range, with_flagged, SourceLoc,
    SourceTarget, WaveLink, WaveTarget,
};
use crate::text_laws::{law_paths_are_a_directory_and_a_name, law_paths_lie_under_their_directory};
use vstd::prelude::*;

verus! {

// --- Names --------------------------------------------------------------------

/// Whether a node is a port, a net, a variable or an instance with a name.
pub open spec fn is_named(d: Document, i: int) -> bool {
    0 <= i < d.nodes@.len() && d.nodes@[i].name@.len() > 0 && match d.nodes@[i].kind {
        NodeKind::Port | NodeKind::Net | NodeKind::Var | NodeKind::Instance => true,
        _ => false,
    }
}

/// Whether two nodes have the same name in the same scope.
pub open spec fn share_a_name(d: Document, i: int, j: int) -> bool {
    is_named(d, i) && is_named(d, j) && d.nodes@[i].parent == d.nodes@[j].parent
        && d.nodes@[i].name@ == d.nodes@[j].name@
}

/// Whether two nodes are views of one signal: neither is an instance, and they have one path.
pub open spec fn are_one_signal(d: Document, i: int, j: int) -> bool {
    d.nodes@[i].kind != NodeKind::Instance && d.nodes@[j].kind != NodeKind::Instance
        && d.nodes@[i].path@ == d.nodes@[j].path@
}

/// In a document that is accepted, nodes of one scope that share a name are one signal.
pub proof fn law_accepted_names_stand_for_one_object(d: Document, i: int, j: int)
    requires
        fault(d) is None,
        i != j,
        share_a_name(d, i, j),
    ensures
        are_one_signal(d, i, j),
{
    law_accepted_documents_are_sound(d);
    if i < j {
        assert(!crate::ingest::clash(d.nodes@[i], d.nodes@[j]));
    } else {
        assert(!crate::ingest::clash(d.nodes@[j], d.nodes@[i]));
    }
}

// --- Faults -------------------------------------------------------------------

proof fn lemma_bad_child(n: Node, len: nat, from: int)
    requires
        0 <= from,
    ensures
        bad_child(n, len, from) is Some ==> n.children@.contains(bad_child(n, len, from)->0)
            && bad_child(n, len, from)->0 >= len,
    decreases n.children@.len() - from,
{
    if from < n.children@.len() && n.children@[from] < len {
        lemma_bad_child(n, len, from + 1);
    }
}

proof fn lemma_nodes_fault(nodes: Seq<Node>, from: int)
    requires
        0 <= from,
    ensures
        nodes_fault(nodes, from) is Some ==> exists|i: int|
            0 <= i < nodes.len() && node_fault(#[trigger] nodes[i], nodes.len()) == nodes_fault(
                nodes,
                from,
            ),
    decreases nodes.len() - from,
{
    if from < nodes.len() {
        if node_fault(nodes[from], nodes.len()) is None {
            lemma_nodes_fault(nodes, from + 1);
        }
    }
}

proof fn lemma_edges_fault(edges: Seq<Edge>, len: nat, from: int)
    requires
        0 <= from,
    ensures
        edges_fault(edges, len, from) is Some ==> exists|i: int|
            0 <= i < edges.len() && ((#[trigger] edges[i]).port >= len || edges[i].endpoint >= len)
                && edges_fault(edges, len, from) == Some(ModelError::Edge { edge: edges[i].id }),
    decreases edges.len() - from,
{
    if from < edges.len() {
        if edges[from].port < len && edges[from].endpoint < len {
            lemma_edges_fault(edges, len, from + 1);
        } else {
            assert(edges[from].port >= len || edges[from].endpoint >= len);
        }
    }
}

proof fn lemma_name_fault(nodes: Seq<Node>, from: int)
    requires
        0 <= from,
        nodes.len() <= usize::MAX,
    ensures
        name_fault(nodes, from) is Some ==> exists|i: int|
            0 <= i < nodes.len() && #[trigger] crate::ingest::clashes_before(nodes, i)
                && name_fault(nodes, from) == Some(ModelError::Name { index: i as usize }),
    decreases nodes.len() - from,
{
    if from < nodes.len() {
        if !crate::ingest::clashes_before(nodes, from) {
            lemma_name_fault(nodes, from + 1);
        }
    }
}

/// Whether a node shares its name with a later one without being one signal with it.
pub open spec fn clashes(d: Document, j: int, i: int) -> bool {
    0 <= j < i && share_a_name(d, j, i) && !are_one_signal(d, j, i)
}

/// Whether a node shares its name with an earlier one without being one signal with it.
pub open spec fn has_clash(d: Document, i: int) -> bool {
    exists|j: int| #[trigger] clashes(d, j, i)
}

/// Whether an error tells the truth of a document.
pub open spec fn is_reason(d: Document, e: ModelError) -> bool {
    match e {
        ModelError::SchemaVersion { version } => version == d.schema_version && version != 1,
        ModelError::Parent { node, parent } => parent >= d.nodes@.len() && exists|i: int|
            0 <= i < d.nodes@.len() && (#[trigger] d.nodes@[i]).id == node && d.nodes@[i].parent
                == Some(parent),
        ModelError::Child { node, child } => child >= d.nodes@.len() && exists|i: int|
            0 <= i < d.nodes@.len() && (#[trigger] d.nodes@[i]).id == node
                && d.nodes@[i].children@.contains(child),
        ModelError::Edge { edge } => exists|i: int|
            0 <= i < d.edges@.len() && (#[trigger] d.edges@[i]).id == edge && (d.edges@[i].port
                >= d.nodes@.len() || d.edges@[i].endpoint >= d.nodes@.len()),
        ModelError::Name { index } => has_clash(d, index as int),
    }
}

proof fn lemma_name_reason(d: Document, j: int, index: usize)
    requires
        0 <= j < index < d.nodes@.len(),
        crate::ingest::clash(d.nodes@[j], d.nodes@[index as int]),
    ensures
        is_reason(d, ModelError::Name { index }),
{
    assert(clashes(d, j, index as int));
    assert(has_clash(d, index as int));
}

/// What a document is refused for is so: another version than the first, a node with a parent
/// or child that is not in the document, an edge with such an end, or a node that shares its
/// name with an earlier one of its scope without being one signal with it.
pub proof fn law_documents_are_refused_for_a_reason(d: Document)
    requires
        d.nodes@.len() <= usize::MAX,
    ensures
        d.schema_version != 1 ==> fault(d) == Some(
            ModelError::SchemaVersion { version: d.schema_version },
        ),
        fault(d) is Some ==> is_reason(d, fault(d)->0),
{
    let nodes = d.nodes@;
    lemma_nodes_fault(nodes, 0);
    lemma_edges_fault(d.edges@, nodes.len(), 0);
    lemma_name_fault(nodes, 0);
    if d.schema_version == 1 {
        if nodes_fault(nodes, 0) is Some {
            let i = choose|i: int|
                0 <= i < nodes.len() && node_fault(#[trigger] nodes[i], nodes.len())
                    == nodes_fault(nodes, 0);
            lemma_bad_child(nodes[i], nodes.len(), 0);
            assert(fault(d) == node_fault(nodes[i], nodes.len()));
            match fault(d) {
                Some(ModelError::Parent { node, parent }) => {
                    assert(d.nodes@[i].id == node && d.nodes@[i].parent == Some(parent));
                },
                Some(ModelError::Child { node, child }) => {
                    assert(d.nodes@[i].id == node && d.nodes@[i].children@.contains(child));
                },
                _ => {},
            }
            assert(is_reason(d, fault(d)->0));
        } else if edges_fault(d.edges@, nodes.len(), 0) is Some {
            let i = choose|i: int|
                0 <= i < d.edges@.len() && ((#[trigger] d.edges@[i]).port >= nodes.len()
                    || d.edges@[i].endpoint >= nodes.len()) && edges_fault(
                    d.edges@,
                    nodes.len(),
                    0,
                ) == Some(ModelError::Edge { edge: d.edges@[i].id });
            assert(fault(d) == Some(ModelError::Edge { edge: d.edges@[i].id }));
            assert(is_reason(d, fault(d)->0));
        } else if name_fault(nodes, 0) is Some {
            let i = choose|i: int|
                0 <= i < nodes.len() && #[trigger] crate::ingest::clashes_before(nodes, i)
                    && name_fault(nodes, 0) == Some(ModelError::Name { index: i as usize });
            let j = choose|j: int|
                0 <= j < i && crate::ingest::clash(#[trigger] nodes[j], nodes[i]);
            assert(fault(d) == Some(ModelError::Name { index: i as usize }));
            lemma_name_reason(d, j, i as usize);
            assert(is_reason(d, fault(d)->0));
        }
    }
}

// --- Caches -------------------------------------------------------------------

proof fn lemma_cache_dir(dir: Seq<char>, name: Seq<char>)
    requires
        dir.len() > 0,
        dir.last() != '/',
        !(dir.len() > 1 && dir.last() == '.' && dir[dir.len() - 2] == '/'),
        name.len() > 0,
        !name.contains('/'),
        name != "."@,
        name != ".."@,
    ensures
        cache_dir(dir + seq!['/'] + name) == dir + seq!['/'] + ".schemview_data"@,
        name_or_empty(dir + seq!['/'] + name) == name,
{
    law_paths_are_a_directory_and_a_name(dir, name);
    reveal_strlit(".schemview_data");
    law_paths_lie_under_their_directory(dir, ".schemview_data"@);
}

/// The cache of a model is in a directory of its own beside the model, and named after it.
pub proof fn law_caches_lie_beside_their_model(dir: Seq<char>, name: Seq<char>)
    requires
        dir.len() > 0,
        dir.last() != '/',
        !(dir.len() > 1 && dir.last() == '.' && dir[dir.len() - 2] == '/'),
        name.len() > 0,
        !name.contains('/'),
        name != "."@,
        name != ".."@,
    ensures
        ({
            let model = dir + seq!['/'] + name;
            under_dir(cache_dir(model), name_or_empty(model) + ".rkyv"@) == dir
                + "/.schemview_data/"@ + name + ".rkyv"@
        }),
{
    lemma_cache_dir(dir, name);
    let at = dir + seq!['/'] + ".schemview_data"@;
    reveal_strlit(".schemview_data");
    reveal_strlit("/.schemview_data/");
    reveal_strlit(".rkyv");
    let file = name + ".rkyv"@;
    assert(file[0] == name[0]);
    assert(name.contains(name[0]));
    assert(at.last() == 'a');
    law_paths_lie_under_their_directory(at, file);
    assert(seq!['/'] + ".schemview_data"@ + seq!['/'] =~= "/.schemview_data/"@);
    assert(at + seq!['/'] + file =~= dir + "/.schemview_data/"@ + name + ".rkyv"@);
}

/// The waveform index of a model and a trace is there too, and named after both.
pub proof fn law_wave_caches_lie_beside_their_model(
    dir: Seq<char>,
    name: Seq<char>,
    place: Seq<char>,
    trace: Seq<char>,
)
    requires
        dir.len() > 0,
        dir.last() != '/',
        !(dir.len() > 1 && dir.last() == '.' && dir[dir.len() - 2] == '/'),
        name.len() > 0,
        !name.contains('/'),
        name != "."@,
        name != ".."@,
        trace.len() > 0,
        !trace.contains('/'),
        trace != "."@,
        trace != ".."@,
    ensures
        pair_path(dir + seq!['/'] + name, place + seq!['/'] + trace) == dir
            + "/.schemview_data/"@ + name + "."@ + trace + ".waveidx.rkyv"@,
{
    lemma_cache_dir(dir, name);
    law_paths_are_a_directory_and_a_name(place, trace);
    let at = dir + seq!['/'] + ".schemview_data"@;
    reveal_strlit(".schemview_data");
    reveal_strlit("/.schemview_data/");
    reveal_strlit(".");
    reveal_strlit(".waveidx.rkyv");
    let file = pair_name(name, trace);
    assert(file[0] == name[0]);
    assert(name.contains(name[0]));
    assert(at.last() == 'a');
    law_paths_lie_under_their_directory(at, file);
    assert(seq!['/'] + ".schemview_data"@ + seq!['/'] =~= "/.schemview_data/"@);
    assert(at + seq!['/'] + file =~= dir + "/.schemview_data/"@ + name + "."@ + trace
        + ".waveidx.rkyv"@);
}

// --- Words --------------------------------------------------------------------

/// Whether a word is that of a class of identifiers.
pub open spec fn says_class(w: Seq<char>, c: NameClass) -> bool {
    &&& w == "module"@ <==> c == NameClass::Module
    &&& w == "instance"@ <==> c == NameClass::Instance
    &&& w == "port"@ <==> c == NameClass::Port
    &&& w == "signal"@ <==> c == NameClass::Signal
    &&& w == "param"@ <==> c == NameClass::Param
    &&& w == "type"@ <==> c == NameClass::Type
    &&& w == "enum-member"@ <==> c == NameClass::EnumMember
    &&& w == "function"@ <==> c == NameClass::Function
    &&& w == "interface"@ <==> c == NameClass::Interface
    &&& w == "modport"@ <==> c == NameClass::Modport
    &&& w == "genvar"@ <==> c == NameClass::Genvar
}

/// Each class of identifiers has its own word.
pub proof fn law_classes_have_their_words(c: NameClass)
    ensures
        says_class(class_word(c), c),
{
    reveal_strlit("module");
    reveal_strlit("instance");
    reveal_strlit("port");
    reveal_strlit("signal");
    reveal_strlit("param");
    reveal_strlit("type");
    reveal_strlit("enum-member");
    reveal_strlit("function");
    reveal_strlit("interface");
    reveal_strlit("modport");
    reveal_strlit("genvar");
    let w = class_word(c);
    assert(w[0] == w[0] && w[1] == w[1] && w[2] == w[2]);
    assert("module"@[2] == 'd' && "modport"@[3] == 'p' && "module"@[3] == 'u');
    assert("instance"@[2] == 's' && "interface"@[2] == 't');
    assert("port"@[1] == 'o' && "param"@[1] == 'a');
    assert("signal"@[0] == 's' && "type"@[0] == 't' && "enum-member"@[0] == 'e');
    assert("function"@[0] == 'f' && "genvar"@[0] == 'g' && "modport"@[0] == 'm');
    assert("module"@[0] == 'm' && "instance"@[0] == 'i' && "interface"@[0] == 'i');
    assert("port"@[0] == 'p' && "param"@[0] == 'p');
}

// --- Responses ----------------------------------------------------------------

/// A location says where its range starts and ends, and in which file.
pub proof fn law_locations_say_where_ranges_are(l: SourceLoc, d: Document, r: Range)
    requires
        is_location(l, d, r),
    ensures
        l.file == r.file,
        l.line == r.start.line && l.col == r.start.col && l.offset == r.start.offset,
        l.end_line == r.end.line && l.end_offset == r.end.offset,
        forall|i: int|
            0 <= i < d.files@.len() && (#[trigger] d.files@[i]).id == r.file && (forall|j: int|
                0 <= j < i ==> (#[trigger] d.files@[j]).id != r.file) ==> l.path@
                == d.files@[i].path@,
        (forall|i: int| 0 <= i < d.files@.len() ==> (#[trigger] d.files@[i]).id != r.file)
            ==> l.path@.len() == 0,
{
    crate::schematic::label_laws::law_ids_find_their_file(d.files@, r.file);
    match crate::schematic::labels::file_from(d.files@, r.file, 0) {
        Some(f) => {
            let k = choose|k: int|
                0 <= k < d.files@.len() && #[trigger] d.files@[k] == f && f.id == r.file && forall|
                    j: int,
                |
                    0 <= j < k ==> (#[trigger] d.files@[j]).id != r.file;
            assert(d.files@[k].id == r.file);
            assert forall|i: int|
                0 <= i < d.files@.len() && (#[trigger] d.files@[i]).id == r.file && (forall|j: int|
                    0 <= j < i ==> (#[trigger] d.files@[j]).id != r.file) implies l.path@
                == d.files@[i].path@ by {
                assert(i == k);
            }
        },
        None => {},
    }
}

/// A selection shows its definition where it has one, and else its instantiation.
pub proof fn law_selections_show_their_definition(t: SourceTarget)
    ensures
        t.def is Some ==> shown_range(t) == t.def,
        t.def is None ==> shown_range(t) == t.inst,
{
}

/// A link to a signal of the trace names it, with the members of the node's enumeration; a
/// link of a node that is not in the trace names nothing.
pub proof fn law_links_name_their_signal(
    l: WaveLink,
    d: Document,
    anchor: u32,
    w: WaveTarget,
    signal_ref: u32,
)
    requires
        is_link_to(l, d, anchor, w, signal_ref),
    ensures
        l.in_trace <==> w is Linked,
        w matches WaveTarget::Linked { var_ref, full_name } ==> l.var_ref == var_ref
            && l.signal_ref == signal_ref && l.full_name@ == full_name@,
        l.enum_map is Some ==> anchor < d.nodes@.len() && d.nodes@[anchor as int].type_ is Some
            && exists|i: int|
            0 <= i < d.enums@.len() && (#[trigger] d.enums@[i]).0@
                == d.nodes@[anchor as int].type_->0@ && d.enums@[i].1.members@ == l.enum_map->0@,
        w is Linked && l.enum_map is None && anchor < d.nodes@.len()
            && d.nodes@[anchor as int].type_ is Some ==> forall|i: int|
            0 <= i < d.enums@.len() ==> (#[trigger] d.enums@[i]).0@
                != d.nodes@[anchor as int].type_->0@,
{
    if anchor < d.nodes@.len() && d.nodes@[anchor as int].type_ is Some {
        let t = d.nodes@[anchor as int].type_->0@;
        crate::source_laws::law_types_have_their_enumeration(d, t);
    }
}

// --- Elaboration --------------------------------------------------------------

/// Whether the value with index `k` stands behind its flag, the pairs starting at `from`.
spec fn flag_at(
    args: Seq<Seq<char>>,
    from: nat,
    k: int,
    flag: Seq<char>,
    values: Seq<Seq<char>>,
) -> bool {
    args[from + 2 * k] == flag && args[from + 2 * k + 1] == values[k]
}

proof fn lemma_flagged(
    out: Seq<Seq<char>>,
    flag: Seq<char>,
    values: Seq<Seq<char>>,
    n: nat,
)
    requires
        n <= values.len(),
    ensures
        ({
            let r = with_flagged(out, flag, values, n);
            &&& r.len() == out.len() + 2 * n
            &&& forall|k: int| 0 <= k < out.len() ==> #[trigger] r[k] == out[k]
            &&& forall|k: int| 0 <= k < n ==> #[trigger] flag_at(r, out.len(), k, flag, values)
        }),
    decreases n,
{
    if n > 0 {
        lemma_flagged(out, flag, values, (n - 1) as nat);
        let q = with_flagged(out, flag, values, (n - 1) as nat);
        let r = with_flagged(out, flag, values, n);
        assert(r == q.push(flag).push(values[n - 1]));
        assert forall|k: int| 0 <= k < out.len() implies #[trigger] r[k] == out[k] by {
            assert(q[k] == out[k]);
        }
        assert forall|k: int| 0 <= k < n implies #[trigger] flag_at(
            r,
            out.len(),
            k,
            flag,
            values,
        ) by {
            if k < n - 1 {
                assert(flag_at(q, out.len(), k, flag, values));
                assert(r[out.len() + 2 * k] == q[out.len() + 2 * k]);
                assert(r[out.len() + 2 * k + 1] == q[out.len() + 2 * k + 1]);
            }
        }
    }
}

/// Whether arguments name a value behind a flag.
pub open spec fn flag_names(args: Seq<Seq<char>>, flag: Seq<char>, value: Seq<char>) -> bool {
    exists|k: int| 0 <= k < args.len() - 1 && #[trigger] args[k] == flag && args[k + 1] == value
}

/// The elaborator is asked for the top and the file list, for each directory to look in, for
/// primitives, for each high-level source where there are any, and to write to its output.
pub proof fn law_elaborations_name_all_they_need(
    filelist: Seq<char>,
    top: Seq<char>,
    incdirs: Seq<Seq<char>>,
    hls: Seq<Seq<char>>,
    k: int,
)
    ensures
        ({
            let args = harness_args(filelist, top, incdirs, hls);
            &&& flag_names(args, "--top"@, top)
            &&& flag_names(args, "-f"@, filelist)
            &&& flag_names(args, "-o"@, "-"@)
            &&& args.contains("--gate-level"@)
            &&& 0 <= k < incdirs.len() ==> flag_names(args, "-I"@, incdirs[k])
            &&& 0 <= k < hls.len() ==> flag_names(args, "--hls-src"@, hls[k]) && args.contains(
                "--hls-map"@,
            )
        }),
{
    let head = seq!["--top"@, top, "-f"@, filelist];
    let a = with_flagged(head, "-I"@, incdirs, incdirs.len());
    lemma_flagged(head, "-I"@, incdirs, incdirs.len());
    let b = a.push("--gate-level"@);
    let m = b.push("--hls-map"@);
    let c = with_flagged(m, "--hls-src"@, hls, hls.len());
    lemma_flagged(m, "--hls-src"@, hls, hls.len());
    let args = harness_args(filelist, top, incdirs, hls);
    let mid = if hls.len() > 0 {
        c
    } else {
        b
    };
    assert forall|i: int| 0 <= i < b.len() implies #[trigger] args[i] == b[i] by {
        if hls.len() > 0 {
            assert(c[i] == m[i]);
        }
    }
    assert(args[0] == b[0] && b[0] == a[0] && a[0] == head[0]);
    assert(args[1] == b[1] && b[1] == a[1] && a[1] == head[1]);
    assert(args[2] == b[2] && b[2] == a[2] && a[2] == head[2]);
    assert(args[3] == b[3] && b[3] == a[3] && a[3] == head[3]);
    assert(flag_names(args, "--top"@, top));
    assert(flag_names(args, "-f"@, filelist));
    assert(args[a.len() as int] == "--gate-level"@);
    assert(args[mid.len() as int] == "-o"@ && args[mid.len() as int + 1] == "-"@);
    assert(flag_names(args, "-o"@, "-"@));
    if 0 <= k < incdirs.len() {
        let at = head.len() + 2 * k;
        assert(flag_at(a, head.len(), k, "-I"@, incdirs));
        assert(args[at] == b[at] && args[at + 1] == b[at + 1]);
        assert(flag_names(args, "-I"@, incdirs[k]));
    }
    if 0 <= k < hls.len() {
        let at = m.len() + 2 * k;
        assert(flag_at(c, m.len(), k, "--hls-src"@, hls));
        assert(args[at] == c[at] && args[at + 1] == c[at + 1]);
        assert(c[b.len() as int] == m[b.len() as int]);
        assert(args[b.len() as int] == "--hls-map"@);
        assert(flag_names(args, "--hls-src"@, hls[k]));
    }
}

} // verus!
