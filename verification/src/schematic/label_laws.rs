//! What labels, widths and definition names say.

use crate::model::{enum_of, Document, FileEntry, Node, NodeKind};
use crate::schematic::labels::{
    file_from, file_name, file_stem, label_in, last_slash, module_name, range_in, selected,
    width_in,
};
use crate::text::{
    decimal, first_index, last_index, lemma_last_index_range, tail_segment,
};
use vstd::prelude::*;

verus! {

// --- Labels -------------------------------------------------------------------

/// A path below a scope is labelled by what stands behind the scope.
pub proof fn law_labels_leave_their_scope_out(scope: Seq<char>, rest: Seq<char>)
    ensures
        label_in(scope + seq!['.'] + rest, scope) == rest,
{
    let p = scope + seq!['.'] + rest;
    assert(p.subrange(0, scope.len() as int) =~= scope);
    let q = p.subrange(scope.len() as int, p.len() as int);
    assert(q =~= seq!['.'] + rest);
    assert(q.subrange(0, 1) =~= seq!['.']);
    assert(q.subrange(1, q.len() as int) =~= rest);
}

/// A path elsewhere is labelled by its last segment.
pub proof fn law_other_labels_are_last_segments(path: Seq<char>, scope: Seq<char>)
    requires
        !exists|rest: Seq<char>| path == #[trigger] (scope + seq!['.'] + rest),
    ensures
        !label_in(path, scope).contains('.'),
        path == label_in(path, scope) || exists|a: Seq<char>|
            path == #[trigger] (a + seq!['.'] + label_in(path, scope)),
{
    if path.len() >= scope.len() && path.subrange(0, scope.len() as int) == scope {
        let q = path.subrange(scope.len() as int, path.len() as int);
        if q.len() > 0 && q[0] == '.' {
            let rest = q.subrange(1, q.len() as int);
            assert(path =~= scope + seq!['.'] + rest);
        } else if q.len() > 0 {
            assert(q.subrange(0, 1)[0] == q[0]);
            assert(seq!['.'][0] == '.');
        }
    }
    let t = tail_segment(path);
    assert(label_in(path, scope) == t);
    lemma_last_index_range(path, '.', path.len() as int);
    match last_index(path, '.', path.len() as int) {
        Some(i) => {
            assert(path =~= path.subrange(0, i) + seq!['.'] + t);
            if t.contains('.') {
                let k = choose|k: int| 0 <= k < t.len() && t[k] == '.';
                assert(path[i + 1 + k] == '.');
            }
        },
        None => {
            if t.contains('.') {
                let k = choose|k: int| 0 <= k < t.len() && t[k] == '.';
                assert(path[k] == '.');
            }
        },
    }
}

/// A wire of some bits of a signal has them behind its label.
pub proof fn law_selects_follow_the_label(base: Seq<char>, select: Option<String>)
    ensures
        select is None ==> selected(base, select) == base,
        select is Some ==> selected(base, select) == base + select->0@,
{
}

// --- Widths -------------------------------------------------------------------

proof fn lemma_first(s: Seq<char>, c: char, from: int)
    requires
        0 <= from <= s.len(),
    ensures
        match first_index(s, c, from) {
            Some(i) => from <= i < s.len() && s[i] == c && forall|j: int|
                from <= j < i ==> #[trigger] s[j] != c,
            None => forall|j: int| from <= j < s.len() ==> #[trigger] s[j] != c,
        },
    decreases s.len() - from,
{
    if from < s.len() && s[from] != c {
        lemma_first(s, c, from + 1);
    }
}

/// A type's range is its first pair of brackets, with what is between them.
pub proof fn law_types_name_their_range(a: Seq<char>, inner: Seq<char>, b: Seq<char>)
    requires
        !a.contains('['),
        !inner.contains(']'),
    ensures
        range_in(a + seq!['['] + inner + seq![']'] + b) == Some(seq!['['] + inner + seq![']']),
{
    let s = a + seq!['['] + inner + seq![']'] + b;
    let n = a.len() as int;
    let m = n + 1 + inner.len();
    lemma_first(s, '[', 0);
    assert(s[n] == '[');
    let lo = first_index(s, '[', 0)->0;
    assert(lo == n) by {
        if lo < n {
            assert(s[lo] == a[lo]);
            assert(a.contains(a[lo]));
        }
    }
    lemma_first(s, ']', n);
    assert(s[m] == ']');
    let hi = first_index(s, ']', n)->0;
    assert(hi == m) by {
        if n < hi < m {
            assert(s[hi] == inner[hi - n - 1]);
            assert(inner.contains(inner[hi - n - 1]));
        }
    }
    assert(s.subrange(n, m + 1) =~= seq!['['] + inner + seq![']']);
}

/// A type without brackets names no range.
pub proof fn law_types_without_brackets_name_no_range(s: Seq<char>)
    requires
        !s.contains('[') || !s.contains(']'),
    ensures
        range_in(s) is None,
{
    lemma_first(s, '[', 0);
    match first_index(s, '[', 0) {
        Some(lo) => {
            assert(s.contains('['));
            lemma_first(s, ']', lo);
            if first_index(s, ']', lo) is Some {
                assert(s.contains(s[first_index(s, ']', lo)->0]));
            }
        },
        None => {},
    }
}

/// A pin's width is the range in its type; where there is none, an enumeration of `w` bits is
/// `[w-1:0]` wide, and anything else has no width.
pub proof fn law_widths_follow_the_type(d: Document, t: String)
    ensures
        range_in(t@) is Some ==> width_in(d, Some(t)) == range_in(t@),
        range_in(t@) is None && enum_of(d, t@) is None ==> width_in(d, Some(t)) is None,
        range_in(t@) is None && enum_of(d, t@) is Some && enum_of(d, t@)->0.width > 0 ==> width_in(
            d,
            Some(t),
        ) == Some(
            seq!['['] + decimal((enum_of(d, t@)->0.width - 1) as nat) + seq![':', '0', ']'],
        ),
        width_in(d, None) is None,
{
}

// --- Definitions --------------------------------------------------------------

proof fn lemma_last_slash(s: Seq<char>, n: int)
    requires
        0 <= n <= s.len(),
    ensures
        match last_slash(s, n) {
            Some(i) => 0 <= i < n && (s[i] == '/' || s[i] == '\\') && forall|j: int|
                i < j < n ==> #[trigger] s[j] != '/' && s[j] != '\\',
            None => forall|j: int| 0 <= j < n ==> #[trigger] s[j] != '/' && s[j] != '\\',
        },
    decreases n,
{
    if n > 0 && s[n - 1] != '/' && s[n - 1] != '\\' {
        lemma_last_slash(s, n - 1);
    }
}

proof fn lemma_file_from(files: Seq<FileEntry>, id: u32, from: int)
    requires
        0 <= from <= files.len(),
    ensures
        match file_from(files, id, from) {
            Some(f) => exists|i: int|
                from <= i < files.len() && #[trigger] files[i] == f && f.id == id && forall|j: int|
                    from <= j < i ==> (#[trigger] files[j]).id != id,
            None => forall|j: int| from <= j < files.len() ==> (#[trigger] files[j]).id != id,
        },
    decreases files.len() - from,
{
    if from < files.len() {
        if files[from].id == id {
            assert(files[from] == file_from(files, id, from)->0);
        } else {
            lemma_file_from(files, id, from + 1);
            if file_from(files, id, from + 1) is Some {
                let f = file_from(files, id, from + 1)->0;
                let i = choose|i: int|
                    from + 1 <= i < files.len() && #[trigger] files[i] == f && f.id == id && forall|
                        j: int,
                    |
                        from + 1 <= j < i ==> (#[trigger] files[j]).id != id;
                assert(files[i] == f);
            }
        }
    }
}

/// A file id finds the first file that has it, and none only where no file has it.
pub proof fn law_ids_find_their_file(files: Seq<FileEntry>, id: u32)
    ensures
        match file_from(files, id, 0) {
            Some(f) => exists|i: int|
                0 <= i < files.len() && #[trigger] files[i] == f && f.id == id && forall|j: int|
                    0 <= j < i ==> (#[trigger] files[j]).id != id,
            None => forall|j: int| 0 <= j < files.len() ==> (#[trigger] files[j]).id != id,
        },
{
    lemma_file_from(files, id, 0);
}

/// Whether a text has no separator of directories, of either kind.
pub open spec fn no_slash(s: Seq<char>) -> bool {
    !s.contains('/') && !s.contains('\\')
}

proof fn lemma_stem(dir: Seq<char>, stem: Seq<char>, ext: Seq<char>)
    requires
        dir.len() == 0 || dir.last() == '/' || dir.last() == '\\',
        no_slash(stem),
        no_slash(ext),
        !ext.contains('.'),
    ensures
        file_stem(file_name(dir + stem + seq!['.'] + ext)) == stem,
{
    let s = dir + stem + seq!['.'] + ext;
    let n = dir.len() as int;
    let name = stem + seq!['.'] + ext;
    assert forall|j: int| n <= j < s.len() implies #[trigger] s[j] != '/' && s[j] != '\\' by {
        let k = j - n;
        if k < stem.len() {
            assert(s[j] == stem[k]);
            assert(stem.contains(stem[k]));
        } else if k > stem.len() {
            assert(s[j] == ext[k - stem.len() - 1]);
            assert(ext.contains(ext[k - stem.len() - 1]));
        }
    }
    lemma_last_slash(s, s.len() as int);
    if n > 0 {
        assert(s[n - 1] == dir.last());
    }
    assert(s.subrange(n, s.len() as int) =~= name);
    assert(s.subrange(0, s.len() as int) =~= s);
    assert(file_name(s) =~= name);
    lemma_last_index_range(name, '.', name.len() as int);
    assert(name[stem.len() as int] == '.');
    let i = last_index(name, '.', name.len() as int)->0;
    assert(i == stem.len()) by {
        if i > stem.len() {
            assert(name[i] == ext[i - stem.len() - 1]);
            assert(ext.contains(ext[i - stem.len() - 1]));
        }
    }
    assert(name.subrange(0, i) =~= stem);
}

/// An instance or interface is named after the file that defines it, without its directory
/// and its extension.
pub proof fn law_definitions_are_named_after_their_file(
    d: Document,
    n: Node,
    i: int,
    dir: Seq<char>,
    stem: Seq<char>,
    ext: Seq<char>,
)
    requires
        n.kind == NodeKind::Instance || n.kind == NodeKind::Interface,
        n.def_range is Some,
        0 <= i < d.files@.len(),
        d.files@[i].id == n.def_range->0.file,
        forall|j: int| 0 <= j < i ==> (#[trigger] d.files@[j]).id != n.def_range->0.file,
        d.files@[i].path@ == dir + stem + seq!['.'] + ext,
        dir.len() == 0 || dir.last() == '/' || dir.last() == '\\',
        no_slash(stem),
        no_slash(ext),
        !ext.contains('.'),
    ensures
        module_name(d, n) == Some(stem),
{
    let id = n.def_range->0.file;
    lemma_file_from(d.files@, id, 0);
    if file_from(d.files@, id, 0) is Some {
        let f = file_from(d.files@, id, 0)->0;
        let k = choose|k: int|
            0 <= k < d.files@.len() && #[trigger] d.files@[k] == f && f.id == id && forall|j: int|
                0 <= j < k ==> (#[trigger] d.files@[j]).id != id;
        assert(d.files@[k].id == id);
        assert(k == i);
    }
    lemma_stem(dir, stem, ext);
}

/// Nothing else has the name of a definition.
pub proof fn law_other_nodes_have_no_definition(d: Document, n: Node)
    ensures
        n.kind != NodeKind::Instance && n.kind != NodeKind::Interface ==> module_name(d, n) is None,
        n.def_range is None ==> module_name(d, n) is None,
{
}

} // verus!
