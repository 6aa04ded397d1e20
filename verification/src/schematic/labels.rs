//! Labels, widths and definition names.

use crate::model::{enum_of, Design, Document, EnumDef, FileEntry, Node, NodeKind};
use crate::text::{
    chars_of, decimal, decimal_of, find_from, first_index, joined, last_index, last_segment,
    lemma_first_index_range, lemma_last_index_range, owned, rfind, strip_prefix, tail_segment,
    without_prefix,
};
use vstd::prelude::*;
use vstd::string::*;

verus! {

broadcast use vstd::string::group_string_axioms;

/// A path as seen from a scope: what follows `<scope>.`, or the last segment.
pub open spec fn label_in(path: Seq<char>, scope: Seq<char>) -> Seq<char> {
    match without_prefix(path, scope) {
        Some(rest) => match without_prefix(rest, seq!['.']) {
            Some(r) => r,
            None => tail_segment(path),
        },
        None => tail_segment(path),
    }
}

/// A label with the bit-select of an edge behind it.
pub open spec fn selected(base: Seq<char>, select: Option<String>) -> Seq<char> {
    match select {
        Some(s) => base + s@,
        None => base,
    }
}

/// The first bracketed range in a type string.
pub open spec fn range_in(type_: Seq<char>) -> Option<Seq<char>> {
    match first_index(type_, '[', 0) {
        Some(lo) => match first_index(type_, ']', lo) {
            Some(hi) => Some(type_.subrange(lo, hi + 1)),
            None => None,
        },
        None => None,
    }
}

/// The range of an enum of the given width.
pub open spec fn enum_range(width: u32) -> Seq<char> {
    seq!['['] + decimal(
        if width > 0 {
            (width - 1) as nat
        } else {
            0
        },
    ) + seq![':', '0', ']']
}

/// The bit range of a pin: the range in its type, or that of its enum.
pub open spec fn width_in(d: Document, type_: Option<String>) -> Option<Seq<char>> {
    match type_ {
        Some(t) => match range_in(t@) {
            Some(r) => Some(r),
            None => match enum_of(d, t@) {
                Some(e) => Some(enum_range(e.width)),
                None => None,
            },
        },
        None => None,
    }
}

/// Index of the last slash of either kind among the first `n` characters.
pub open spec fn last_slash(s: Seq<char>, n: int) -> Option<int>
    decreases n,
{
    if n <= 0 || n > s.len() {
        None
    } else if s[n - 1] == '/' || s[n - 1] == '\\' {
        Some(n - 1)
    } else {
        last_slash(s, n - 1)
    }
}

/// The file name at the end of a path, without directories.
pub open spec fn file_name(path: Seq<char>) -> Seq<char> {
    match last_slash(path, path.len() as int) {
        Some(i) => path.subrange(i + 1, path.len() as int),
        None => path,
    }
}

/// A file name without its extension.
pub open spec fn file_stem(name: Seq<char>) -> Seq<char> {
    match last_index(name, '.', name.len() as int) {
        Some(i) => name.subrange(0, i),
        None => name,
    }
}

/// The path of the first of the files, from position `from`, that has id `id`.
pub open spec fn file_from(files: Seq<FileEntry>, id: u32, from: int) -> Option<FileEntry>
    decreases files.len() - from,
{
    if from < 0 || from >= files.len() {
        None
    } else if files[from].id == id {
        Some(files[from])
    } else {
        file_from(files, id, from + 1)
    }
}

/// The definition type of an instance or interface: the stem of the file that
/// defines it.
pub open spec fn module_name(d: Document, n: Node) -> Option<Seq<char>> {
    if n.kind != NodeKind::Instance && n.kind != NodeKind::Interface {
        None
    } else {
        match n.def_range {
            Some(r) => match file_from(d.files@, r.file, 0) {
                Some(f) => Some(file_stem(file_name(f.path@))),
                None => None,
            },
            None => None,
        }
    }
}

pub proof fn lemma_last_slash_range(s: Seq<char>, n: int)
    requires
        0 <= n <= s.len(),
    ensures
        last_slash(s, n) matches Some(i) ==> 0 <= i < n,
    decreases n,
{
    if n > 0 && s[n - 1] != '/' && s[n - 1] != '\\' {
        lemma_last_slash_range(s, n - 1);
    }
}

/// A path as seen from a scope.
pub fn relative_to(path: &str, scope: &str) -> (r: String)
    ensures
        r@ == label_in(path@, scope@),
{
    proof {
        reveal_strlit(".");
        assert("."@ =~= seq!['.']);
    }
    if let Some(rest) = strip_prefix(path, scope) {
        if let Some(r) = strip_prefix(rest, ".") {
            return owned(r);
        }
    }
    owned(last_segment(path))
}

/// A label with the bit-select of an edge behind it.
pub fn with_select(base: String, select: &Option<String>) -> (r: String)
    ensures
        r@ == selected(base@, *select),
{
    match select {
        Some(s) => joined(base.as_str(), s.as_str()),
        None => base,
    }
}

/// The first of the files that has id `id`.
pub fn file_by_id(files: &Vec<FileEntry>, id: u32) -> (r: Option<&FileEntry>)
    ensures
        match r {
            Some(f) => file_from(files@, id, 0) == Some(*f),
            None => file_from(files@, id, 0) is None,
        },
{
    let mut i: usize = 0;
    while i < files.len()
        invariant
            i <= files@.len(),
            file_from(files@, id, 0) == file_from(files@, id, i as int),
        decreases files@.len() - i,
    {
        if files[i].id == id {
            return Some(&files[i]);
        }
        i += 1;
    }
    None
}

fn base_name(path: &str) -> (r: &str)
    ensures
        r@ == file_name(path@),
{
    let cs: Vec<char> = chars_of(path);
    let mut n: usize = cs.len();
    proof {
        lemma_last_slash_range(path@, path@.len() as int);
    }
    while n > 0
        invariant
            n <= cs@.len(),
            cs@ == path@,
            last_slash(path@, path@.len() as int) == last_slash(path@, n as int),
        decreases n,
    {
        if cs[n - 1] == '/' || cs[n - 1] == '\\' {
            return path.substring_char(n, cs.len());
        }
        n -= 1;
    }
    path
}

fn stem(name: &str) -> (r: &str)
    ensures
        r@ == file_stem(name@),
{
    let cs: Vec<char> = chars_of(name);
    proof {
        lemma_last_index_range(name@, '.', name@.len() as int);
    }
    match rfind(cs.as_slice(), '.') {
        Some(i) => name.substring_char(0, i),
        None => name,
    }
}

/// The definition type of an instance or interface.
pub fn module_of(design: &Design, node: &Node) -> (r: Option<String>)
    ensures
        crate::text::opt_chars(r) == module_name(design.doc, *node),
{
    if node.kind != NodeKind::Instance && node.kind != NodeKind::Interface {
        return None;
    }
    match &node.def_range {
        Some(range) => match file_by_id(&design.doc.files, range.file) {
            Some(f) => Some(owned(stem(base_name(f.path.as_str())))),
            None => None,
        },
        None => None,
    }
}

fn width_of(type_: &str) -> (r: Option<String>)
    ensures
        crate::text::opt_chars(r) == range_in(type_@),
{
    let cs: Vec<char> = chars_of(type_);
    proof {
        lemma_first_index_range(type_@, '[', 0);
    }
    match find_from(cs.as_slice(), '[', 0) {
        Some(lo) => {
            proof {
                lemma_first_index_range(type_@, ']', lo as int);
            }
            match find_from(cs.as_slice(), ']', lo) {
                Some(hi) => Some(owned(type_.substring_char(lo, hi + 1))),
                None => None,
            }
        },
        None => None,
    }
}

fn enum_width(e: &EnumDef) -> (r: String)
    ensures
        r@ == enum_range(e.width),
{
    proof {
        reveal_strlit("[");
        reveal_strlit(":0]");
        assert("["@ =~= seq!['[']);
        assert(":0]"@ =~= seq![':', '0', ']']);
    }
    let top: u32 = if e.width > 0 {
        e.width - 1
    } else {
        0
    };
    let mut out: String = owned("[");
    out.append(decimal_of(top as u64).as_str());
    out.append(":0]");
    out
}

/// The bit range of a pin.
pub fn pin_width(design: &Design, type_: &Option<String>) -> (r: Option<String>)
    ensures
        crate::text::opt_chars(r) == width_in(design.doc, *type_),
{
    match type_ {
        Some(t) => match width_of(t.as_str()) {
            Some(w) => Some(w),
            None => match design.enum_for_type(t.as_str()) {
                Some(e) => Some(enum_width(e)),
                None => None,
            },
        },
        None => None,
    }
}

} // verus!
