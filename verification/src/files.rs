//! File paths as text, with `/` between their parts.

use crate::text::{all_chars, chars_of, last_index, lemma_last_index_range, owned, rfind, same};
use crate::words::{pieces, split_on, Phrase};
use vstd::prelude::*;
use vstd::string::*;

verus! {

broadcast use vstd::string::group_string_axioms;

/// Whether a path starts at the root.
pub open spec fn absolute(p: Seq<char>) -> bool {
    p.len() > 0 && p[0] == '/'
}

/// A path as seen from a directory: an absolute one stays as it is.
pub open spec fn under_dir(dir: Seq<char>, p: Seq<char>) -> Seq<char> {
    if absolute(p) || dir.len() == 0 {
        p
    } else if dir.last() == '/' {
        dir + p
    } else {
        dir + "/"@ + p
    }
}

/// Whether a path starts at the root.
pub fn is_absolute(p: &str) -> (r: bool)
    ensures
        r == absolute(p@),
{
    p.unicode_len() > 0 && p.get_char(0) == '/'
}

/// A path as seen from a directory.
pub fn join_path(dir: &str, p: &str) -> (r: String)
    ensures
        r@ == under_dir(dir@, p@),
{
    let n: usize = dir.unicode_len();
    if is_absolute(p) || n == 0 {
        owned(p)
    } else if dir.get_char(n - 1) == '/' {
        Phrase::new(dir).add(p).done()
    } else {
        Phrase::new(dir).add("/").add(p).done()
    }
}

/// The last of the first `n` parts that is not empty and not a single dot.
pub open spec fn last_part(parts: Seq<Seq<char>>, n: int) -> Option<Seq<char>>
    decreases n,
{
    if n <= 0 || n > parts.len() {
        None
    } else if parts[n - 1].len() == 0 || parts[n - 1] == "."@ {
        last_part(parts, n - 1)
    } else {
        Some(parts[n - 1])
    }
}

/// The last part of a path, unless the path ends by going up.
pub open spec fn name_of(p: Seq<char>) -> Option<Seq<char>> {
    let parts = pieces(p, '/');
    match last_part(parts, parts.len() as int) {
        Some(s) => if s == ".."@ {
            None
        } else {
            Some(s)
        },
        None => None,
    }
}

proof fn lemma_last_part(parts: Seq<Seq<char>>, n: int)
    requires
        0 <= n <= parts.len(),
    ensures
        last_part(parts, n) is Some ==> parts.contains(last_part(parts, n)->0) && last_part(
            parts,
            n,
        )->0.len() > 0,
    decreases n,
{
    if n > 0 && (parts[n - 1].len() == 0 || parts[n - 1] == "."@) {
        lemma_last_part(parts, n - 1);
    }
}

/// A file's name is not empty and has no separator of paths in it.
pub proof fn lemma_name(p: Seq<char>)
    ensures
        name_of(p) is Some ==> name_of(p)->0.len() > 0 && !name_of(p)->0.contains('/'),
{
    let parts = pieces(p, '/');
    lemma_last_part(parts, parts.len() as int);
    crate::words::lemma_pieces(p, '/', 0);
    if name_of(p) is Some {
        let k = choose|k: int| 0 <= k < parts.len() && parts[k] == name_of(p)->0;
        assert(!parts[k].contains('/'));
    }
}

/// The name of a path without what stands from its last dot on. A dot at the start is
/// part of the name.
pub open spec fn stem_of(p: Seq<char>) -> Option<Seq<char>> {
    match name_of(p) {
        Some(s) => match last_index(s, '.', s.len() as int) {
            Some(i) => if i > 0 {
                Some(s.subrange(0, i))
            } else {
                Some(s)
            },
            None => Some(s),
        },
        None => None,
    }
}

/// The last part of a path, unless the path ends by going up.
pub fn file_name(p: &str) -> (r: Option<String>)
    ensures
        crate::text::opt_chars(r) == name_of(p@),
{
    let parts: Vec<String> = split_on(p, '/');
    let ghost all = all_chars(parts@);
    let mut n: usize = parts.len();
    while n > 0
        invariant
            n <= parts@.len(),
            all == all_chars(parts@),
            all == pieces(p@, '/'),
            last_part(all, all.len() as int) == last_part(all, n as int),
        decreases n,
    {
        let part: &String = &parts[n - 1];
        assert(all[n - 1] == part@);
        if !part.as_str().is_empty() && !same(part.as_str(), ".") {
            if same(part.as_str(), "..") {
                return None;
            }
            return Some(part.clone());
        }
        n -= 1;
    }
    None
}

/// The name of a path without what stands from its last dot on.
pub fn file_stem(p: &str) -> (r: Option<String>)
    ensures
        crate::text::opt_chars(r) == stem_of(p@),
{
    match file_name(p) {
        Some(s) => {
            let cs: Vec<char> = chars_of(s.as_str());
            proof {
                lemma_last_index_range(s@, '.', s@.len() as int);
            }
            match rfind(cs.as_slice(), '.') {
                Some(i) => if i > 0 {
                    Some(owned(s.as_str().substring_char(0, i)))
                } else {
                    Some(s)
                },
                None => Some(s),
            }
        },
        None => None,
    }
}

/// A path without the separators, and the parts that are a single dot, at its end. The
/// root and a first part stay.
pub open spec fn without_end(p: Seq<char>) -> Seq<char>
    decreases p.len(),
{
    if p.len() > 1 && (p.last() == '/' || (p.last() == '.' && p[p.len() - 2] == '/')) {
        without_end(p.drop_last())
    } else {
        p
    }
}

/// The directory of a path: what is left without its last part; empty for a path of one
/// part, and nothing for the root and the empty path.
pub open spec fn dir_of(p: Seq<char>) -> Option<Seq<char>> {
    let q = without_end(p);
    if q.len() == 0 || q == "/"@ {
        None
    } else {
        match last_index(q, '/', q.len() as int) {
            Some(i) => Some(without_end(q.subrange(0, i + 1))),
            None => Some(Seq::empty()),
        }
    }
}

fn strip_end(p: &str) -> (r: &str)
    ensures
        r@ == without_end(p@),
{
    let cs: Vec<char> = chars_of(p);
    let mut n: usize = cs.len();
    assert(p@.take(n as int) =~= p@);
    while n > 1 && (cs[n - 1] == '/' || (cs[n - 1] == '.' && cs[n - 2] == '/'))
        invariant
            n <= cs@.len(),
            cs@ == p@,
            without_end(p@) == without_end(p@.take(n as int)),
        decreases n,
    {
        assert(p@.take(n as int).drop_last() =~= p@.take(n - 1));
        assert(p@.take(n as int).last() == cs@[n - 1]);
        assert(p@.take(n as int)[n - 2] == cs@[n - 2]);
        n -= 1;
    }
    proof {
        if n > 1 {
            assert(p@.take(n as int).last() == cs@[n - 1]);
            assert(p@.take(n as int)[n - 2] == cs@[n - 2]);
        }
        assert(p@.take(n as int) =~= p@.subrange(0, n as int));
    }
    p.substring_char(0, n)
}

/// The directory of a path.
pub fn parent_dir(p: &str) -> (r: Option<String>)
    ensures
        crate::text::opt_chars(r) == dir_of(p@),
{
    let q: &str = strip_end(p);
    if q.is_empty() || same(q, "/") {
        return None;
    }
    let cs: Vec<char> = chars_of(q);
    proof {
        lemma_last_index_range(q@, '/', q@.len() as int);
    }
    match rfind(cs.as_slice(), '/') {
        Some(i) => {
            assert(i < cs.len());
            Some(owned(strip_end(q.substring_char(0, i + 1))))
        },
        None => Some(String::new()),
    }
}

/// Which path a source file is read from: the one under the source root, unless only the
/// path as it stands leads to a file.
pub open spec fn source_path(
    src_root: Seq<char>,
    path: Seq<char>,
    joined_exists: bool,
    path_exists: bool,
) -> Seq<char> {
    if absolute(path) || (!joined_exists && path_exists) {
        path
    } else {
        under_dir(src_root, path)
    }
}

/// Which path a source file is read from. `joined_exists` says whether the path under the
/// source root leads to a file, `path_exists` whether the path as it stands does.
pub fn pick_source_path(
    src_root: &str,
    path: &str,
    joined_exists: bool,
    path_exists: bool,
) -> (r: String)
    ensures
        r@ == source_path(src_root@, path@, joined_exists, path_exists),
{
    if is_absolute(path) {
        return owned(path);
    }
    if joined_exists || !path_exists {
        join_path(src_root, path)
    } else {
        owned(path)
    }
}

} // verus!
