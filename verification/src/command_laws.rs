//! What arguments and positions on the command line mean.

use crate::cli::{
    bare_line, file_named, line_start, names_file, names_listed, offset_at, place_of, position_of,
    projection_named, SpecError,
};
use crate::model::FileEntry;
use crate::schematic::types::Projection;
use crate::startup::{
    flag_in, parsed, scanned, value_at, with_flag, Flag, GivenV, StartupErrorV, StartupV,
};
use crate::text::{decimal, last_index, lemma_last_index_range};
use crate::text_laws::{
    law_numbers_are_read_back, law_pieces_end_at_separators,
    law_texts_split_at_the_first_separator,
};
use crate::words::{number, pieces, split_at, trimmed};
use vstd::prelude::*;

verus! {

// --- Files --------------------------------------------------------------------

proof fn lemma_file_named(files: Seq<FileEntry>, name: Seq<char>, from: int)
    requires
        0 <= from <= files.len(),
    ensures
        match file_named(files, name, from) {
            Some(f) => exists|i: int|
                from <= i < files.len() && #[trigger] files[i] == f && names_file(f.path@, name)
                    && forall|j: int|
                    from <= j < i ==> !names_file((#[trigger] files[j]).path@, name),
            None => forall|j: int|
                from <= j < files.len() ==> !names_file((#[trigger] files[j]).path@, name),
        },
    decreases files.len() - from,
{
    if from < files.len() {
        if names_file(files[from].path@, name) {
            assert(files[from] == file_named(files, name, from)->0);
        } else {
            lemma_file_named(files, name, from + 1);
            if file_named(files, name, from + 1) is Some {
                let f = file_named(files, name, from + 1)->0;
                let i = choose|i: int|
                    from + 1 <= i < files.len() && #[trigger] files[i] == f && names_file(
                        f.path@,
                        name,
                    ) && forall|j: int|
                        from + 1 <= j < i ==> !names_file((#[trigger] files[j]).path@, name);
                assert(files[i] == f);
            }
        }
    }
}

/// A file is found by its whole path, and by the end of its path behind a separator.
pub proof fn law_files_are_found_by_their_path(
    files: Seq<FileEntry>,
    i: int,
    dir: Seq<char>,
    name: Seq<char>,
)
    requires
        0 <= i < files.len(),
        files[i].path@ == name || files[i].path@ == dir + seq!['/'] + name,
    ensures
        file_named(files, name, 0) is Some,
        exists|j: int| 0 <= j <= i && #[trigger] files[j] == file_named(files, name, 0)->0,
{
    lemma_file_named(files, name, 0);
    reveal_strlit("/");
    assert("/"@ =~= seq!['/']);
    let p = files[i].path@;
    if p != name {
        let tail = "/"@ + name;
        assert(p.subrange(p.len() - tail.len(), p.len() as int) =~= tail);
    }
    assert(names_file(files[i].path@, name));
    let f = file_named(files, name, 0)->0;
    let k = choose|k: int|
        0 <= k < files.len() && #[trigger] files[k] == f && names_file(f.path@, name) && forall|
            j: int,
        |
            0 <= j < k ==> !names_file((#[trigger] files[j]).path@, name);
    assert(files[k] == f);
}

// --- Positions ----------------------------------------------------------------

proof fn lemma_no_colon(n: nat)
    ensures
        !decimal(n).contains(':'),
    decreases n,
{
    if n >= 10 {
        lemma_no_colon(n / 10);
        let s = decimal(n);
        let r = decimal(n / 10);
        if s.contains(':') {
            let k = choose|k: int| 0 <= k < s.len() && s[k] == ':';
            if k < r.len() {
                assert(r[k] == ':');
                assert(r.contains(':'));
            }
        }
    }
}

/// A position is a file, a line and a column, with colons between them; without a column it
/// is the first.
pub proof fn law_positions_are_file_line_and_column(
    files: Seq<FileEntry>,
    name: Seq<char>,
    line: nat,
    col: nat,
)
    requires
        !name.contains(':'),
        line <= usize::MAX,
        col <= usize::MAX,
        file_named(files, name, 0) is Some,
    ensures
        position_of(files, name + seq![':'] + decimal(line)) == Ok::<_, SpecError>(
            (file_named(files, name, 0)->0, line, 1nat),
        ),
        position_of(files, name + seq![':'] + (decimal(line) + seq![':'] + decimal(col))) == Ok::<
            _,
            SpecError,
        >((file_named(files, name, 0)->0, line, col)),
{
    lemma_no_colon(line);
    lemma_no_colon(col);
    law_numbers_are_read_back(line);
    law_numbers_are_read_back(col);
    let l = decimal(line);
    let c = decimal(col);
    law_pieces_end_at_separators(name, ':', l);
    law_pieces_end_at_separators(l, ':', c);
    law_pieces_end_at_separators(c, ':', Seq::empty());
    law_pieces_end_at_separators(name, ':', l + seq![':'] + c);
    assert(pieces(name + seq![':'] + l, ':') =~= seq![name, l]);
    assert(pieces(name + seq![':'] + (l + seq![':'] + c), ':') =~= seq![name, l, c]);
}

/// A text without a colon is no position, and neither is one whose file or line is unknown.
pub proof fn law_other_texts_are_no_positions(
    files: Seq<FileEntry>,
    name: Seq<char>,
    rest: Seq<char>,
)
    requires
        !name.contains(':'),
        !rest.contains(':'),
    ensures
        position_of(files, name) == Err::<(FileEntry, nat, nat), _>(SpecError::Shape),
        file_named(files, name, 0) is None ==> position_of(files, name + seq![':'] + rest) == Err::<
            (FileEntry, nat, nat),
            _,
        >(SpecError::File),
        file_named(files, name, 0) is Some && number(rest) is None ==> position_of(
            files,
            name + seq![':'] + rest,
        ) == Err::<(FileEntry, nat, nat), _>(SpecError::Number),
{
    law_pieces_end_at_separators(name, ':', rest);
    law_pieces_end_at_separators(rest, ':', Seq::empty());
    assert(pieces(name + seq![':'] + rest, ':') =~= seq![name, rest]);
}

/// An offset stands behind the last colon, and the file before it is a number or a name.
pub proof fn law_places_are_file_and_offset(
    files: Seq<FileEntry>,
    name: Seq<char>,
    id: u32,
    offset: nat,
)
    requires
        offset <= usize::MAX,
    ensures
        place_of(files, decimal(id as nat) + seq![':'] + decimal(offset)) == Ok::<_, SpecError>(
            (id, offset),
        ),
        number(name) is None && file_named(files, name, 0) is Some ==> place_of(
            files,
            name + seq![':'] + decimal(offset),
        ) == Ok::<_, SpecError>((file_named(files, name, 0)->0.id, offset)),
        number(name) is None && file_named(files, name, 0) is None ==> place_of(
            files,
            name + seq![':'] + decimal(offset),
        ) == Err::<(u32, nat), _>(SpecError::File),
{
    law_numbers_are_read_back(offset);
    law_numbers_are_read_back(id as nat);
    lemma_last_colon(decimal(id as nat), offset);
    lemma_last_colon(name, offset);
}

proof fn lemma_last_colon(a: Seq<char>, n: nat)
    ensures
        ({
            let s = a + seq![':'] + decimal(n);
            &&& last_index(s, ':', s.len() as int) == Some(a.len() as int)
            &&& s.subrange(0, a.len() as int) == a
            &&& s.subrange(a.len() as int + 1, s.len() as int) == decimal(n)
        }),
{
    let s = a + seq![':'] + decimal(n);
    let k = a.len() as int;
    lemma_no_colon(n);
    lemma_last_index_range(s, ':', s.len() as int);
    assert(s[k] == ':');
    let i = last_index(s, ':', s.len() as int)->0;
    assert(i == k) by {
        if i > k {
            assert(s[i] == decimal(n)[i - k - 1]);
            assert(decimal(n).contains(decimal(n)[i - k - 1]));
        }
    }
    assert(s.subrange(0, k) =~= a);
    assert(s.subrange(k + 1, s.len() as int) =~= decimal(n));
}

// --- Lines --------------------------------------------------------------------

proof fn lemma_shift(s: Seq<u8>, t: Seq<u8>, k: int, line: nat, at: nat, from: int, i: int)
    requires
        0 <= k <= from <= i <= s.len(),
        t == s.subrange(k, s.len() as int),
        1 <= at,
    ensures
        match line_start(s, line + 1, at + 1, from, i) {
            Some(x) => line_start(t, line, at, from - k, i - k) == Some(x - k),
            None => line_start(t, line, at, from - k, i - k) is None,
        },
    decreases s.len() - i,
{
    if at != line && i < s.len() {
        assert(t[i - k] == s[i]);
        if s[i] == 10u8 {
            lemma_shift(s, t, k, line, at + 1, i + 1, i + 1);
        } else {
            lemma_shift(s, t, k, line, at, from, i + 1);
        }
    }
}

proof fn lemma_first_line(s: Seq<u8>, n: int, line: nat, i: int)
    requires
        0 <= i <= n < s.len(),
        line >= 1,
        forall|k: int| 0 <= k < n ==> #[trigger] s[k] != 10u8,
        s[n] == 10u8,
    ensures
        line_start(s, line + 1, 1, 0, i) == line_start(s, line + 1, 2, n + 1, n + 1),
    decreases n - i,
{
    if i < n {
        lemma_first_line(s, n, line, i + 1);
    }
}

/// A line starts behind the line feed that ends the line before it, and columns count from
/// one: a line more before a text moves all of its lines, and the first line starts the text.
pub proof fn law_lines_start_behind_line_feeds(a: Seq<u8>, s: Seq<u8>, line: nat, col: nat)
    requires
        !a.contains(10u8),
        line >= 1,
        col >= 1,
    ensures
        s.len() > 0 ==> offset_at(s, 1, col) == Some(col - 1),
        s.len() == 0 ==> offset_at(s, line, col) is None,
        match offset_at(s, line, col) {
            Some(o) => offset_at(a + seq![10u8] + s, line + 1, col) == Some(a.len() + 1 + o),
            None => offset_at(a + seq![10u8] + s, line + 1, col) is None,
        },
{
    let t = a + seq![10u8] + s;
    let n = a.len() as int;
    assert forall|k: int| 0 <= k < n implies #[trigger] t[k] != 10u8 by {
        assert(a.contains(a[k]));
    }
    assert(t[n] == 10u8);
    assert(t.subrange(n + 1, t.len() as int) =~= s);
    lemma_first_line(t, n, line, 0);
    lemma_shift(t, s, n + 1, line, 1, n + 1, n + 1);
}

// --- Listed names -------------------------------------------------------------

/// A line names what stands before a comment, without the white space around it.
pub proof fn law_comments_name_nothing(a: Seq<char>, rest: Seq<char>)
    requires
        !a.contains('#'),
        forall|j: int| 0 <= j && j + 2 <= a.len() ==> #[trigger] a.subrange(j, j + 2) != "//"@,
    ensures
        bare_line(a) == trimmed(a),
        bare_line(a + seq!['#'] + rest) == trimmed(a),
        a.len() > 0 && a.last() != '/' && !rest.contains('#') ==> bare_line(a + "//"@ + rest)
            == trimmed(a),
{
    reveal_strlit("//");
    law_pieces_end_at_separators(a, '#', rest);
    law_texts_split_at_the_first_separator(a, "//"@);
    assert(pieces(a + seq!['#'] + rest, '#')[0] == a);
    assert(pieces(a, '#')[0] == a);
    assert(split_at(a, "//"@) is None) by {
        if split_at(a, "//"@) is Some {
            let (x, y) = split_at(a, "//"@)->0;
            assert(a.subrange(x.len() as int, x.len() as int + 2) =~= "//"@);
        }
    }
    if a.len() > 0 && a.last() != '/' && !rest.contains('#') {
        let s = a + "//"@ + rest;
        assert(!s.contains('#')) by {
            if s.contains('#') {
                let k = choose|k: int| 0 <= k < s.len() && s[k] == '#';
                if k < a.len() {
                    assert(a.contains(a[k]));
                } else if k >= a.len() + 2 {
                    assert(rest.contains(rest[k - a.len() - 2]));
                }
            }
        }
        law_pieces_end_at_separators(s, '#', Seq::empty());
        law_texts_split_at_the_first_separator(s, "//"@);
        let n = a.len() as int;
        assert(s.subrange(n, n + 2) =~= "//"@);
        assert(split_at(s, "//"@) is Some);
        let (x, y) = split_at(s, "//"@)->0;
        assert(s.subrange(x.len() as int, x.len() as int + 2) =~= "//"@);
        assert(x.len() == n) by {
            if x.len() > n {
                assert(s.subrange(n, n + 2) == "//"@);
            } else if x.len() < n {
                if x.len() + 2 <= n {
                    assert(a.subrange(x.len() as int, x.len() as int + 2) =~= s.subrange(
                        x.len() as int,
                        x.len() as int + 2,
                    ));
                } else {
                    assert(s[n - 1] == a.last());
                    assert(s.subrange(x.len() as int, x.len() as int + 2)[0] == a.last());
                }
            }
        }
        assert(s == x + "//"@ + y);
        assert forall|k: int| 0 <= k < n implies x[k] == a[k] by {
            assert((x + "//"@ + y)[k] == x[k]);
            assert(s[k] == a[k]);
        }
        assert(x =~= a);
    }
}

/// A list of names grows by what its next line names, and by nothing where that is nothing.
pub proof fn law_lines_add_their_names(lines: Seq<Seq<char>>, line: Seq<char>)
    ensures
        ({
            let more = lines.push(line);
            let s = bare_line(line);
            names_listed(more, more.len()) == if s.len() > 0 {
                names_listed(lines, lines.len()).push(s)
            } else {
                names_listed(lines, lines.len())
            }
        }),
{
    lemma_listed(lines, lines.push(line), lines.len());
}

proof fn lemma_listed(a: Seq<Seq<char>>, b: Seq<Seq<char>>, n: nat)
    requires
        n <= a.len() <= b.len(),
        forall|k: int| 0 <= k < n ==> #[trigger] a[k] == b[k],
    ensures
        names_listed(a, n) == names_listed(b, n),
    decreases n,
{
    if n > 0 {
        lemma_listed(a, b, (n - 1) as nat);
        assert(a[n - 1] == b[n - 1]);
    }
}

/// Both levels of projection are known by their names, and nothing else is; the process level
/// needs no name.
pub proof fn law_projections_are_named(s: Seq<char>)
    ensures
        projection_named(None) == Some(Projection::ProcessLevel),
        projection_named(Some(s)) == Some(Projection::GateLevel) <==> s == "gate-level"@,
        projection_named(Some(s)) == Some(Projection::ProcessLevel) <==> s == "process-level"@,
        projection_named(Some(s)) is None <==> s != "gate-level"@ && s != "process-level"@,
{
    reveal_strlit("gate-level");
    reveal_strlit("process-level");
    assert("gate-level"@[0] == 'g');
    assert("process-level"@[0] == 'p');
}

// --- Starting -----------------------------------------------------------------

proof fn lemma_scanned(args: Seq<Seq<char>>, tail: Seq<Seq<char>>, i: int, g: GivenV)
    requires
        0 <= i <= args.len(),
        scanned(args, i, g) is Ok,
    ensures
        scanned(args + tail, i, g) == scanned(
            args + tail,
            args.len() as int,
            scanned(args, i, g)->Ok_0,
        ),
    decreases args.len() - i,
{
    let all = args + tail;
    if i < args.len() {
        assert(all[i] == args[i]);
        let f = flag_in(args[i])->0;
        assert(i + 1 < args.len());
        assert(all[i + 1] == args[i + 1]);
        let v = value_at(args, i + 1, f)->Ok_0;
        let h = with_flag(g, f, v)->Ok_0;
        lemma_scanned(args, tail, i + 2, h);
    }
}

/// Arguments that start a session still do with one flag more: a later top, trace or source
/// root takes the place of an earlier one, a directory to look in is added behind the others,
/// and a second file list is refused.
pub proof fn law_later_flags_add_to_earlier_ones(
    args: Seq<Seq<char>>,
    a: StartupV,
    flag: Seq<char>,
    v: Seq<char>,
)
    requires
        parsed(args) == Ok::<_, StartupErrorV>(Some(a)),
        !(v.len() > 0 && v[0] == '-'),
    ensures
        ({
            let r = parsed(args + seq![flag, v]);
            &&& flag == "-top"@ || flag == "--top"@ ==> r == Ok::<_, StartupErrorV>(
                Some(StartupV { top: v, ..a }),
            )
            &&& flag == "-trace"@ || flag == "--trace"@ ==> r == Ok::<_, StartupErrorV>(
                Some(StartupV { trace: v, ..a }),
            )
            &&& flag == "-src-root"@ || flag == "--src-root"@ ==> r == Ok::<_, StartupErrorV>(
                Some(StartupV { src_root: v, ..a }),
            )
            &&& flag == "-I"@ ==> r == Ok::<_, StartupErrorV>(
                Some(StartupV { incdirs: a.incdirs.push(v), ..a }),
            )
            &&& flag == "-f"@ ==> r is Err
        }),
{
    let tail = seq![flag, v];
    let all = args + tail;
    let n = args.len() as int;
    let g0 = crate::startup::nothing_given();
    lemma_scanned(args, tail, 0, g0);
    let g = scanned(args, 0, g0)->Ok_0;
    assert(all[n] == flag && all[n + 1] == v);
    reveal_strlit("-");
    reveal_strlit("-h");
    reveal_strlit("--help");
    reveal_strlit("-f");
    reveal_strlit("-I");
    reveal_strlit("-top");
    reveal_strlit("--top");
    reveal_strlit("-trace");
    reveal_strlit("--trace");
    reveal_strlit("-src-root");
    reveal_strlit("--src-root");
    assert("-h"@[1] == 'h' && "-f"@[1] == 'f' && "-I"@[1] == 'I');
    assert("-top"@.len() == 4 && "--top"@.len() == 5 && "-trace"@.len() == 6);
    assert("--trace"@.len() == 7 && "-src-root"@.len() == 9 && "--src-root"@.len() == 10);
    assert("--help"@.len() == 6 && "--help"@[1] == '-' && "-trace"@[1] == 't');
    assert(!crate::text::begins_with(v, "-"@)) by {
        if crate::text::begins_with(v, "-"@) {
            assert(v.subrange(0, 1)[0] == v[0]);
            assert("-"@[0] == '-');
        }
    }
    if flag_in(flag) is Some {
        let f = flag_in(flag)->0;
        assert(value_at(all, n + 1, f) == Ok::<_, StartupErrorV>(v));
        match with_flag(g, f, v) {
            Ok(h) => {
                assert(scanned(all, n + 2, h) == Ok::<_, StartupErrorV>(h));
            },
            Err(_) => {},
        }
    }
}

/// A session starts with a file list and a top, in either order; without a source root the
/// current directory is one, and nothing else is given.
pub proof fn law_a_filelist_and_a_top_start_a_session(list: Seq<char>, top: Seq<char>)
    requires
        !(list.len() > 0 && list[0] == '-'),
        !(top.len() > 0 && top[0] == '-'),
    ensures
        ({
            let a = StartupV {
                filelist: list,
                top,
                incdirs: Seq::empty(),
                trace: Seq::empty(),
                src_root: "."@,
            };
            &&& parsed(seq!["-f"@, list, "-top"@, top]) == Ok::<_, StartupErrorV>(Some(a))
            &&& parsed(seq!["-top"@, top, "-f"@, list]) == Ok::<_, StartupErrorV>(Some(a))
        }),
{
    reveal_strlit("-");
    reveal_strlit("-h");
    reveal_strlit("--help");
    reveal_strlit("-f");
    reveal_strlit("-top");
    assert("-h"@[1] == 'h' && "-f"@[1] == 'f' && "-top"@.len() == 4 && "--help"@.len() == 6);
    assert("-"@[0] == '-');
    if crate::text::begins_with(list, "-"@) {
        assert(list.subrange(0, 1)[0] == list[0]);
    }
    if crate::text::begins_with(top, "-"@) {
        assert(top.subrange(0, 1)[0] == top[0]);
    }
    let x = seq!["-f"@, list, "-top"@, top];
    let y = seq!["-top"@, top, "-f"@, list];
    reveal_with_fuel(scanned, 4);
    assert(flag_in("-f"@) == Some(Flag::Filelist));
    assert(flag_in("-top"@) == Some(Flag::Top));
    let g = crate::startup::nothing_given();
    assert(value_at(x, 1, Flag::Filelist) == Ok::<_, StartupErrorV>(list));
    assert(value_at(x, 3, Flag::Top) == Ok::<_, StartupErrorV>(top));
    assert(value_at(y, 1, Flag::Top) == Ok::<_, StartupErrorV>(top));
    assert(value_at(y, 3, Flag::Filelist) == Ok::<_, StartupErrorV>(list));
    assert(scanned(x, 0, g) is Ok);
    assert(scanned(y, 0, g) is Ok);
}

} // verus!
