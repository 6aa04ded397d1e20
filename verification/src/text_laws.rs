//! What words, lines, numbers and paths are made of.

use crate::files::{dir_of, name_of, source_path, stem_of, under_dir, without_end};
use crate::text::{decimal, digit_char, first_index, last_index, lemma_last_index_range};
use crate::words::{
    digits_value, gap_from, grouped, lines_from, lines_of, number, occurs_from, padded, pieces,
    pieces_from, solid_from, solid_until, split_at, trimmed, white, without_cr, words, words_from,
};
use vstd::prelude::*;

verus! {

// --- White space --------------------------------------------------------------

/// Whether a text is all white space.
pub open spec fn blank(s: Seq<char>) -> bool {
    forall|i: int| 0 <= i < s.len() ==> white(#[trigger] s[i])
}

/// Whether a text has no white space.
pub open spec fn solid(s: Seq<char>) -> bool {
    forall|i: int| 0 <= i < s.len() ==> !white(#[trigger] s[i])
}

proof fn lemma_solid_from(s: Seq<char>, from: int)
    requires
        0 <= from <= s.len(),
    ensures
        from <= solid_from(s, from) <= s.len(),
        forall|i: int| from <= i < solid_from(s, from) ==> white(#[trigger] s[i]),
        solid_from(s, from) < s.len() ==> !white(s[solid_from(s, from)]),
    decreases s.len() - from,
{
    if from < s.len() && white(s[from]) {
        lemma_solid_from(s, from + 1);
    }
}

proof fn lemma_gap_from(s: Seq<char>, from: int)
    requires
        0 <= from <= s.len(),
    ensures
        from <= gap_from(s, from) <= s.len(),
        forall|i: int| from <= i < gap_from(s, from) ==> !white(#[trigger] s[i]),
        gap_from(s, from) < s.len() ==> white(s[gap_from(s, from)]),
    decreases s.len() - from,
{
    if from < s.len() && !white(s[from]) {
        lemma_gap_from(s, from + 1);
    }
}

proof fn lemma_solid_until(s: Seq<char>, lo: int, n: int)
    requires
        0 <= lo <= n <= s.len(),
    ensures
        lo <= solid_until(s, lo, n) <= n,
        forall|i: int| solid_until(s, lo, n) <= i < n ==> white(#[trigger] s[i]),
        solid_until(s, lo, n) > lo ==> !white(s[solid_until(s, lo, n) - 1]),
    decreases n - lo,
{
    if lo < n && white(s[n - 1]) {
        lemma_solid_until(s, lo, n - 1);
    }
}

/// A trimmed text is the text without white space around it: what is taken off is all white
/// space, and what is left neither begins nor ends with any.
pub proof fn law_trimming_takes_white_space_off(s: Seq<char>)
    ensures
        exists|a: Seq<char>, b: Seq<char>|
            blank(a) && blank(b) && s == #[trigger] (a + trimmed(s) + b),
        trimmed(s).len() > 0 ==> !white(trimmed(s)[0]) && !white(trimmed(s).last()),
{
    let lo = solid_from(s, 0);
    lemma_solid_from(s, 0);
    lemma_solid_until(s, lo, s.len() as int);
    let hi = solid_until(s, lo, s.len() as int);
    let a = s.subrange(0, lo);
    let b = s.subrange(hi, s.len() as int);
    assert(blank(a));
    assert(blank(b));
    assert(s =~= a + trimmed(s) + b);
}

proof fn lemma_same_solid(s: Seq<char>, t: Seq<char>, k: int, from: int)
    requires
        0 <= k <= from <= s.len(),
        t == s.subrange(k, s.len() as int),
    ensures
        solid_from(t, from - k) == solid_from(s, from) - k,
        gap_from(t, from - k) == gap_from(s, from) - k,
    decreases s.len() - from,
{
    if from < s.len() {
        assert(t[from - k] == s[from]);
        lemma_same_solid(s, t, k, from + 1);
    }
}

proof fn lemma_words_shift(s: Seq<char>, t: Seq<char>, k: int, from: int)
    requires
        0 <= k <= from <= s.len(),
        t == s.subrange(k, s.len() as int),
    ensures
        words_from(t, from - k) == words_from(s, from),
    decreases s.len() - from,
{
    lemma_same_solid(s, t, k, from);
    lemma_solid_from(s, from);
    let lo = solid_from(s, from);
    lemma_same_solid(s, t, k, lo);
    lemma_gap_from(s, lo);
    let hi = gap_from(s, lo);
    if lo < hi {
        lemma_words_shift(s, t, k, hi);
        assert(t.subrange(lo - k, hi - k) =~= s.subrange(lo, hi));
    }
}

proof fn lemma_gap_at(s: Seq<char>, from: int, to: int)
    requires
        0 <= from <= to <= s.len(),
        forall|i: int| from <= i < to ==> !white(#[trigger] s[i]),
        to < s.len() ==> white(s[to]),
    ensures
        gap_from(s, from) == to,
    decreases to - from,
{
    if from < to {
        lemma_gap_at(s, from + 1, to);
    }
}

/// White space before a text adds no word to it.
pub proof fn law_white_space_is_no_word(c: char, s: Seq<char>)
    requires
        white(c),
    ensures
        words(seq![c] + s) == words(s),
        words(Seq::empty()) == Seq::<Seq<char>>::empty(),
{
    let t = seq![c] + s;
    assert(t[0] == c);
    assert(t.subrange(1, t.len() as int) =~= s);
    lemma_words_shift(t, s, 1, 1);
    assert(solid_from(t, 0) == solid_from(t, 1));
    lemma_solid_from(t, 1);
}

/// What stands before the first white space of a text is its first word.
pub proof fn law_words_end_at_white_space(a: Seq<char>, s: Seq<char>)
    requires
        a.len() > 0,
        solid(a),
        s.len() > 0 ==> white(s[0]),
    ensures
        words(a + s) == seq![a] + words(s),
{
    let t = a + s;
    assert(t[0] == a[0]);
    assert(forall|i: int| 0 <= i < a.len() ==> #[trigger] t[i] == a[i]);
    if s.len() > 0 {
        assert(t[a.len() as int] == s[0]);
    }
    lemma_gap_at(t, 0, a.len() as int);
    assert(t.subrange(a.len() as int, t.len() as int) =~= s);
    lemma_words_shift(t, s, a.len() as int, a.len() as int);
    assert(t.subrange(0, a.len() as int) =~= a);
}

// --- Lines and pieces ---------------------------------------------------------

proof fn lemma_first_shift(s: Seq<char>, t: Seq<char>, c: char, k: int, from: int)
    requires
        0 <= k <= from <= s.len(),
        t == s.subrange(k, s.len() as int),
    ensures
        match first_index(s, c, from) {
            Some(i) => from <= i < s.len() && first_index(t, c, from - k) == Some(i - k),
            None => first_index(t, c, from - k) is None,
        },
    decreases s.len() - from,
{
    if from < s.len() {
        assert(t[from - k] == s[from]);
        lemma_first_shift(s, t, c, k, from + 1);
    }
}

proof fn lemma_first_at(s: Seq<char>, c: char, from: int, to: int)
    requires
        0 <= from <= to <= s.len(),
        forall|i: int| from <= i < to ==> #[trigger] s[i] != c,
        to < s.len() ==> s[to] == c,
    ensures
        first_index(s, c, from) == if to < s.len() {
            Some(to)
        } else {
            None
        },
    decreases to - from,
{
    if from < to {
        lemma_first_at(s, c, from + 1, to);
    }
}

proof fn lemma_lines_shift(s: Seq<char>, t: Seq<char>, k: int, from: int)
    requires
        0 <= k <= from <= s.len(),
        t == s.subrange(k, s.len() as int),
    ensures
        lines_from(t, from - k) == lines_from(s, from),
    decreases s.len() - from,
{
    lemma_first_shift(s, t, '\n', k, from);
    if from < s.len() {
        match first_index(s, '\n', from) {
            Some(i) => {
                assert(t.subrange(from - k, i - k) =~= s.subrange(from, i));
                lemma_lines_shift(s, t, k, i + 1);
            },
            None => {
                assert(t.subrange(from - k, t.len() as int) =~= s.subrange(
                    from,
                    s.len() as int,
                ));
            },
        }
    }
}

/// A line ends at a line feed, and at a carriage return before that; the text behind the last
/// line feed is a line where there is any.
pub proof fn law_lines_end_at_line_feeds(a: Seq<char>, s: Seq<char>)
    requires
        !a.contains('\n'),
    ensures
        a.len() > 0 && a.last() != '\r' ==> lines_of(a + seq!['\n'] + s) == seq![a] + lines_of(s),
        lines_of(a + seq!['\r', '\n'] + s) == seq![a] + lines_of(s),
        lines_of(seq!['\n'] + s) == seq![Seq::<char>::empty()] + lines_of(s),
        a.len() > 0 ==> lines_of(a) == seq![a],
        lines_of(Seq::empty()) == Seq::<Seq<char>>::empty(),
{
    assert forall|i: int| 0 <= i < a.len() implies #[trigger] a[i] != '\n' by {
        assert(a.contains(a[i]));
    }
    lemma_line(a, s);
    assert(seq!['\n'] + s =~= Seq::<char>::empty() + seq!['\n'] + s);
    lemma_line(Seq::empty(), s);
    let b = a.push('\r');
    assert(a + seq!['\r', '\n'] + s =~= b + seq!['\n'] + s);
    assert forall|i: int| 0 <= i < b.len() implies #[trigger] b[i] != '\n' by {
        if i < a.len() {
            assert(b[i] == a[i]);
        }
    }
    lemma_line(b, s);
    assert(b.drop_last() =~= a);
    if a.len() > 0 {
        lemma_first_at(a, '\n', 0, a.len() as int);
        assert(a.subrange(0, a.len() as int) =~= a);
    }
}

proof fn lemma_line(a: Seq<char>, s: Seq<char>)
    requires
        forall|i: int| 0 <= i < a.len() ==> #[trigger] a[i] != '\n',
    ensures
        lines_of(a + seq!['\n'] + s) == seq![without_cr(a)] + lines_of(s),
{
    let t = a + seq!['\n'] + s;
    let n = a.len() as int;
    assert(forall|i: int| 0 <= i < n ==> #[trigger] t[i] == a[i]);
    assert(t[n] == '\n');
    lemma_first_at(t, '\n', 0, n);
    assert(t.subrange(0, n) =~= a);
    assert(t.subrange(n + 1, t.len() as int) =~= s);
    lemma_lines_shift(t, s, n + 1, n + 1);
}

proof fn lemma_pieces_shift(s: Seq<char>, t: Seq<char>, c: char, k: int, from: int)
    requires
        0 <= k <= from <= s.len(),
        t == s.subrange(k, s.len() as int),
    ensures
        pieces_from(t, c, from - k) == pieces_from(s, c, from),
    decreases s.len() - from,
{
    lemma_first_shift(s, t, c, k, from);
    match first_index(s, c, from) {
        Some(i) => {
            assert(t.subrange(from - k, i - k) =~= s.subrange(from, i));
            lemma_pieces_shift(s, t, c, k, i + 1);
        },
        None => {
            assert(t.subrange(from - k, t.len() as int) =~= s.subrange(from, s.len() as int));
        },
    }
}

/// A piece ends at a separator; a text without one is one piece.
pub proof fn law_pieces_end_at_separators(a: Seq<char>, c: char, s: Seq<char>)
    requires
        !a.contains(c),
    ensures
        pieces(a + seq![c] + s, c) == seq![a] + pieces(s, c),
        pieces(a, c) == seq![a],
{
    assert forall|i: int| 0 <= i < a.len() implies #[trigger] a[i] != c by {
        assert(a.contains(a[i]));
    }
    let t = a + seq![c] + s;
    let n = a.len() as int;
    assert(forall|i: int| 0 <= i < n ==> #[trigger] t[i] == a[i]);
    assert(t[n] == c);
    lemma_first_at(t, c, 0, n);
    assert(t.subrange(0, n) =~= a);
    assert(t.subrange(n + 1, t.len() as int) =~= s);
    lemma_pieces_shift(t, s, c, n + 1, n + 1);
    lemma_first_at(a, c, 0, n);
    assert(a.subrange(0, n) =~= a);
}

proof fn lemma_occurs(s: Seq<char>, p: Seq<char>, from: int)
    requires
        0 <= from,
    ensures
        match occurs_from(s, p, from) {
            Some(i) => from <= i && i + p.len() <= s.len() && s.subrange(i, i + p.len()) == p
                && forall|j: int|
                from <= j < i ==> #[trigger] s.subrange(j, j + p.len()) != p,
            None => forall|j: int|
                from <= j && j + p.len() <= s.len() ==> #[trigger] s.subrange(j, j + p.len()) != p,
        },
    decreases s.len() + 1 - from,
{
    if from + p.len() <= s.len() && s.subrange(from, from + p.len()) != p {
        lemma_occurs(s, p, from + 1);
    }
}

/// A text is split where a separator occurs first, and not where it does not occur.
pub proof fn law_texts_split_at_the_first_separator(s: Seq<char>, p: Seq<char>)
    ensures
        match split_at(s, p) {
            Some((a, b)) => s == a + p + b && forall|j: int|
                0 <= j < a.len() ==> #[trigger] s.subrange(j, j + p.len()) != p,
            None => forall|j: int|
                0 <= j && j + p.len() <= s.len() ==> #[trigger] s.subrange(j, j + p.len()) != p,
        },
{
    lemma_occurs(s, p, 0);
    match split_at(s, p) {
        Some((a, b)) => {
            let i = occurs_from(s, p, 0)->0;
            assert(a + p + b =~= a + s.subrange(i, i + p.len()) + b);
            assert(s =~= a + p + b);
        },
        None => {},
    }
}

// --- Numbers ------------------------------------------------------------------

proof fn lemma_digit(n: nat)
    requires
        n < 10,
    ensures
        '0' <= digit_char(n) <= '9',
        digit_char(n) as int - '0' as int == n,
{
}

proof fn lemma_digits(s: Seq<char>, t: Seq<char>, from: int, k: int, n: int)
    requires
        0 <= from < n <= s.len(),
        0 <= k,
        k + n <= t.len(),
        forall|i: int| from <= i < n ==> #[trigger] s[i] == t[k + i],
    ensures
        digits_value(t, k + from, k + n) == digits_value(s, from, n),
    decreases n,
{
    assert(s[n - 1] == t[k + n - 1]);
    if n > from + 1 {
        lemma_digits(s, t, from, k, n - 1);
    }
}

proof fn lemma_decimal(n: nat)
    ensures
        decimal(n).len() > 0,
        digits_value(decimal(n), 0, decimal(n).len() as int) == Some(n),
        forall|i: int| 0 <= i < decimal(n).len() ==> '0' <= #[trigger] decimal(n)[i] <= '9',
    decreases n,
{
    let s = decimal(n);
    if n < 10 {
        lemma_digit(n);
    } else {
        let r = decimal(n / 10);
        lemma_decimal(n / 10);
        lemma_digit(n % 10);
        assert(s == r.push(digit_char(n % 10)));
        lemma_digits(r, s, 0, 0, r.len() as int);
        assert forall|i: int| 0 <= i < s.len() implies '0' <= #[trigger] s[i] <= '9' by {
            if i < r.len() {
                assert(s[i] == r[i]);
            }
        }
        assert(10 * (n / 10) + n % 10 == n);
    }
}

/// A number is read back from how it is written, with or without a plus sign.
pub proof fn law_numbers_are_read_back(n: nat)
    ensures
        number(decimal(n)) == Some(n),
        number(seq!['+'] + decimal(n)) == Some(n),
{
    let s = decimal(n);
    lemma_decimal(n);
    assert('0' <= s[0] <= '9');
    let t = seq!['+'] + s;
    assert(t[0] == '+');
    lemma_digits(s, t, 0, 1, s.len() as int);
}

proof fn lemma_no_digits(s: Seq<char>, from: int, n: int, i: int)
    requires
        0 <= from <= i < n <= s.len(),
        !('0' <= s[i] <= '9'),
    ensures
        digits_value(s, from, n) is None,
    decreases n - from,
{
    if i < n - 1 {
        lemma_no_digits(s, from, n - 1, i);
    }
}

/// A text with anything but digits in it is no number, but for a plus sign at its start; nor
/// is an empty one.
pub proof fn law_other_texts_are_no_numbers(s: Seq<char>, i: int)
    ensures
        0 <= i < s.len() && !('0' <= s[i] <= '9') && (i > 0 || s[0] != '+') ==> number(s) is None,
        number(Seq::empty()) is None,
{
    if 0 <= i < s.len() && !('0' <= s[i] <= '9') && (i > 0 || s[0] != '+') {
        let from = if s[0] == '+' {
            1int
        } else {
            0int
        };
        lemma_no_digits(s, from, s.len() as int, i);
    }
}

proof fn lemma_zeros(n: nat, k: nat)
    ensures
        ({
            let z = Seq::new(k, |i: int| '0');
            number(z + decimal(n)) == Some(n)
        }),
    decreases k,
{
    let z = Seq::new(k, |i: int| '0');
    let s = z + decimal(n);
    lemma_decimal(n);
    lemma_padded_value(n, k, decimal(n).len() as int);
    if k > 0 {
        assert(s[0] == '0');
    } else {
        assert(s[0] == decimal(n)[0]);
    }
}

proof fn lemma_zero_value(k: nat)
    requires
        k > 0,
    ensures
        digits_value(Seq::new(k, |i: int| '0'), 0, k as int) == Some(0nat),
    decreases k,
{
    let z = Seq::new(k, |i: int| '0');
    if k > 1 {
        let y = Seq::new((k - 1) as nat, |i: int| '0');
        lemma_zero_value((k - 1) as nat);
        lemma_digits(y, z, 0, 0, k - 1);
    }
}

proof fn lemma_padded_value(n: nat, k: nat, m: int)
    requires
        0 < m <= decimal(n).len(),
    ensures
        digits_value(Seq::new(k, |i: int| '0') + decimal(n), 0, k + m) == digits_value(
            decimal(n),
            0,
            m,
        ),
    decreases m,
{
    let z = Seq::new(k, |i: int| '0');
    let d = decimal(n);
    let s = z + d;
    lemma_decimal(n);
    assert(s[k + m - 1] == d[m - 1]);
    assert('0' <= d[m - 1] <= '9');
    if m > 1 {
        lemma_padded_value(n, k, m - 1);
    } else if k > 0 {
        lemma_zero_value(k);
        lemma_digits(z, s, 0, 0, k as int);
    }
}

/// A padded number has at least the width asked for, only zeros more than it needs, and the
/// same value.
pub proof fn law_padding_keeps_the_number(n: nat, width: nat)
    ensures
        padded(n, width).len() >= width,
        padded(n, width).len() == width || padded(n, width) == decimal(n),
        number(padded(n, width)) == Some(n),
{
    law_numbers_are_read_back(n);
    let s = decimal(n);
    if s.len() < width {
        lemma_zeros(n, (width - s.len()) as nat);
    }
}

proof fn lemma_grouped(a: Seq<char>, b: Seq<char>, n: nat)
    requires
        b.len() == 3,
        n <= a.len(),
    ensures
        grouped(a + b, n) == grouped(a, n),
    decreases n,
{
    if n > 0 {
        lemma_grouped(a, b, (n - 1) as nat);
        let at = n - 1;
        assert((a + b)[at] == a[at]);
        assert(((a + b).len() - at) % 3 == (a.len() - at) % 3);
    }
}

/// Up to three digits stand alone, and each three more at the end follow a comma.
pub proof fn law_digits_are_grouped_by_three(a: Seq<char>, x: char, y: char, z: char)
    ensures
        a.len() <= 3 ==> grouped(a, a.len()) == a,
        a.len() > 0 ==> grouped(a + seq![x, y, z], a.len() + 3) == grouped(a, a.len()) + seq![
            ',',
            x,
            y,
            z,
        ],
{
    if a.len() <= 3 {
        reveal_with_fuel(grouped, 4);
        assert(grouped(a, a.len()) =~= a);
    }
    if a.len() > 0 {
        let b = seq![x, y, z];
        let s = a + b;
        let n = a.len();
        lemma_grouped(a, b, n);
        reveal_with_fuel(grouped, 4);
        assert(s[n as int] == x && s[n as int + 1] == y && s[n as int + 2] == z);
        assert(grouped(s, n + 1) == grouped(s, n).push(',').push(x));
        assert(grouped(s, n + 2) == grouped(s, n + 1).push(y));
        assert(grouped(s, n + 3) == grouped(s, n + 2).push(z));
        assert(grouped(s, n + 3) =~= grouped(a, n) + seq![',', x, y, z]);
    }
}

// --- Paths --------------------------------------------------------------------

/// A path under a directory ends with the path and begins with the directory, with one
/// separator between them; an absolute one is itself.
pub proof fn law_paths_lie_under_their_directory(dir: Seq<char>, p: Seq<char>)
    ensures
        p.len() > 0 && p[0] == '/' ==> under_dir(dir, p) == p,
        dir.len() == 0 ==> under_dir(dir, p) == p,
        !(p.len() > 0 && p[0] == '/') && dir.len() > 0 ==> under_dir(dir, p) == if dir.last()
            == '/' {
            dir + p
        } else {
            dir + seq!['/'] + p
        },
{
    reveal_strlit("/");
    assert("/"@ =~= seq!['/']);
}

/// A source file is read under the source root, except where its path is absolute or where
/// only the path as it stands leads to a file.
pub proof fn law_sources_are_read_where_they_are(
    root: Seq<char>,
    path: Seq<char>,
    joined: bool,
    bare: bool,
)
    requires
        root.len() > 0,
        root.last() != '/',
    ensures
        ({
            let r = source_path(root, path, joined, bare);
            &&& path.len() > 0 && path[0] == '/' ==> r == path
            &&& joined && !(path.len() > 0 && path[0] == '/') ==> r == root + seq!['/'] + path
            &&& !joined && bare ==> r == path
            &&& !joined && !bare && !(path.len() > 0 && path[0] == '/') ==> r == root + seq!['/']
                + path
        }),
{
    law_paths_lie_under_their_directory(root, path);
}

proof fn lemma_last_piece(a: Seq<char>, name: Seq<char>, from: int)
    requires
        0 <= from <= a.len(),
        !name.contains('/'),
    ensures
        ({
            let s = a + seq!['/'] + name;
            let r = pieces_from(s, '/', from);
            r.len() > 0 && r.last() == name
        }),
    decreases a.len() - from,
{
    let s = a + seq!['/'] + name;
    let n = a.len() as int;
    assert(s[n] == '/');
    lemma_first_some(s, '/', from, n);
    let i = first_index(s, '/', from)->0;
    if i < n {
        lemma_last_piece(a, name, i + 1);
        let rest = pieces_from(s, '/', i + 1);
        assert(pieces_from(s, '/', from) == seq![s.subrange(from, i)] + rest);
    } else {
        assert forall|k: int| n + 1 <= k < s.len() implies #[trigger] s[k] != '/' by {
            assert(name.contains(name[k - n - 1]));
        }
        lemma_first_at(s, '/', n + 1, s.len() as int);
        assert(s.subrange(n + 1, s.len() as int) =~= name);
        assert(pieces_from(s, '/', n + 1) =~= seq![name]);
        assert(pieces_from(s, '/', from) == seq![s.subrange(from, i)] + seq![name]);
    }
}

proof fn lemma_first_some(s: Seq<char>, c: char, from: int, to: int)
    requires
        0 <= from <= to < s.len(),
        s[to] == c,
    ensures
        first_index(s, c, from) is Some,
        from <= first_index(s, c, from)->0 <= to,
    decreases to - from,
{
    if s[from] != c {
        lemma_first_some(s, c, from + 1, to);
    }
}

/// The name of a path is its last part, and its directory is what stands before that.
pub proof fn law_paths_are_a_directory_and_a_name(a: Seq<char>, name: Seq<char>)
    requires
        name.len() > 0,
        !name.contains('/'),
        name != "."@,
        name != ".."@,
    ensures
        name_of(name) == Some(name),
        name_of(a + seq!['/'] + name) == Some(name),
        a.len() > 0 && a.last() != '/' && !(a.len() > 1 && a.last() == '.' && a[a.len() - 2]
            == '/') ==> dir_of(a + seq!['/'] + name) == Some(a),
{
    law_pieces_end_at_separators(name, '/', Seq::empty());
    lemma_last_piece(a, name, 0);
    let s = a + seq!['/'] + name;
    let n = a.len() as int;
    if a.len() > 0 && a.last() != '/' && !(a.len() > 1 && a.last() == '.' && a[a.len() - 2]
        == '/') {
        assert(s.last() == name.last());
        assert(name.contains(name.last()));
        assert(!(s.last() == '.' && s[s.len() - 2] == '/')) by {
            if name.len() > 1 {
                assert(s[s.len() - 2] == name[name.len() - 2]);
                assert(name.contains(name[name.len() - 2]));
            } else {
                reveal_strlit(".");
                if name[0] == '.' {
                    assert(name =~= "."@);
                }
            }
        }
        assert(without_end(s) == s);
        reveal_strlit("/");
        assert(s.len() > 1);
        assert(s != "/"@);
        lemma_last_index_range(s, '/', s.len() as int);
        let i = last_index(s, '/', s.len() as int)->0;
        assert(s[n] == '/');
        assert(i == n) by {
            if i > n {
                assert(s[i] == name[i - n - 1]);
                assert(name.contains(name[i - n - 1]));
            }
        }
        let q = s.subrange(0, n + 1);
        assert(q =~= a.push('/'));
        assert(q.drop_last() =~= a);
        assert(without_end(q) == without_end(a));
        assert(without_end(a) == a);
    }
}

/// The stem of a path is its name up to the last dot, where that is not at the start.
pub proof fn law_stems_leave_the_extension_out(name: Seq<char>, ext: Seq<char>)
    requires
        name.len() > 0,
        !name.contains('/'),
        !ext.contains('/'),
        !ext.contains('.'),
        name + seq!['.'] + ext != ".."@,
    ensures
        stem_of(name + seq!['.'] + ext) == Some(name),
{
    let s = name + seq!['.'] + ext;
    let n = name.len() as int;
    reveal_strlit(".");
    assert(s != "."@);
    assert(!s.contains('/')) by {
        if s.contains('/') {
            let k = choose|k: int| 0 <= k < s.len() && s[k] == '/';
            if k < n {
                assert(name.contains(name[k]));
            } else if k > n {
                assert(ext.contains(ext[k - n - 1]));
            }
        }
    }
    law_paths_are_a_directory_and_a_name(Seq::empty(), s);
    lemma_last_index_range(s, '.', s.len() as int);
    assert(s[n] == '.');
    let i = last_index(s, '.', s.len() as int)->0;
    assert(i == n) by {
        if i > n {
            assert(ext.contains(ext[i - n - 1]));
        }
    }
    assert(s.subrange(0, n) =~= name);
}

} // verus!
