//! Cutting text apart and putting it together: lines, words, pieces and numbers.

use crate::text::{all_chars, chars_of, decimal, first_index, lemma_first_index_range, owned};
use vstd::prelude::*;
use vstd::string::*;

verus! {

broadcast use vstd::string::group_string_axioms;

// --- White space --------------------------------------------------------------

/// Whether a character is white space: it has the Unicode property of that name.
pub open spec fn white(c: char) -> bool {
    ||| '\u{9}' <= c <= '\u{d}'
    ||| c == ' '
    ||| c == '\u{85}'
    ||| c == '\u{a0}'
    ||| c == '\u{1680}'
    ||| '\u{2000}' <= c <= '\u{200a}'
    ||| c == '\u{2028}'
    ||| c == '\u{2029}'
    ||| c == '\u{202f}'
    ||| c == '\u{205f}'
    ||| c == '\u{3000}'
}

pub fn is_white(c: char) -> (r: bool)
    ensures
        r == white(c),
{
    ('\u{9}' <= c && c <= '\u{d}') || c == ' ' || c == '\u{85}' || c == '\u{a0}' || c == '\u{1680}'
        || ('\u{2000}' <= c && c <= '\u{200a}') || c == '\u{2028}' || c == '\u{2029}' || c
        == '\u{202f}' || c == '\u{205f}' || c == '\u{3000}'
}

/// The first place from `from` that is not white space, or the end.
pub open spec fn solid_from(s: Seq<char>, from: int) -> int
    decreases s.len() - from,
{
    if 0 <= from < s.len() && white(s[from]) {
        solid_from(s, from + 1)
    } else {
        from
    }
}

/// The first place from `from` that is white space, or the end.
pub open spec fn gap_from(s: Seq<char>, from: int) -> int
    decreases s.len() - from,
{
    if 0 <= from < s.len() && !white(s[from]) {
        gap_from(s, from + 1)
    } else {
        from
    }
}

/// Where the text that starts at `lo` ends when white space before `n` is left out.
pub open spec fn solid_until(s: Seq<char>, lo: int, n: int) -> int
    decreases n - lo,
{
    if lo < n <= s.len() && white(s[n - 1]) {
        solid_until(s, lo, n - 1)
    } else {
        n
    }
}

/// A text without the white space around it.
pub open spec fn trimmed(s: Seq<char>) -> Seq<char> {
    let lo = solid_from(s, 0);
    s.subrange(lo, solid_until(s, lo, s.len() as int))
}

pub proof fn lemma_solid_from(s: Seq<char>, from: int)
    requires
        0 <= from <= s.len(),
    ensures
        from <= solid_from(s, from) <= s.len(),
    decreases s.len() - from,
{
    if from < s.len() && white(s[from]) {
        lemma_solid_from(s, from + 1);
    }
}

pub proof fn lemma_gap_from(s: Seq<char>, from: int)
    requires
        0 <= from <= s.len(),
    ensures
        from <= gap_from(s, from) <= s.len(),
    decreases s.len() - from,
{
    if from < s.len() && !white(s[from]) {
        lemma_gap_from(s, from + 1);
    }
}

fn solid_at(s: &[char], from: usize) -> (r: usize)
    requires
        from <= s@.len(),
    ensures
        r == solid_from(s@, from as int),
        from <= r <= s@.len(),
{
    let mut i: usize = from;
    while i < s.len() && is_white(s[i])
        invariant
            from <= i <= s@.len(),
            solid_from(s@, from as int) == solid_from(s@, i as int),
        decreases s@.len() - i,
    {
        i += 1;
    }
    i
}

/// A text without the white space around it.
pub fn trim(s: &str) -> (r: &str)
    ensures
        r@ == trimmed(s@),
{
    let cs: Vec<char> = chars_of(s);
    let lo: usize = solid_at(cs.as_slice(), 0);
    let mut hi: usize = cs.len();
    while hi > lo && is_white(cs[hi - 1])
        invariant
            cs@ == s@,
            lo <= hi <= cs@.len(),
            solid_until(s@, lo as int, cs@.len() as int) == solid_until(s@, lo as int, hi as int),
        decreases hi,
    {
        hi -= 1;
    }
    s.substring_char(lo, hi)
}

/// The words of a text from `from`: what stands between white space.
pub open spec fn words_from(s: Seq<char>, from: int) -> Seq<Seq<char>>
    decreases s.len() - from,
{
    let lo = solid_from(s, from);
    let hi = gap_from(s, lo);
    if 0 <= from <= lo < hi <= s.len() {
        seq![s.subrange(lo, hi)] + words_from(s, hi)
    } else {
        Seq::empty()
    }
}

/// The words of a text.
pub open spec fn words(s: Seq<char>) -> Seq<Seq<char>> {
    words_from(s, 0)
}

/// The words of a text.
pub fn split_words(s: &str) -> (r: Vec<String>)
    ensures
        all_chars(r@) == words(s@),
{
    let cs: Vec<char> = chars_of(s);
    let mut out: Vec<String> = Vec::new();
    let mut at: usize = 0;
    assert(all_chars(out@) + words_from(s@, 0) =~= words(s@));
    while at < cs.len()
        invariant
            cs@ == s@,
            at <= cs@.len(),
            all_chars(out@) + words_from(s@, at as int) == words(s@),
        decreases cs@.len() - at,
    {
        let lo: usize = solid_at(cs.as_slice(), at);
        if lo == cs.len() {
            assert(words_from(s@, at as int) =~= Seq::empty());
            assert(all_chars(out@) =~= words(s@));
            return out;
        }
        let mut hi: usize = lo;
        while hi < cs.len() && !is_white(cs[hi])
            invariant
                cs@ == s@,
                lo <= hi <= cs@.len(),
                gap_from(s@, lo as int) == gap_from(s@, hi as int),
            decreases cs@.len() - hi,
        {
            hi += 1;
        }
        let ghost before = all_chars(out@);
        let ghost word = s@.subrange(lo as int, hi as int);
        out.push(owned(s.substring_char(lo, hi)));
        proof {
            assert(lo < hi) by {
                assert(!white(s@[lo as int])) by {
                    lemma_solid_stops(s@, at as int);
                }
                lemma_gap_from(s@, lo + 1);
            }
            assert(all_chars(out@) =~= before.push(word));
            assert(all_chars(out@) + words_from(s@, hi as int) =~= before + words_from(
                s@,
                at as int,
            ));
        }
        at = hi;
    }
    assert(words_from(s@, at as int) =~= Seq::empty());
    assert(all_chars(out@) =~= words(s@));
    out
}

proof fn lemma_solid_stops(s: Seq<char>, from: int)
    requires
        0 <= from <= s.len(),
    ensures
        solid_from(s, from) < s.len() ==> !white(s[solid_from(s, from)]),
    decreases s.len() - from,
{
    if from < s.len() && white(s[from]) {
        lemma_solid_stops(s, from + 1);
    }
}

// --- Lines and pieces ---------------------------------------------------------

/// A line without the carriage return at its end.
pub open spec fn without_cr(s: Seq<char>) -> Seq<char> {
    if s.len() > 0 && s.last() == '\r' {
        s.drop_last()
    } else {
        s
    }
}

/// The lines of a text from `from`. The line feed, or carriage return and line feed, at
/// the end of a line is not part of it.
pub open spec fn lines_from(s: Seq<char>, from: int) -> Seq<Seq<char>>
    decreases s.len() - from,
{
    if from < 0 || from >= s.len() {
        Seq::empty()
    } else {
        match first_index(s, '\n', from) {
            Some(i) => if from <= i < s.len() {
                seq![without_cr(s.subrange(from, i))] + lines_from(s, i + 1)
            } else {
                Seq::empty()
            },
            None => seq![s.subrange(from, s.len() as int)],
        }
    }
}

/// The lines of a text.
pub open spec fn lines_of(s: Seq<char>) -> Seq<Seq<char>> {
    lines_from(s, 0)
}

/// The lines of a text.
pub fn split_lines(s: &str) -> (r: Vec<String>)
    ensures
        all_chars(r@) == lines_of(s@),
{
    let cs: Vec<char> = chars_of(s);
    let mut out: Vec<String> = Vec::new();
    let mut at: usize = 0;
    assert(all_chars(out@) + lines_from(s@, 0) =~= lines_of(s@));
    while at < cs.len()
        invariant
            cs@ == s@,
            at <= cs@.len(),
            all_chars(out@) + lines_from(s@, at as int) == lines_of(s@),
        decreases cs@.len() - at,
    {
        proof {
            lemma_first_index_range(s@, '\n', at as int);
        }
        let ghost before = all_chars(out@);
        match crate::text::find_from(cs.as_slice(), '\n', at) {
            Some(i) => {
                let end: usize = if at < i && cs[i - 1] == '\r' {
                    i - 1
                } else {
                    i
                };
                proof {
                    let line = s@.subrange(at as int, i as int);
                    if at < i {
                        assert(line.last() == s@[i - 1]);
                    }
                    assert(without_cr(line) =~= s@.subrange(at as int, end as int));
                }
                out.push(owned(s.substring_char(at, end)));
                proof {
                    assert(all_chars(out@) =~= before.push(s@.subrange(at as int, end as int)));
                    assert(all_chars(out@) + lines_from(s@, i + 1) =~= before + lines_from(
                        s@,
                        at as int,
                    ));
                }
                at = i + 1;
            },
            None => {
                out.push(owned(s.substring_char(at, cs.len())));
                proof {
                    assert(all_chars(out@) =~= before + lines_from(s@, at as int));
                }
                return out;
            },
        }
    }
    assert(lines_from(s@, at as int) =~= Seq::empty());
    assert(all_chars(out@) =~= lines_of(s@));
    out
}

/// The pieces of a text from `from` between separators.
pub open spec fn pieces_from(s: Seq<char>, c: char, from: int) -> Seq<Seq<char>>
    decreases s.len() - from,
{
    match first_index(s, c, from) {
        Some(i) => if 0 <= from <= i < s.len() {
            seq![s.subrange(from, i)] + pieces_from(s, c, i + 1)
        } else {
            Seq::empty()
        },
        None => seq![s.subrange(from, s.len() as int)],
    }
}

/// The pieces of a text between separators. There is one more than there are separators.
pub open spec fn pieces(s: Seq<char>, c: char) -> Seq<Seq<char>> {
    pieces_from(s, c, 0)
}

/// No piece has a separator in it.
pub proof fn lemma_pieces(s: Seq<char>, c: char, from: int)
    requires
        0 <= from <= s.len(),
    ensures
        forall|k: int|
            0 <= k < pieces_from(s, c, from).len() ==> !(#[trigger] pieces_from(
                s,
                c,
                from,
            )[k]).contains(c),
    decreases s.len() - from,
{
    lemma_first_index_range(s, c, from);
    let all = pieces_from(s, c, from);
    match first_index(s, c, from) {
        Some(i) => {
            lemma_pieces(s, c, i + 1);
            let rest = pieces_from(s, c, i + 1);
            assert forall|k: int| 0 <= k < all.len() implies !(#[trigger] all[k]).contains(c) by {
                if k > 0 {
                    assert(all[k] == rest[k - 1]);
                } else {
                    assert(all[k] == s.subrange(from, i));
                }
            }
        },
        None => {},
    }
}

/// The pieces of a text between separators.
pub fn split_on(s: &str, c: char) -> (r: Vec<String>)
    ensures
        all_chars(r@) == pieces(s@, c),
{
    let cs: Vec<char> = chars_of(s);
    let mut out: Vec<String> = Vec::new();
    let mut at: usize = 0;
    assert(all_chars(out@) + pieces_from(s@, c, 0) =~= pieces(s@, c));
    loop
        invariant
            cs@ == s@,
            at <= cs@.len(),
            all_chars(out@) + pieces_from(s@, c, at as int) == pieces(s@, c),
        decreases cs@.len() + 1 - at,
    {
        proof {
            lemma_first_index_range(s@, c, at as int);
        }
        let ghost before = all_chars(out@);
        match crate::text::find_from(cs.as_slice(), c, at) {
            Some(i) => {
                assert(i < cs.len());
                out.push(owned(s.substring_char(at, i)));
                proof {
                    assert(all_chars(out@) =~= before.push(s@.subrange(at as int, i as int)));
                    assert(all_chars(out@) + pieces_from(s@, c, i + 1) =~= before + pieces_from(
                        s@,
                        c,
                        at as int,
                    ));
                }
                at = i + 1;
            },
            None => {
                out.push(owned(s.substring_char(at, cs.len())));
                proof {
                    assert(all_chars(out@) =~= before + pieces_from(s@, c, at as int));
                }
                return out;
            },
        }
    }
}

/// Where `p` occurs first in `s`, from `from`.
pub open spec fn occurs_from(s: Seq<char>, p: Seq<char>, from: int) -> Option<int>
    decreases s.len() + 1 - from,
{
    if from < 0 || from + p.len() > s.len() {
        None
    } else if s.subrange(from, from + p.len()) == p {
        Some(from)
    } else {
        occurs_from(s, p, from + 1)
    }
}

/// What stands before and behind the first occurrence of `p`.
pub open spec fn split_at(s: Seq<char>, p: Seq<char>) -> Option<(Seq<char>, Seq<char>)> {
    match occurs_from(s, p, 0) {
        Some(i) => Some((s.subrange(0, i), s.subrange(i + p.len(), s.len() as int))),
        None => None,
    }
}

/// What stands before and behind the first occurrence of `p`.
pub fn split_once<'a>(s: &'a str, p: &str) -> (r: Option<(&'a str, &'a str)>)
    ensures
        match r {
            Some((a, b)) => split_at(s@, p@) == Some((a@, b@)),
            None => split_at(s@, p@) is None,
        },
{
    let n: usize = s.unicode_len();
    let m: usize = p.unicode_len();
    let mut i: usize = 0;
    while m <= n - i
        invariant
            n == s@.len(),
            m == p@.len(),
            i <= n,
            occurs_from(s@, p@, 0) == occurs_from(s@, p@, i as int),
        decreases n + 1 - i,
    {
        if crate::text::same(s.substring_char(i, i + m), p) {
            return Some((s.substring_char(0, i), s.substring_char(i + m, n)));
        }
        proof {
            if i == n {
                assert(s@.subrange(i as int, i + m) =~= p@);
            }
        }
        i += 1;
    }
    None
}

/// Whether `p` is how `s` begins.
pub fn starts_with(s: &str, p: &str) -> (r: bool)
    ensures
        r == crate::text::begins_with(s@, p@),
{
    crate::text::strip_prefix(s, p).is_some()
}

/// Whether `p` is how `s` ends.
pub open spec fn closes_with(s: Seq<char>, p: Seq<char>) -> bool {
    p.len() <= s.len() && s.subrange(s.len() - p.len(), s.len() as int) == p
}

/// Whether `p` is how `s` ends.
pub fn ends_with(s: &str, p: &str) -> (r: bool)
    ensures
        r == closes_with(s@, p@),
{
    let n: usize = s.unicode_len();
    let m: usize = p.unicode_len();
    m <= n && crate::text::same(s.substring_char(n - m, n), p)
}

/// Texts with a separator between them.
pub open spec fn joined_by(parts: Seq<Seq<char>>, sep: Seq<char>) -> Seq<char>
    decreases parts.len(),
{
    if parts.len() == 0 {
        Seq::empty()
    } else if parts.len() == 1 {
        parts[0]
    } else {
        joined_by(parts.drop_last(), sep) + sep + parts.last()
    }
}

/// Texts with a separator between them.
pub fn join(parts: &[String], sep: &str) -> (r: String)
    ensures
        r@ == joined_by(all_chars(parts@), sep@),
{
    let ghost all = all_chars(parts@);
    let mut out: String = String::new();
    let mut i: usize = 0;
    assert(all.take(0) =~= Seq::empty());
    while i < parts.len()
        invariant
            i <= parts@.len(),
            all == all_chars(parts@),
            out@ == joined_by(all.take(i as int), sep@),
        decreases parts@.len() - i,
    {
        proof {
            assert(all.take(i + 1).drop_last() =~= all.take(i as int));
            assert(all.take(i + 1).last() == parts@[i as int]@);
        }
        if i > 0 {
            out.append(sep);
        }
        out.append(parts[i].as_str());
        proof {
            if i == 0 {
                assert(out@ =~= parts@[0]@);
                assert(all.take(1)[0] == parts@[0]@);
            }
        }
        i += 1;
    }
    assert(all.take(i as int) =~= all);
    out
}

// --- Numbers ------------------------------------------------------------------

/// The value of the digits of `s` from `from` up to `n`, where all are digits.
pub open spec fn digits_value(s: Seq<char>, from: int, n: int) -> Option<nat>
    decreases n - from,
{
    if from < 0 || from >= n || n > s.len() || !('0' <= s[n - 1] && s[n - 1] <= '9') {
        None
    } else {
        let d = (s[n - 1] as int - '0' as int) as nat;
        if n == from + 1 {
            Some(d)
        } else {
            match digits_value(s, from, n - 1) {
                Some(v) => Some(10 * v + d),
                None => None,
            }
        }
    }
}

/// The number that a text spells: digits, with or without a plus sign before them.
pub open spec fn number(s: Seq<char>) -> Option<nat> {
    let from = if s.len() > 0 && s[0] == '+' {
        1int
    } else {
        0int
    };
    digits_value(s, from, s.len() as int)
}

/// The number that a text spells, where it is no greater than `max`.
pub open spec fn number_up_to(s: Seq<char>, max: nat) -> Option<nat> {
    match number(s) {
        Some(v) => if v <= max {
            Some(v)
        } else {
            None
        },
        None => None,
    }
}

proof fn lemma_digits_grow(s: Seq<char>, from: int, n: int, m: int)
    requires
        from < n <= m <= s.len(),
        0 <= from,
    ensures
        digits_value(s, from, m) is Some ==> digits_value(s, from, n) is Some && digits_value(
            s,
            from,
            n,
        )->0 <= digits_value(s, from, m)->0,
    decreases m - n,
{
    if n < m {
        lemma_digits_grow(s, from, n, m - 1);
    }
}

/// The number that a text spells, where it is no greater than `max`.
pub fn parse_number(s: &str, max: u64) -> (r: Option<u64>)
    ensures
        match r {
            Some(v) => number_up_to(s@, max as nat) == Some(v as nat),
            None => number_up_to(s@, max as nat) is None,
        },
{
    let cs: Vec<char> = chars_of(s);
    let from: usize = if cs.len() > 0 && cs[0] == '+' {
        1
    } else {
        0
    };
    if from == cs.len() {
        return None;
    }
    let mut v: u64 = 0;
    let mut i: usize = from;
    while i < cs.len()
        invariant
            cs@ == s@,
            from <= i <= cs@.len(),
            from < cs@.len(),
            number(s@) == digits_value(s@, from as int, cs@.len() as int),
            v <= max,
            i == from ==> v == 0,
            i > from ==> digits_value(s@, from as int, i as int) == Some(v as nat),
        decreases cs@.len() - i,
    {
        let c: char = cs[i];
        proof {
            lemma_digits_grow(s@, from as int, i + 1, cs@.len() as int);
        }
        if !('0' <= c && c <= '9') {
            return None;
        }
        let d: u64 = (c as u32 - '0' as u32) as u64;
        let w: u128 = 10 * (v as u128) + d as u128;
        assert(digits_value(s@, from as int, i + 1) == Some(w as nat));
        if w > max as u128 {
            return None;
        }
        v = w as u64;
        i += 1;
    }
    Some(v)
}

/// Zeros before a number until it has `width` digits.
pub open spec fn padded(n: nat, width: nat) -> Seq<char> {
    let s = decimal(n);
    if s.len() < width {
        Seq::new((width - s.len()) as nat, |i: int| '0') + s
    } else {
        s
    }
}

/// A number with zeros before it until it has `width` digits.
pub fn pad(n: u64, width: usize) -> (r: String)
    ensures
        r@ == padded(n as nat, width as nat),
{
    let digits: String = crate::text::decimal_of(n);
    let len: usize = digits.as_str().unicode_len();
    let mut out: String = String::new();
    let mut i: usize = len;
    proof {
        reveal_strlit("0");
        assert("0"@ =~= seq!['0']);
    }
    assert(out@ =~= Seq::new(0, |i: int| '0'));
    while i < width
        invariant
            len <= i,
            i <= width || i == len,
            "0"@ == seq!['0'],
            out@ == Seq::new((i - len) as nat, |i: int| '0'),
        decreases width - i,
    {
        out.append("0");
        i += 1;
        assert(out@ =~= Seq::new((i - len) as nat, |i: int| '0'));
    }
    out.append(digits.as_str());
    assert(out@ =~= padded(n as nat, width as nat));
    out
}

/// Digits with a comma before each group of three, counted from the right.
pub open spec fn grouped(s: Seq<char>, n: nat) -> Seq<char>
    decreases n,
{
    if n == 0 || n > s.len() {
        Seq::empty()
    } else {
        let r = grouped(s, (n - 1) as nat);
        let at = n - 1;
        if at > 0 && (s.len() - at) % 3 == 0 {
            r.push(',').push(s[at])
        } else {
            r.push(s[at])
        }
    }
}

/// Digits with a comma before each group of three, counted from the right.
pub fn group(s: &str) -> (r: String)
    ensures
        r@ == grouped(s@, s@.len()),
{
    let n: usize = s.unicode_len();
    let mut out: String = String::new();
    let mut i: usize = 0;
    proof {
        reveal_strlit(",");
        assert(","@ =~= seq![',']);
    }
    while i < n
        invariant
            i <= n,
            n == s@.len(),
            ","@ == seq![','],
            out@ == grouped(s@, i as nat),
        decreases n - i,
    {
        if i > 0 && (n - i) % 3 == 0 {
            out.append(",");
        }
        out.append(s.substring_char(i, i + 1));
        proof {
            assert(s@.subrange(i as int, i + 1) =~= seq![s@[i as int]]);
            assert(out@ =~= grouped(s@, (i + 1) as nat));
        }
        i += 1;
    }
    out
}

// --- Building -----------------------------------------------------------------

/// A text that is put together piece by piece.
pub struct Phrase {
    text: String,
}

impl View for Phrase {
    type V = Seq<char>;

    closed spec fn view(&self) -> Seq<char> {
        self.text@
    }
}

impl Phrase {
    /// A text that starts as `s`.
    pub fn new(s: &str) -> (r: Phrase)
        ensures
            r@ == s@,
    {
        Phrase { text: owned(s) }
    }

    /// The text with `s` behind it.
    pub fn add(self, s: &str) -> (r: Phrase)
        ensures
            r@ == self@ + s@,
    {
        let mut text: String = self.text;
        text.append(s);
        Phrase { text }
    }

    /// The text with a number behind it.
    pub fn num(self, n: u64) -> (r: Phrase)
        ensures
            r@ == self@ + decimal(n as nat),
    {
        self.add(crate::text::decimal_of(n).as_str())
    }

    /// The whole text.
    pub fn done(self) -> (r: String)
        ensures
            r@ == self@,
    {
        self.text
    }
}

/// The lines of a page.
pub type Lines = Seq<Seq<char>>;

/// A page that is written line by line.
pub struct Page {
    lines: Vec<String>,
}

impl View for Page {
    type V = Lines;

    closed spec fn view(&self) -> Lines {
        all_chars(self.lines@)
    }
}

impl Page {
    /// An empty page.
    pub fn new() -> (r: Page)
        ensures
            r@ == Lines::empty(),
    {
        let r: Page = Page { lines: Vec::new() };
        assert(r@ =~= Seq::empty());
        r
    }

    /// The lines of the page.
    pub fn into_lines(self) -> (r: Vec<String>)
        ensures
            all_chars(r@) == self@,
    {
        self.lines
    }

    /// Adds a line.
    pub fn line(&mut self, s: String)
        ensures
            final(self)@ == old(self)@.push(s@),
    {
        let ghost before = self@;
        self.lines.push(s);
        assert(self@ =~= before.push(s@));
    }

    /// Adds a line.
    pub fn text(&mut self, s: &str)
        ensures
            final(self)@ == old(self)@.push(s@),
    {
        self.line(owned(s));
    }

    /// Adds an empty line.
    pub fn blank(&mut self)
        ensures
            final(self)@ == old(self)@.push(Seq::empty()),
    {
        self.line(String::new());
    }
}

} // verus!
