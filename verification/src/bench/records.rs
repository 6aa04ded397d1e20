//! What a scenario reported: one record per run, and the arithmetic on its measurements.
//!
//! A measurement is kept as the number was written. What it is rounded to, and what two
//! of them differ by, are [`Figures`] that are worked out beforehand.

use crate::text::{all_chars, holds_text, owned, same};
use crate::words::{grouped, group, split_at, split_once, trim, trimmed, Phrase};
use vstd::prelude::*;
use vstd::string::*;

verus! {

broadcast use vstd::string::group_string_axioms;

/// The value of a field.
#[derive(Debug, Clone)]
pub enum Field {
    Null,
    /// A number with a fraction, as `serde_json` writes it.
    Measure(String),
    /// A whole number, as `serde_json` writes it.
    Count(String),
    Text(String),
    Flag(bool),
    /// A list or an object, as `serde_json` writes it.
    Other(String),
}

/// The value of a field.
#[verifier::ext_equal]
pub enum FieldV {
    Null,
    Measure(Seq<char>),
    Count(Seq<char>),
    Text(Seq<char>),
    Flag(bool),
    Other(Seq<char>),
}

impl View for Field {
    type V = FieldV;

    open spec fn view(&self) -> FieldV {
        match *self {
            Field::Null => FieldV::Null,
            Field::Measure(s) => FieldV::Measure(s@),
            Field::Count(s) => FieldV::Count(s@),
            Field::Text(s) => FieldV::Text(s@),
            Field::Flag(b) => FieldV::Flag(b),
            Field::Other(s) => FieldV::Other(s@),
        }
    }
}

/// Named fields.
pub type Fields = Seq<(Seq<char>, FieldV)>;

/// Named fields as they are in mathematics.
pub open spec fn fields_view(v: Seq<(String, Field)>) -> Fields {
    Seq::new(v.len(), |i: int| (v[i].0@, v[i].1@))
}

/// One scenario's result.
#[derive(Debug, Clone)]
pub struct Record {
    /// The line that the scenario wrote.
    pub raw: String,
    pub fields: Vec<(String, Field)>,
}

/// One scenario's result.
#[verifier::ext_equal]
pub struct RecordV {
    pub raw: Seq<char>,
    pub fields: Fields,
}

impl View for Record {
    type V = RecordV;

    open spec fn view(&self) -> RecordV {
        RecordV { raw: self.raw@, fields: fields_view(self.fields@) }
    }
}

/// Several results.
pub open spec fn records_view(v: Seq<Record>) -> Seq<RecordV> {
    Seq::new(v.len(), |i: int| v[i]@)
}

// --- JSON ---------------------------------------------------------------------

/// A JSON value.
#[derive(Debug, Clone)]
pub enum Json {
    /// An object, by its members.
    Object(Vec<(String, Field)>),
    /// Anything else.
    Plain,
}

/// A JSON value.
#[verifier::ext_equal]
pub enum JsonV {
    Object(Fields),
    Plain,
}

impl View for Json {
    type V = JsonV;

    open spec fn view(&self) -> JsonV {
        match *self {
            Json::Object(v) => JsonV::Object(fields_view(v@)),
            Json::Plain => JsonV::Plain,
        }
    }
}

/// A JSON value or none, by contents.
pub open spec fn opt_json(o: Option<Json>) -> Option<JsonV> {
    match o {
        Some(j) => Some(j@),
        None => None,
    }
}

/// The JSON value that a text is, if it is one.
pub uninterp spec fn json_value(text: Seq<char>) -> Option<JsonV>;

/// The JSON value that a text is, by `serde_json::from_str`: `None` where the text is not
/// JSON, and an object by its members. A number is a measure where `serde_json` holds it as
/// a fraction. What the value of a given text is is not stated.
#[verifier::external_body]
fn read_json(text: &str) -> (r: Option<Json>)
    ensures
        opt_json(r) == json_value(text@),
{
    let serde_json::Value::Object(m) = serde_json::from_str(text).ok()? else {
        return Some(Json::Plain);
    };
    let mut out = Vec::new();
    for (k, v) in m {
        out.push((k, match v {
            serde_json::Value::Null => Field::Null,
            serde_json::Value::Bool(b) => Field::Flag(b),
            serde_json::Value::Number(n) if n.is_f64() => Field::Measure(n.to_string()),
            serde_json::Value::Number(n) => Field::Count(n.to_string()),
            serde_json::Value::String(s) => Field::Text(s),
            other => Field::Other(other.to_string()),
        }));
    }
    Some(Json::Object(out))
}

/// The members of the JSON object that a text is, if it is one.
pub open spec fn json_members(text: Seq<char>) -> Option<Fields> {
    match json_value(text) {
        Some(JsonV::Object(fields)) => Some(fields),
        _ => None,
    }
}

fn read_object(text: &str) -> (r: Option<Vec<(String, Field)>>)
    ensures
        match r {
            Some(v) => json_members(text@) == Some(fields_view(v@)),
            None => json_members(text@) is None,
        },
{
    match read_json(text) {
        Some(Json::Object(v)) => Some(v),
        _ => None,
    }
}

/// A hexadecimal digit.
pub open spec fn hex_digit(n: int) -> char {
    if n < 10 {
        ('0' as int + n) as char
    } else {
        ('a' as int + n - 10) as char
    }
}

/// A character as it stands in a JSON string: a quote, a backslash and the control
/// characters are escaped.
pub open spec fn escaped(c: char) -> Seq<char> {
    if c == '"' || c == '\\' {
        seq!['\\', c]
    } else if c == '\u{8}' {
        seq!['\\', 'b']
    } else if c == '\t' {
        seq!['\\', 't']
    } else if c == '\n' {
        seq!['\\', 'n']
    } else if c == '\u{c}' {
        seq!['\\', 'f']
    } else if c == '\r' {
        seq!['\\', 'r']
    } else if (c as int) < 0x20 {
        seq!['\\', 'u', '0', '0', hex_digit(c as int / 16), hex_digit(c as int % 16)]
    } else {
        seq![c]
    }
}

/// The first `n` characters of a text as they stand in a JSON string.
pub open spec fn escaped_text(text: Seq<char>, n: nat) -> Seq<char>
    decreases n,
{
    if n == 0 {
        Seq::empty()
    } else {
        escaped_text(text, (n - 1) as nat) + escaped(text[n - 1])
    }
}

/// A text as a JSON string, with its quotes.
pub open spec fn json_quoted(text: Seq<char>) -> Seq<char> {
    seq!['"'] + escaped_text(text, text.len()) + seq!['"']
}

/// A text as a JSON string, by `serde_json::to_string`, which never fails on a text: in
/// quotes, with every character as its table of escapes has it.
#[verifier::external_body]
fn quote(text: &str) -> (r: String)
    ensures
        r@ == json_quoted(text@),
{
    serde_json::to_string(text).unwrap_or_default()
}

// --- Reading fields -----------------------------------------------------------

/// Which of the first `n` fields has a name.
pub open spec fn field_index(fs: Fields, key: Seq<char>, n: int) -> Option<int>
    decreases n,
{
    if n <= 0 || n > fs.len() {
        None
    } else {
        match field_index(fs, key, n - 1) {
            Some(i) => Some(i),
            None => if fs[n - 1].0 == key {
                Some(n - 1)
            } else {
                None
            },
        }
    }
}

/// The field of a name.
pub open spec fn member(fs: Fields, key: Seq<char>) -> Option<FieldV> {
    match field_index(fs, key, fs.len() as int) {
        Some(i) => Some(fs[i].1),
        None => None,
    }
}

impl RecordV {
    /// The field of a name.
    pub open spec fn field(self, key: Seq<char>) -> Option<FieldV> {
        member(self.fields, key)
    }

    /// The text in a field, empty where there is none.
    pub open spec fn text(self, key: Seq<char>) -> Seq<char> {
        match self.field(key) {
            Some(FieldV::Text(s)) => s,
            _ => Seq::empty(),
        }
    }

    /// Success, unless it says otherwise.
    pub open spec fn ok(self) -> bool {
        self.field("ok"@) != Some(FieldV::Flag(false))
    }

    /// The wall time as it was written, nought where there is none.
    pub open spec fn wall(self) -> Seq<char> {
        match self.field("wall_ms"@) {
            Some(FieldV::Measure(s)) => s,
            Some(FieldV::Count(s)) => s,
            _ => "0"@,
        }
    }
}

/// What a line says: its members, where it is a JSON object but for white space around it.
pub open spec fn read_line(line: Seq<char>) -> Option<RecordV> {
    match json_members(trimmed(line)) {
        Some(fields) => Some(RecordV { raw: trimmed(line), fields }),
        None => None,
    }
}

/// An exit code in decimal.
pub open spec fn signed(n: int) -> Seq<char> {
    if n < 0 {
        "-"@ + crate::text::decimal((-n) as nat)
    } else {
        crate::text::decimal(n as nat)
    }
}

/// The record of a scenario that failed or did not report.
pub open spec fn failed(
    basis: Seq<char>,
    mode: Seq<char>,
    exit_code: int,
    error: Seq<char>,
    wall_ms: Option<Seq<char>>,
) -> RecordV {
    let wall_text = match wall_ms {
        Some(t) => t,
        None => "null"@,
    };
    RecordV {
        raw: "{\"basis\":"@ + json_quoted(basis) + ",\"error\":"@ + json_quoted(error)
            + ",\"exit_code\":"@ + signed(exit_code) + ",\"mode\":"@ + json_quoted(mode)
            + ",\"ok\":false,\"wall_ms\":"@ + wall_text + "}"@,
        fields: seq![
            ("basis"@, FieldV::Text(basis)),
            ("mode"@, FieldV::Text(mode)),
            ("ok"@, FieldV::Flag(false)),
            ("exit_code"@, FieldV::Count(signed(exit_code))),
            ("error"@, FieldV::Text(error)),
            (
                "wall_ms"@,
                match wall_ms {
                    Some(t) => FieldV::Measure(t),
                    None => FieldV::Null,
                },
            ),
        ],
    }
}

/// An exit code in decimal.
pub fn signed_text(n: i32) -> (r: String)
    ensures
        r@ == signed(n as int),
{
    if n < 0 {
        Phrase::new("-").num((-(n as i64)) as u64).done()
    } else {
        crate::text::decimal_of(n as u64)
    }
}

impl Record {
    /// What a scenario's line says, if it is a JSON object.
    pub fn parse(line: &str) -> (r: Option<Record>)
        ensures
            match r {
                Some(x) => read_line(line@) == Some(x@),
                None => read_line(line@) is None,
            },
    {
        let raw: &str = trim(line);
        match read_object(raw) {
            Some(fields) => Some(Record { raw: owned(raw), fields }),
            None => None,
        }
    }

    /// The record of a scenario that failed or did not report. The wall time is a number
    /// as JSON writes it.
    pub fn failure(
        basis: &str,
        mode: &str,
        exit_code: i32,
        error: &str,
        wall_ms: Option<String>,
    ) -> (r: Record)
        ensures
            r@ == failed(
                basis@,
                mode@,
                exit_code as int,
                error@,
                crate::text::opt_chars(wall_ms),
            ),
    {
        let code: String = signed_text(exit_code);
        let raw: Phrase = Phrase::new("{\"basis\":").add(quote(basis).as_str()).add(
            ",\"error\":",
        ).add(quote(error).as_str()).add(",\"exit_code\":").add(code.as_str()).add(
            ",\"mode\":",
        ).add(quote(mode).as_str()).add(",\"ok\":false,\"wall_ms\":");
        let (raw, wall) = match wall_ms {
            Some(t) => (raw.add(t.as_str()), Field::Measure(t)),
            None => (raw.add("null"), Field::Null),
        };
        let mut fields: Vec<(String, Field)> = Vec::new();
        fields.push((owned("basis"), Field::Text(owned(basis))));
        fields.push((owned("mode"), Field::Text(owned(mode))));
        fields.push((owned("ok"), Field::Flag(false)));
        fields.push((owned("exit_code"), Field::Count(code)));
        fields.push((owned("error"), Field::Text(owned(error))));
        fields.push((owned("wall_ms"), wall));
        let r: Record = Record { raw: raw.add("}").done(), fields };
        assert(r@.fields =~= failed(
            basis@,
            mode@,
            exit_code as int,
            error@,
            crate::text::opt_chars(wall_ms),
        ).fields);
        r
    }

    fn field(&self, key: &str) -> (r: Option<&Field>)
        ensures
            match r {
                Some(f) => self@.field(key@) == Some(f@),
                None => self@.field(key@) is None,
            },
    {
        find_field(&self.fields, key)
    }

    /// The text in a field, empty where there is none.
    fn text(&self, key: &str) -> (r: String)
        ensures
            r@ == self@.text(key@),
    {
        match self.field(key) {
            Some(Field::Text(s)) => s.clone(),
            _ => String::new(),
        }
    }

    /// The basis that was run.
    pub fn basis(&self) -> (r: String)
        ensures
            r@ == self@.text("basis"@),
    {
        self.text("basis")
    }

    /// The mode that was run.
    pub fn mode(&self) -> (r: String)
        ensures
            r@ == self@.text("mode"@),
    {
        self.text("mode")
    }

    /// Why it failed, empty where it does not say.
    pub fn error(&self) -> (r: String)
        ensures
            r@ == self@.text("error"@),
    {
        self.text("error")
    }

    /// Success, unless it says otherwise.
    pub fn ok(&self) -> (r: bool)
        ensures
            r == self@.ok(),
    {
        match self.field("ok") {
            Some(Field::Flag(b)) => *b,
            _ => true,
        }
    }

    fn wall(&self) -> (r: String)
        ensures
            r@ == self@.wall(),
    {
        match self.field("wall_ms") {
            Some(Field::Measure(s)) => s.clone(),
            Some(Field::Count(s)) => s.clone(),
            _ => owned("0"),
        }
    }
}

proof fn lemma_field_stays(fs: Fields, key: Seq<char>, n: int, m: int)
    requires
        n <= m <= fs.len(),
        field_index(fs, key, n) is Some,
    ensures
        field_index(fs, key, m) == field_index(fs, key, n),
    decreases m - n,
{
    if n < m {
        lemma_field_stays(fs, key, n, m - 1);
    }
}

fn find_field<'a>(fields: &'a Vec<(String, Field)>, key: &str) -> (r: Option<&'a Field>)
    ensures
        match r {
            Some(f) => member(fields_view(fields@), key@) == Some(f@),
            None => member(fields_view(fields@), key@) is None,
        },
{
    let ghost fs = fields_view(fields@);
    let mut i: usize = 0;
    while i < fields.len()
        invariant
            i <= fields@.len(),
            fs == fields_view(fields@),
            field_index(fs, key@, i as int) is None,
        decreases fields@.len() - i,
    {
        assert(fs[i as int].0 == fields@[i as int].0@);
        if same(fields[i].0.as_str(), key) {
            proof {
                lemma_field_stays(fs, key@, i + 1, fs.len() as int);
                assert(fs[i as int].1 == fields@[i as int].1@);
            }
            return Some(&fields[i].1);
        }
        i += 1;
    }
    None
}

// --- Benchmarks ---------------------------------------------------------------

/// The name in a benchmark's description, or else that of its directory.
pub open spec fn described(fields: Option<Fields>, dir: Seq<char>) -> Seq<char> {
    match fields {
        Some(fields) => match member(fields, "full_id"@) {
            Some(FieldV::Text(s)) => s,
            _ => dir,
        },
        None => dir,
    }
}

/// The name of a benchmark by the fields of its description, or else by its directory.
pub fn described_name(fields: Option<Vec<(String, Field)>>, dir: &str) -> (r: String)
    ensures
        r@ == described(
            match fields {
                Some(f) => Some(fields_view(f@)),
                None => None,
            },
            dir@,
        ),
{
    match fields {
        Some(fields) => match find_field(&fields, "full_id") {
            Some(Field::Text(s)) => s.clone(),
            _ => owned(dir),
        },
        None => owned(dir),
    }
}

/// The name of a benchmark: as its description says, where there is one that does, or else
/// its directory.
pub fn bench_name(description: Option<&str>, dir: &str) -> (r: String)
    ensures
        r@ == described(
            match description {
                Some(t) => json_members(t@),
                None => None,
            },
            dir@,
        ),
{
    match description {
        Some(t) => described_name(read_object(t), dir),
        None => owned(dir),
    }
}

/// The list or object that is a member of a JSON value, as text.
pub open spec fn inner(json: JsonV, key: Seq<char>) -> Option<Seq<char>> {
    match json {
        JsonV::Object(fields) => match member(fields, key) {
            Some(FieldV::Other(t)) => Some(t),
            _ => None,
        },
        JsonV::Plain => None,
    }
}

/// The list or object that is a member of a JSON value, as text.
pub fn inner_text(json: &Json, key: &str) -> (r: Option<String>)
    ensures
        crate::text::opt_chars(r) == inner(json@, key@),
{
    match json {
        Json::Object(fields) => match find_field(fields, key) {
            Some(Field::Other(t)) => Some(t.clone()),
            _ => None,
        },
        Json::Plain => None,
    }
}

/// The point that an estimate gives, where it gives a number.
pub open spec fn point(json: Option<JsonV>) -> Option<Seq<char>> {
    match json {
        Some(JsonV::Object(fields)) => match member(fields, "point_estimate"@) {
            Some(FieldV::Measure(s)) => Some(s),
            Some(FieldV::Count(s)) => Some(s),
            _ => None,
        },
        _ => None,
    }
}

/// The point that an estimate gives, where it gives a number.
pub fn point_text(json: Option<Json>) -> (r: Option<String>)
    ensures
        crate::text::opt_chars(r) == point(opt_json(json)),
{
    match json {
        Some(Json::Object(fields)) => match find_field(&fields, "point_estimate") {
            Some(Field::Measure(s)) => Some(s.clone()),
            Some(Field::Count(s)) => Some(s.clone()),
            _ => None,
        },
        _ => None,
    }
}

/// The point of the estimate of a name, among all estimates of a benchmark.
pub open spec fn estimated(json: JsonV, key: Seq<char>) -> Option<Seq<char>> {
    match inner(json, key) {
        Some(t) => point(json_value(t)),
        None => None,
    }
}

fn point_estimate(json: &Json, key: &str) -> (r: Option<String>)
    ensures
        crate::text::opt_chars(r) == estimated(json@, key@),
{
    match inner_text(json, key) {
        Some(t) => point_text(read_json(t.as_str())),
        None => None,
    }
}

/// What was estimated of a benchmark, in nanoseconds: numbers as `serde_json` writes them,
/// none where there is no such number.
#[derive(Debug, Clone)]
pub struct Estimates {
    pub id: String,
    pub mean: Option<String>,
    pub median: Option<String>,
    pub std_dev: Option<String>,
}

/// What a file of estimates says of a benchmark, named as its description says or else by
/// its directory. A text that is not JSON says nothing; JSON without an estimate leaves that
/// one out.
pub fn read_estimates(text: &str, description: Option<&str>, dir: &str) -> (r: Option<Estimates>)
    ensures
        match (r, json_value(text@)) {
            (Some(e), Some(json)) => {
                &&& e.id@ == described(
                    match description {
                        Some(t) => json_members(t@),
                        None => None,
                    },
                    dir@,
                )
                &&& crate::text::opt_chars(e.mean) == estimated(json, "mean"@)
                &&& crate::text::opt_chars(e.median) == estimated(json, "median"@)
                &&& crate::text::opt_chars(e.std_dev) == estimated(json, "std_dev"@)
            },
            (None, None) => true,
            _ => false,
        },
{
    match read_json(text) {
        Some(json) => Some(
            Estimates {
                id: bench_name(description, dir),
                mean: point_estimate(&json, "mean"),
                median: point_estimate(&json, "median"),
                std_dev: point_estimate(&json, "std_dev"),
            },
        ),
        None => None,
    }
}

// --- Figures ------------------------------------------------------------------

/// A number rounded to two decimals: its sign, and its digits without it.
#[derive(Debug, Clone)]
pub struct Figure {
    pub negative: bool,
    pub digits: String,
}

/// What measurements are rounded to, and what pairs of wall times differ by, rounded.
#[derive(Debug, Clone)]
pub struct Figures {
    pub rounded: Vec<(String, Figure)>,
    pub differences: Vec<((String, String), Figure)>,
}

/// Digits with their whole part in groups of three, and the sign before them.
pub open spec fn in_thousands(negative: bool, digits: Seq<char>) -> Seq<char> {
    let (whole, frac) = match split_at(digits, "."@) {
        Some(parts) => parts,
        None => (digits, "00"@),
    };
    (if negative {
        "-"@
    } else {
        Seq::empty()
    }) + grouped(whole, whole.len()) + "."@ + frac
}

/// A number as it stands in a table: its digits, rounded to two decimals and without a
/// sign, with the whole part in groups of three, and the sign before them.
pub fn thousands(negative: bool, formatted: &str) -> (r: String)
    ensures
        r@ == in_thousands(negative, formatted@),
{
    let (whole, frac) = match split_once(formatted, ".") {
        Some(parts) => parts,
        None => (formatted, "00"),
    };
    let sign: Phrase = if negative {
        Phrase::new("-")
    } else {
        let p: Phrase = Phrase::new("");
        proof {
            reveal_strlit("");
            assert(""@ =~= Seq::empty());
        }
        p
    };
    sign.add(group(whole).as_str()).add(".").add(frac).done()
}

impl Figures {
    /// What a measurement is rounded to, by the first of `n` entries that says so.
    pub open spec fn rounding(self, text: Seq<char>, n: int) -> Option<Figure>
        decreases n,
    {
        if n <= 0 || n > self.rounded@.len() {
            None
        } else {
            match self.rounding(text, n - 1) {
                Some(f) => Some(f),
                None => if self.rounded@[n - 1].0@ == text {
                    Some(self.rounded@[n - 1].1)
                } else {
                    None
                },
            }
        }
    }

    /// What two wall times differ by, by the first of `n` entries that says so.
    pub open spec fn gap(self, a: Seq<char>, b: Seq<char>, n: int) -> Option<Figure>
        decreases n,
    {
        if n <= 0 || n > self.differences@.len() {
            None
        } else {
            match self.gap(a, b, n - 1) {
                Some(f) => Some(f),
                None => {
                    let (x, y) = self.differences@[n - 1].0;
                    if x@ == a && y@ == b {
                        Some(self.differences@[n - 1].1)
                    } else {
                        None
                    }
                },
            }
        }
    }

    /// A measurement as it stands in a table, a dash where its rounding is not known.
    pub open spec fn measure_cell(self, text: Seq<char>) -> Seq<char> {
        figure_cell(self.rounding(text, self.rounded@.len() as int))
    }

    /// A difference of two wall times as it stands in a table.
    pub open spec fn gap_cell(self, a: Seq<char>, b: Seq<char>) -> Seq<char> {
        figure_cell(self.gap(a, b, self.differences@.len() as int))
    }
}

/// A figure as it stands in a table, a dash where there is none.
pub open spec fn figure_cell(f: Option<Figure>) -> Seq<char> {
    match f {
        Some(x) => in_thousands(x.negative, x.digits@),
        None => "-"@,
    }
}

proof fn lemma_rounding_stays(f: Figures, text: Seq<char>, n: int, m: int)
    requires
        n <= m <= f.rounded@.len(),
        f.rounding(text, n) is Some,
    ensures
        f.rounding(text, m) == f.rounding(text, n),
    decreases m - n,
{
    if n < m {
        lemma_rounding_stays(f, text, n, m - 1);
    }
}

proof fn lemma_gap_stays(f: Figures, a: Seq<char>, b: Seq<char>, n: int, m: int)
    requires
        n <= m <= f.differences@.len(),
        f.gap(a, b, n) is Some,
    ensures
        f.gap(a, b, m) == f.gap(a, b, n),
    decreases m - n,
{
    if n < m {
        lemma_gap_stays(f, a, b, n, m - 1);
    }
}

impl Figures {
    fn show_measure(&self, text: &str) -> (r: String)
        ensures
            r@ == self.measure_cell(text@),
    {
        let mut i: usize = 0;
        while i < self.rounded.len()
            invariant
                i <= self.rounded@.len(),
                self.rounding(text@, i as int) is None,
            decreases self.rounded@.len() - i,
        {
            if same(self.rounded[i].0.as_str(), text) {
                proof {
                    lemma_rounding_stays(*self, text@, i + 1, self.rounded@.len() as int);
                }
                let f: &Figure = &self.rounded[i].1;
                return thousands(f.negative, f.digits.as_str());
            }
            i += 1;
        }
        owned("-")
    }

    fn show_gap(&self, a: &str, b: &str) -> (r: String)
        ensures
            r@ == self.gap_cell(a@, b@),
    {
        let mut i: usize = 0;
        while i < self.differences.len()
            invariant
                i <= self.differences@.len(),
                self.gap(a@, b@, i as int) is None,
            decreases self.differences@.len() - i,
        {
            let pair: &(String, String) = &self.differences[i].0;
            if same(pair.0.as_str(), a) && same(pair.1.as_str(), b) {
                proof {
                    lemma_gap_stays(*self, a@, b@, i + 1, self.differences@.len() as int);
                }
                let f: &Figure = &self.differences[i].1;
                return thousands(f.negative, f.digits.as_str());
            }
            i += 1;
        }
        owned("-")
    }
}

// --- Cells --------------------------------------------------------------------

/// A field as it stands in a table: measurements in groups of three with two decimals,
/// whole numbers as they were written, a dash where there is nothing.
pub open spec fn shown_field(r: RecordV, key: Seq<char>, figs: Figures) -> Seq<char> {
    match r.field(key) {
        None => "-"@,
        Some(FieldV::Null) => "-"@,
        Some(FieldV::Measure(s)) => figs.measure_cell(s),
        Some(FieldV::Count(s)) => s,
        Some(FieldV::Text(s)) => s,
        Some(FieldV::Flag(b)) => if b {
            "true"@
        } else {
            "false"@
        },
        Some(FieldV::Other(s)) => s,
    }
}

/// A field of a record that may be missing.
pub open spec fn shown_field_of(
    records: Seq<RecordV>,
    at: Option<int>,
    key: Seq<char>,
    figs: Figures,
) -> Seq<char> {
    match at {
        Some(i) => shown_field(records[i], key, figs),
        None => "-"@,
    }
}

/// The difference of the wall times of two records, a dash where one is missing.
pub open spec fn wall_gap(
    records: Seq<RecordV>,
    a: Option<int>,
    b: Option<int>,
    figs: Figures,
) -> Seq<char> {
    match (a, b) {
        (Some(i), Some(j)) => figs.gap_cell(records[i].wall(), records[j].wall()),
        _ => "-"@,
    }
}

/// The first record from `from` of a basis and a mode that succeeded.
pub open spec fn found_from(
    records: Seq<RecordV>,
    basis: Seq<char>,
    mode: Seq<char>,
    from: int,
) -> Option<int>
    decreases records.len() - from,
{
    if from < 0 || from >= records.len() {
        None
    } else if records[from].text("basis"@) == basis && records[from].text("mode"@) == mode
        && records[from].ok() {
        Some(from)
    } else {
        found_from(records, basis, mode, from + 1)
    }
}

/// The bases of the first `n` records, each once, as they come.
pub open spec fn bases_seen(records: Seq<RecordV>, n: nat) -> Seq<Seq<char>>
    decreases n,
{
    if n == 0 {
        Seq::empty()
    } else {
        let r = bases_seen(records, (n - 1) as nat);
        let b = records[n - 1].text("basis"@);
        if r.contains(b) {
            r
        } else {
            r.push(b)
        }
    }
}

pub fn cell(r: &Record, key: &str, figs: &Figures) -> (s: String)
    ensures
        s@ == shown_field(r@, key@, *figs),
{
    match r.field(key) {
        None => owned("-"),
        Some(Field::Null) => owned("-"),
        Some(Field::Measure(s)) => figs.show_measure(s.as_str()),
        Some(Field::Count(s)) => s.clone(),
        Some(Field::Text(s)) => s.clone(),
        Some(Field::Flag(b)) => if *b {
            owned("true")
        } else {
            owned("false")
        },
        Some(Field::Other(s)) => s.clone(),
    }
}

pub open spec fn index_of(o: Option<usize>) -> Option<int> {
    match o {
        Some(i) => Some(i as int),
        None => None,
    }
}

pub fn cell_of(records: &[Record], at: Option<usize>, key: &str, figs: &Figures) -> (s: String)
    requires
        at is Some ==> at->0 < records@.len(),
    ensures
        s@ == shown_field_of(records_view(records@), index_of(at), key@, *figs),
{
    match at {
        Some(i) => {
            assert(records_view(records@)[i as int] == records@[i as int]@);
            cell(&records[i], key, figs)
        },
        None => owned("-"),
    }
}

pub fn delta(records: &[Record], a: Option<usize>, b: Option<usize>, figs: &Figures) -> (s: String)
    requires
        a is Some ==> a->0 < records@.len(),
        b is Some ==> b->0 < records@.len(),
    ensures
        s@ == wall_gap(records_view(records@), index_of(a), index_of(b), *figs),
{
    match (a, b) {
        (Some(i), Some(j)) => {
            assert(records_view(records@)[i as int] == records@[i as int]@);
            assert(records_view(records@)[j as int] == records@[j as int]@);
            figs.show_gap(records[i].wall().as_str(), records[j].wall().as_str())
        },
        _ => owned("-"),
    }
}

/// The first record of a basis and a mode that succeeded.
pub fn find(records: &[Record], basis: &str, mode: &str) -> (r: Option<usize>)
    ensures
        index_of(r) == found_from(records_view(records@), basis@, mode@, 0),
        r is Some ==> r->0 < records@.len(),
{
    let ghost rs = records_view(records@);
    let mut i: usize = 0;
    while i < records.len()
        invariant
            i <= records@.len(),
            rs == records_view(records@),
            found_from(rs, basis@, mode@, 0) == found_from(rs, basis@, mode@, i as int),
        decreases records@.len() - i,
    {
        assert(rs[i as int] == records@[i as int]@);
        if same(records[i].basis().as_str(), basis) && same(records[i].mode().as_str(), mode)
            && records[i].ok() {
            return Some(i);
        }
        i += 1;
    }
    None
}

/// The bases of records, each once, as they come.
pub fn bases_in_order(records: &[Record]) -> (r: Vec<String>)
    ensures
        all_chars(r@) == bases_seen(records_view(records@), records@.len()),
{
    let ghost rs = records_view(records@);
    let mut out: Vec<String> = Vec::new();
    let mut i: usize = 0;
    assert(all_chars(out@) =~= bases_seen(rs, 0));
    while i < records.len()
        invariant
            i <= records@.len(),
            rs == records_view(records@),
            all_chars(out@) == bases_seen(rs, i as nat),
        decreases records@.len() - i,
    {
        assert(rs[i as int] == records@[i as int]@);
        let b: String = records[i].basis();
        if !holds_text(out.as_slice(), b.as_str()) {
            let ghost before = all_chars(out@);
            out.push(b);
            assert(all_chars(out@) =~= before.push(b@));
        }
        i += 1;
    }
    out
}

// --- Figures that are needed --------------------------------------------------

/// The measurements among the first `n` fields.
pub open spec fn field_measures(fs: Fields, n: nat) -> Seq<Seq<char>>
    decreases n,
{
    if n == 0 {
        Seq::empty()
    } else {
        let r = field_measures(fs, (n - 1) as nat);
        match fs[n - 1].1 {
            FieldV::Measure(s) => r.push(s),
            _ => r,
        }
    }
}

/// The measurements in the first `n` records.
pub open spec fn measures_in(records: Seq<RecordV>, n: nat) -> Seq<Seq<char>>
    decreases n,
{
    if n == 0 {
        Seq::empty()
    } else {
        measures_in(records, (n - 1) as nat) + field_measures(
            records[n - 1].fields,
            records[n - 1].fields.len(),
        )
    }
}

/// The measurements in records: what [`Figures::rounded`] has to cover.
pub fn measures(records: &[Record]) -> (r: Vec<String>)
    ensures
        all_chars(r@) == measures_in(records_view(records@), records@.len()),
{
    let ghost rs = records_view(records@);
    let mut out: Vec<String> = Vec::new();
    let mut i: usize = 0;
    assert(all_chars(out@) =~= Seq::empty());
    while i < records.len()
        invariant
            i <= records@.len(),
            rs == records_view(records@),
            all_chars(out@) == measures_in(rs, i as nat),
        decreases records@.len() - i,
    {
        let fields: &Vec<(String, Field)> = &records[i].fields;
        let ghost before = all_chars(out@);
        let ghost fs = fields_view(fields@);
        assert(rs[i as int].fields == fs);
        let mut j: usize = 0;
        assert(before + field_measures(fs, 0) =~= before);
        while j < fields.len()
            invariant
                j <= fields@.len(),
                fs == fields_view(fields@),
                all_chars(out@) == before + field_measures(fs, j as nat),
            decreases fields@.len() - j,
        {
            assert(fs[j as int].1 == fields@[j as int].1@);
            let ghost sofar = all_chars(out@);
            match &fields[j].1 {
                Field::Measure(s) => {
                    out.push(s.clone());
                    assert(all_chars(out@) =~= sofar.push(s@));
                    assert(sofar.push(s@) =~= before + field_measures(fs, (j + 1) as nat));
                },
                _ => {},
            }
            j += 1;
        }
        i += 1;
    }
    out
}

/// The wall times of two records, where both are there.
pub open spec fn walls_of(records: Seq<RecordV>, a: Option<int>, b: Option<int>) -> Seq<
    (Seq<char>, Seq<char>),
> {
    match (a, b) {
        (Some(i), Some(j)) => seq![(records[i].wall(), records[j].wall())],
        _ => Seq::empty(),
    }
}

/// The pairs of wall times that differ by the time to validate, and by the time to
/// deserialize and index, for the first `n` bases.
pub open spec fn wall_pairs_in(records: Seq<RecordV>, bases: Seq<Seq<char>>, n: nat) -> Seq<
    (Seq<char>, Seq<char>),
>
    decreases n,
{
    if n == 0 {
        Seq::empty()
    } else {
        let b = bases[n - 1];
        let ch = found_from(records, b, "cache_hit"@, 0);
        let ac = found_from(records, b, "access_checked"@, 0);
        let au = found_from(records, b, "access_unchecked"@, 0);
        wall_pairs_in(records, bases, (n - 1) as nat) + walls_of(records, ac, au) + walls_of(
            records,
            ch,
            ac,
        )
    }
}

/// Pairs of texts as they are in mathematics.
pub open spec fn pairs_view(v: Seq<(String, String)>) -> Seq<(Seq<char>, Seq<char>)> {
    Seq::new(v.len(), |i: int| (v[i].0@, v[i].1@))
}

fn push_walls(out: &mut Vec<(String, String)>, records: &[Record], a: Option<usize>, b: Option<
    usize,
>)
    requires
        a is Some ==> a->0 < records@.len(),
        b is Some ==> b->0 < records@.len(),
    ensures
        pairs_view(final(out)@) == pairs_view(old(out)@) + walls_of(
            records_view(records@),
            index_of(a),
            index_of(b),
        ),
{
    let ghost rs = records_view(records@);
    let ghost before = pairs_view(out@);
    match (a, b) {
        (Some(i), Some(j)) => {
            assert(rs[i as int] == records@[i as int]@ && rs[j as int] == records@[j as int]@);
            out.push((records[i].wall(), records[j].wall()));
            assert(pairs_view(out@) =~= before + walls_of(rs, index_of(a), index_of(b)));
        },
        _ => {
            assert(before + walls_of(rs, index_of(a), index_of(b)) =~= before);
        },
    }
}

/// The pairs of wall times that are subtracted: what [`Figures::differences`] has to cover.
pub fn wall_pairs(records: &[Record]) -> (r: Vec<(String, String)>)
    ensures
        ({
            let rs = records_view(records@);
            let bases = bases_seen(rs, rs.len());
            pairs_view(r@) == wall_pairs_in(rs, bases, bases.len())
        }),
{
    let ghost rs = records_view(records@);
    let bases: Vec<String> = bases_in_order(records);
    let ghost bs = all_chars(bases@);
    let mut out: Vec<(String, String)> = Vec::new();
    let mut i: usize = 0;
    assert(pairs_view(out@) =~= Seq::empty());
    while i < bases.len()
        invariant
            i <= bases@.len(),
            bs == all_chars(bases@),
            rs == records_view(records@),
            pairs_view(out@) == wall_pairs_in(rs, bs, i as nat),
        decreases bases@.len() - i,
    {
        assert(bs[i as int] == bases@[i as int]@);
        let b: &str = bases[i].as_str();
        let ch: Option<usize> = find(records, b, "cache_hit");
        let ac: Option<usize> = find(records, b, "access_checked");
        let au: Option<usize> = find(records, b, "access_unchecked");
        push_walls(&mut out, records, ac, au);
        push_walls(&mut out, records, ch, ac);
        i += 1;
    }
    out
}

/// Where the roundings of all measurements are known, every measurement is shown rounded
/// and in groups of three; none shows as missing.
pub proof fn law_known_measurements_are_shown(
    records: Seq<RecordV>,
    figs: Figures,
    i: int,
    key: Seq<char>,
)
    requires
        0 <= i < records.len(),
        forall|k: int|
            0 <= k < measures_in(records, records.len()).len() ==> figs.rounding(
                #[trigger] measures_in(records, records.len())[k],
                figs.rounded@.len() as int,
            ) is Some,
        records[i].field(key) is Some,
        records[i].field(key)->0 is Measure,
    ensures
        exists|f: Figure|
            shown_field(records[i], key, figs) == #[trigger] in_thousands(f.negative, f.digits@),
{
    let fs = records[i].fields;
    let at = field_index(fs, key, fs.len() as int)->0;
    lemma_field_index_range(fs, key, fs.len() as int);
    let text = fs[at].1->Measure_0;
    lemma_field_measure(fs, at, fs.len());
    lemma_measures_contain(records, i, records.len(), text);
    let all = measures_in(records, records.len());
    let k = choose|k: int| 0 <= k < all.len() && all[k] == text;
    assert(figs.rounding(all[k], figs.rounded@.len() as int) is Some);
    let f = figs.rounding(text, figs.rounded@.len() as int)->0;
    assert(shown_field(records[i], key, figs) == in_thousands(f.negative, f.digits@));
}

proof fn lemma_field_index_range(fs: Fields, key: Seq<char>, n: int)
    ensures
        field_index(fs, key, n) is Some ==> 0 <= field_index(fs, key, n)->0 < fs.len(),
    decreases n,
{
    if 0 < n <= fs.len() {
        lemma_field_index_range(fs, key, n - 1);
    }
}

proof fn lemma_field_measure(fs: Fields, at: int, n: nat)
    requires
        0 <= at < n <= fs.len(),
        fs[at].1 is Measure,
    ensures
        field_measures(fs, n).contains(fs[at].1->Measure_0),
    decreases n,
{
    let r = field_measures(fs, (n - 1) as nat);
    if at == n - 1 {
        assert(r.push(fs[at].1->Measure_0)[r.len() as int] == fs[at].1->Measure_0);
    } else {
        lemma_field_measure(fs, at, (n - 1) as nat);
        let k = choose|k: int| 0 <= k < r.len() && r[k] == fs[at].1->Measure_0;
        assert(field_measures(fs, n)[k] == r[k]);
    }
}

proof fn lemma_measures_contain(records: Seq<RecordV>, i: int, n: nat, text: Seq<char>)
    requires
        0 <= i < n <= records.len(),
        field_measures(records[i].fields, records[i].fields.len()).contains(text),
    ensures
        measures_in(records, n).contains(text),
    decreases n,
{
    let r = measures_in(records, (n - 1) as nat);
    let last = field_measures(records[n - 1].fields, records[n - 1].fields.len());
    if i == n - 1 {
        let k = choose|k: int| 0 <= k < last.len() && last[k] == text;
        assert((r + last)[r.len() + k] == text);
    } else {
        lemma_measures_contain(records, i, (n - 1) as nat, text);
        let k = choose|k: int| 0 <= k < r.len() && r[k] == text;
        assert((r + last)[k] == text);
    }
}

} // verus!
