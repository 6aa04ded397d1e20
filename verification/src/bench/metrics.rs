//! The metrics file: everything that a run of the scenarios measured, as a page of text.

use crate::bench::records::{
    bases_in_order, bases_seen, cell, cell_of, delta, find, found_from, records_view, shown_field,
    shown_field_of, wall_gap, Figures, Record, RecordV,
};
use crate::bench::scenario::{is_load_mode, loads};
use crate::text::{all_chars, owned, same};
use crate::words::{join, joined_by, Lines, Page, Phrase};
use vstd::prelude::*;
use vstd::string::*;

verus! {

broadcast use vstd::string::group_string_axioms;

/// What is known of the machine and the program that measured.
#[derive(Debug, Clone)]
pub struct EnvFacts {
    pub generated: String,
    /// What wrote the file.
    pub generator: String,
    pub cpu: String,
    pub threads: String,
    pub ram_total: String,
    pub ram_available: String,
    pub os: String,
    pub rustc: String,
    pub cargo: String,
    pub git: String,
    pub build: String,
    pub bases: Vec<String>,
    pub model: String,
}

/// One estimate of the statistical layer, its numbers in milliseconds with three decimals.
#[derive(Debug, Clone)]
pub struct CriterionRow {
    pub id: String,
    pub mean_ms: String,
    pub median_ms: String,
    pub std_dev_ms: String,
}

/// The sections that the scenarios do not fill.
#[derive(Debug, Clone)]
pub struct Notes {
    pub criterion_note: String,
    pub criterion_rows: Vec<CriterionRow>,
    /// Whether the statistical layer ran.
    pub criterion_ran: bool,
    /// What stands in place of the report table.
    pub report_note: Option<String>,
    pub report_table: Vec<String>,
    /// Where the model of the run was elaborated from, where the run did so itself.
    pub elaborated: Option<String>,
}

impl Default for Notes {
    fn default() -> (r: Self)
        ensures
            r.criterion_note@.len() == 0,
            r.criterion_rows@.len() == 0,
            !r.criterion_ran,
            r.report_note is None,
            r.report_table@.len() == 0,
            r.elaborated is None,
    {
        Notes {
            criterion_note: String::new(),
            criterion_rows: Vec::new(),
            criterion_ran: false,
            report_note: None,
            report_table: Vec::new(),
            elaborated: None,
        }
    }
}

/// The sections of a packaged program, which has neither extra layer, and says why.
pub fn packaged_notes() -> (r: Notes)
    ensures
        r.criterion_note@
            == "not run — the criterion layer needs `cargo bench` and a Rust toolchain, which a packaged build has neither of"@,
        r.criterion_rows@.len() == 0,
        !r.criterion_ran,
        r.report_note is Some,
        r.report_note->0@
            == "not run — the derived tables come from the `report` bin, a second executable the bundle does not carry"@,
        r.report_table@.len() == 0,
        r.elaborated is None,
{
    Notes {
        criterion_note: owned(
            "not run — the criterion layer needs `cargo bench` and a Rust toolchain, which a packaged build has neither of",
        ),
        criterion_rows: Vec::new(),
        criterion_ran: false,
        report_note: Some(
            owned(
                "not run — the derived tables come from the `report` bin, a second executable the bundle does not carry",
            ),
        ),
        report_table: Vec::new(),
        elaborated: None,
    }
}

// --- Order of texts -----------------------------------------------------------

/// Whether a text comes before another: at the first difference its character is the
/// lower one, or it ends there.
pub open spec fn text_less(a: Seq<char>, b: Seq<char>) -> bool
    decreases a.len(),
{
    if b.len() == 0 {
        false
    } else if a.len() == 0 {
        true
    } else if a[0] != b[0] {
        a[0] < b[0]
    } else {
        text_less(a.skip(1), b.skip(1))
    }
}

fn comes_before(a: &str, b: &str) -> (r: bool)
    ensures
        r == text_less(a@, b@),
{
    let x: Vec<char> = crate::text::chars_of(a);
    let y: Vec<char> = crate::text::chars_of(b);
    let mut i: usize = 0;
    assert(x@.skip(0) =~= x@ && y@.skip(0) =~= y@);
    while i < x.len() && i < y.len()
        invariant
            x@ == a@,
            y@ == b@,
            i <= x@.len(),
            i <= y@.len(),
            text_less(x@, y@) == text_less(x@.skip(i as int), y@.skip(i as int)),
        decreases x@.len() - i,
    {
        assert(x@.skip(i as int).skip(1) =~= x@.skip(i + 1));
        assert(y@.skip(i as int).skip(1) =~= y@.skip(i + 1));
        if x[i] != y[i] {
            return x[i] < y[i];
        }
        i += 1;
    }
    i < y.len()
}

proof fn lemma_less_total(a: Seq<char>, b: Seq<char>)
    ensures
        text_less(a, b) || text_less(b, a) || a == b,
        !(text_less(a, b) && text_less(b, a)),
    decreases a.len(),
{
    if a.len() > 0 && b.len() > 0 && a[0] == b[0] {
        lemma_less_total(a.skip(1), b.skip(1));
        if a.skip(1) == b.skip(1) {
            assert(a =~= seq![a[0]] + a.skip(1));
            assert(b =~= seq![b[0]] + b.skip(1));
        }
    } else if a.len() == 0 && b.len() == 0 {
        assert(a =~= b);
    }
}

proof fn lemma_less_transitive(a: Seq<char>, b: Seq<char>, c: Seq<char>)
    requires
        !text_less(b, a),
        !text_less(c, b),
    ensures
        !text_less(c, a),
    decreases a.len(),
{
    if a.len() > 0 && b.len() > 0 && c.len() > 0 && a[0] == b[0] && b[0] == c[0] {
        lemma_less_transitive(a.skip(1), b.skip(1), c.skip(1));
    }
}

/// Where a row goes among rows in order: behind those that do not come after it.
pub open spec fn row_place(rows: Seq<CriterionRow>, id: Seq<char>, from: int) -> int
    decreases rows.len() - from,
{
    if from < 0 || from >= rows.len() || text_less(id, rows[from].id@) {
        from
    } else {
        row_place(rows, id, from + 1)
    }
}

/// The first `n` rows in the order of their names, rows of one name as they come.
pub open spec fn by_name(rows: Seq<CriterionRow>, n: nat) -> Seq<CriterionRow>
    decreases n,
{
    if n == 0 {
        Seq::empty()
    } else {
        let r = by_name(rows, (n - 1) as nat);
        r.insert(row_place(r, rows[n - 1].id@, 0), rows[n - 1])
    }
}

/// Whether rows are in the order of their names.
pub open spec fn names_ordered(rows: Seq<CriterionRow>) -> bool {
    forall|i: int, j: int|
        0 <= i < j < rows.len() ==> !text_less((#[trigger] rows[j]).id@, (#[trigger] rows[i]).id@)
}

proof fn lemma_row_place(rows: Seq<CriterionRow>, id: Seq<char>, from: int)
    requires
        0 <= from <= rows.len(),
    ensures
        from <= row_place(rows, id, from) <= rows.len(),
        forall|k: int|
            from <= k < row_place(rows, id, from) ==> !text_less(id, (#[trigger] rows[k]).id@),
        row_place(rows, id, from) < rows.len() ==> text_less(
            id,
            rows[row_place(rows, id, from)].id@,
        ),
    decreases rows.len() - from,
{
    if from < rows.len() && !text_less(id, rows[from].id@) {
        lemma_row_place(rows, id, from + 1);
    }
}

/// The estimates are shown in the order of their names, each as often as it was given.
pub proof fn law_estimates_are_ordered(rows: Seq<CriterionRow>, n: nat)
    requires
        n <= rows.len(),
    ensures
        names_ordered(by_name(rows, n)),
        by_name(rows, n).to_multiset() == rows.take(n as int).to_multiset(),
        by_name(rows, n).len() == n,
    decreases n,
{
    broadcast use vstd::seq_lib::group_to_multiset_ensures;

    if n > 0 {
        law_estimates_are_ordered(rows, (n - 1) as nat);
        let r = by_name(rows, (n - 1) as nat);
        let x = rows[n - 1];
        let at = row_place(r, x.id@, 0);
        lemma_row_place(r, x.id@, 0);
        let s = r.insert(at, x);
        assert forall|i: int, j: int| 0 <= i < j < s.len() implies !text_less(
            (#[trigger] s[j]).id@,
            (#[trigger] s[i]).id@,
        ) by {
            if j == at {
                assert(s[i] == r[i]);
            } else if i == at {
                assert(s[j] == r[j - 1]);
                lemma_less_total(x.id@, r[at].id@);
                if j - 1 > at {
                    assert(!text_less(r[j - 1].id@, r[at].id@));
                } else {
                    lemma_less_total(r[at].id@, r[at].id@);
                }
                lemma_less_transitive(x.id@, r[at].id@, r[j - 1].id@);
            } else {
                let a = if i < at {
                    i
                } else {
                    i - 1
                };
                let b = if j < at {
                    j
                } else {
                    j - 1
                };
                assert(s[i] == r[a] && s[j] == r[b]);
            }
        }
        assert(rows.take(n as int) =~= rows.take(n - 1).push(x));
        assert(s =~= r.take(at).push(x) + r.skip(at));
        assert(r =~= r.take(at) + r.skip(at));
        vstd::seq_lib::lemma_multiset_commutative(r.take(at).push(x), r.skip(at));
        vstd::seq_lib::lemma_multiset_commutative(r.take(at), r.skip(at));
        assert(s.to_multiset() =~= rows.take(n as int).to_multiset());
    } else {
        assert(rows.take(0) =~= Seq::empty());
    }
}

fn sort_rows(rows: &[CriterionRow]) -> (r: Vec<usize>)
    ensures
        r@.len() == by_name(rows@, rows@.len()).len(),
        forall|k: int|
            0 <= k < r@.len() ==> (#[trigger] r@[k]) < rows@.len() && rows@[r@[k] as int] == by_name(
                rows@,
                rows@.len(),
            )[k],
{
    let mut out: Vec<usize> = Vec::new();
    let mut i: usize = 0;
    while i < rows.len()
        invariant
            i <= rows@.len(),
            out@.len() == by_name(rows@, i as nat).len(),
            forall|k: int|
                0 <= k < out@.len() ==> (#[trigger] out@[k]) < rows@.len() && rows@[out@[k] as int]
                    == by_name(rows@, i as nat)[k],
        decreases rows@.len() - i,
    {
        let ghost r = by_name(rows@, i as nat);
        let ghost id = rows@[i as int].id@;
        let mut at: usize = 0;
        while at < out.len() && !comes_before(rows[i].id.as_str(), rows[out[at]].id.as_str())
            invariant
                i < rows@.len(),
                at <= out@.len(),
                out@.len() == r.len(),
                id == rows@[i as int].id@,
                forall|k: int|
                    0 <= k < out@.len() ==> (#[trigger] out@[k]) < rows@.len()
                        && rows@[out@[k] as int] == r[k],
                row_place(r, id, 0) == row_place(r, id, at as int),
            decreases out@.len() - at,
        {
            at += 1;
        }
        let ghost before = out@;
        out.insert(at, i);
        assert forall|k: int| 0 <= k < out@.len() implies (#[trigger] out@[k]) < rows@.len()
            && rows@[out@[k] as int] == by_name(rows@, (i + 1) as nat)[k] by {
            if k < at {
                assert(out@[k] == before[k]);
            } else if k > at {
                assert(out@[k] == before[k - 1]);
            }
        }
        i += 1;
    }
    out
}

// --- What stands on the page --------------------------------------------------

/// The page with its title, and a warning where the statistical layer did not run.
pub open spec fn with_title(p: Lines, env: EnvFacts, criterion_ran: bool) -> Lines {
    let q = p.push("# scale-bench metrics - #22 / #155"@).push(Seq::empty()).push(
        "Generated "@ + env.generated@ + " by `"@ + env.generator@ + "`."@,
    ).push(Seq::empty());
    if criterion_ran {
        q
    } else {
        q
            .push("**Single-shot run — no criterion layer.** Latency figures are order-of-magnitude and must not be compared against a `cargo bench` run. The memory axes (peak RSS, working set) are unaffected."@)
            .push(Seq::empty())
    }
}

/// The page with a row on where the model was elaborated from, where that is known.
pub open spec fn with_source(p: Lines, elaborated: Option<Seq<char>>) -> Lines {
    match elaborated {
        Some(t) => p.push("| elaborated from | "@ + t + " |"@),
        None => p,
    }
}

/// The page with the facts on the machine and the program.
pub open spec fn with_environment(p: Lines, env: EnvFacts, elaborated: Option<Seq<char>>) -> Lines {
    let q = p.push("## Environment"@).push(Seq::empty()).push("| key | value |"@).push("|---|---|"@)
        .push("| CPU | "@ + env.cpu@ + " |"@)
        .push("| threads | "@ + env.threads@ + " |"@)
        .push("| RAM total | "@ + env.ram_total@ + " |"@)
        .push("| RAM available at start | "@ + env.ram_available@ + " |"@)
        .push("| OS | "@ + env.os@ + " |"@)
        .push("| rustc | "@ + env.rustc@ + " |"@)
        .push("| cargo | "@ + env.cargo@ + " |"@)
        .push("| git | "@ + env.git@ + " |"@)
        .push("| build | "@ + env.build@ + " |"@)
        .push("| bases run | "@ + joined_by(all_chars(env.bases@), ", "@) + " |"@).push(
            "| real model | "@ + env.model@ + " |"@,
        );
    with_source(q, elaborated).push(Seq::empty())
}

/// Why a run failed, empty where it did not.
pub open spec fn failure_note(r: RecordV) -> Seq<char> {
    if r.ok() {
        Seq::empty()
    } else {
        "**FAILED** - "@ + r.text("error"@)
    }
}

/// A row of the load table.
pub open spec fn load_row(r: RecordV, figs: Figures) -> Seq<char> {
    "| "@ + r.text("basis"@)
        + " | "@ + r.text("mode"@)
        + " | "@ + shown_field(r, "nodes"@, figs)
        + " | "@ + shown_field(r, "edges"@, figs)
        + " | "@ + shown_field(r, "json_mb"@, figs)
        + " | "@ + shown_field(r, "cache_mb"@, figs)
        + " | "@ + shown_field(r, "wall_ms"@, figs)
        + " | "@ + shown_field(r, "peak_rss_mb"@, figs)
        + " | "@ + shown_field(r, "end_rss_mb"@, figs)
        + " | "@ + failure_note(r) + " |"@
}

/// The page with the load rows of the first `n` records.
pub open spec fn with_load_rows(p: Lines, records: Seq<RecordV>, figs: Figures, n: nat) -> Lines
    decreases n,
{
    if n == 0 {
        p
    } else {
        let q = with_load_rows(p, records, figs, (n - 1) as nat);
        if loads(records[n - 1].text("mode"@)) {
            q.push(load_row(records[n - 1], figs))
        } else {
            q
        }
    }
}

/// The page with the head of the load table.
pub open spec fn load_head(p: Lines) -> Lines {
    p
        .push("## Load + memory (one process per row; peak RSS is that process's high-water mark)"@)
        .push(Seq::empty())
        .push("| basis | mode | nodes | edges | json MB | cache MB | wall ms | peak RSS MB | end RSS MB | note |"@)
        .push("|---|---|--:|--:|--:|--:|--:|--:|--:|---|"@)
}

/// The page with the load table.
pub open spec fn with_load(p: Lines, records: Seq<RecordV>, figs: Figures) -> Lines {
    with_load_rows(load_head(p), records, figs, records.len())
        .push(Seq::empty())
}

/// A row of the derived table: where the time of a warm load goes.
pub open spec fn derived_row(records: Seq<RecordV>, basis: Seq<char>, figs: Figures) -> Seq<char> {
    let fs = found_from(records, basis, "from_slice"@, 0);
    let ch = found_from(records, basis, "cache_hit"@, 0);
    let ac = found_from(records, basis, "access_checked"@, 0);
    let au = found_from(records, basis, "access_unchecked"@, 0);
    "| "@ + basis
        + " | "@ + shown_field_of(records, fs, "wall_ms"@, figs)
        + " | "@ + shown_field_of(
        records,
        ch,
        "wall_ms"@,
        figs,
    ) + " | "@ + shown_field_of(records, ac, "wall_ms"@, figs) + " | "@ + shown_field_of(
        records,
        au,
        "wall_ms"@,
        figs,
    ) + " | "@ + wall_gap(records, ac, au, figs) + " | "@ + wall_gap(records, ch, ac, figs) + " | "@
        + shown_field_of(records, ch, "peak_rss_mb"@, figs) + " | "@ + shown_field_of(
        records,
        ac,
        "peak_rss_mb"@,
        figs,
    ) + " |"@
}

/// The page with the derived rows of the first `n` bases.
pub open spec fn with_derived_rows(
    p: Lines,
    records: Seq<RecordV>,
    bases: Lines,
    figs: Figures,
    n: nat,
) -> Lines
    decreases n,
{
    if n == 0 {
        p
    } else {
        with_derived_rows(p, records, bases, figs, (n - 1) as nat).push(
            derived_row(records, bases[n - 1], figs),
        )
    }
}

/// The page with the head of the derived table.
pub open spec fn derived_head(p: Lines) -> Lines {
    p
            .push("### Derived: where warm-load time goes (#155)"@)
            .push(Seq::empty())
            .push("`cache_hit` = mmap + validating access + **deserialize** + index build. `access_checked` stops after validation; `access_unchecked` skips validation too. A true zero-copy read-back removes the deserialize step but still needs the indices."@)
            .push(Seq::empty())
            .push("| basis | from_slice ms | cache_hit ms | access_checked ms | access_unchecked ms | validate ms | deserialize+index ms | cache_hit peak RSS MB | access peak RSS MB |"@)
            .push("|---|--:|--:|--:|--:|--:|--:|--:|--:|"@)
}

/// The page with the derived table.
pub open spec fn with_derived(p: Lines, records: Seq<RecordV>, figs: Figures) -> Lines {
    let bases = bases_seen(records, records.len());
    with_derived_rows(
        derived_head(p),
        records,
        bases,
        figs,
        bases.len(),
    ).push(Seq::empty())
}

/// A row of the navigation table. Where the run failed, the reason takes the first column
/// and the others stay empty.
pub open spec fn nav_row(r: RecordV, figs: Figures) -> Seq<char> {
    if r.ok() {
        "| "@ + r.text("basis"@)
            + " | "@ + shown_field(r, "load_ms"@, figs)
            + " | "@ + shown_field(r, "rss_after_load_mb"@, figs)
            + " | "@ + shown_field(r, "peak_rss_mb"@, figs)
            + " | "@ + shown_field(r, "scope_graph_p50_us"@, figs) + " / "@ + shown_field(r, "scope_graph_p95_us"@, figs)
            + " | "@ + shown_field(r, "expand_p50_us"@, figs) + " / "@ + shown_field(r, "expand_p95_us"@, figs)
            + " | "@ + shown_field(r, "nodes_at_path_p95_us"@, figs)
            + " | "@ + shown_field(r, "nodes_at_source_p95_us"@, figs)
            + " | "@ + shown_field(r, "cone_ms"@, figs)
            + " | "@ + shown_field(r, "cone_nodes"@, figs)
            + " | "@ + shown_field(r, "hot_fanout"@, figs) + " |"@
    } else {
        "| "@ + r.text("basis"@) + " | **FAILED** - "@ + r.text("error"@) + " | | | | | | | | | |"@
    }
}

/// The page with the navigation rows of the first `n` records.
pub open spec fn with_nav_rows(p: Lines, records: Seq<RecordV>, figs: Figures, n: nat) -> Lines
    decreases n,
{
    if n == 0 {
        p
    } else {
        let q = with_nav_rows(p, records, figs, (n - 1) as nat);
        if records[n - 1].text("mode"@) == "nav"@ {
            q.push(nav_row(records[n - 1], figs))
        } else {
            q
        }
    }
}

/// The page with the head of the navigation table.
pub open spec fn nav_head(p: Lines) -> Lines {
    p
        .push("## Scripted navigation (working set + query spread) (#22)"@)
        .push(Seq::empty())
        .push("| basis | load ms | RSS after load MB | peak RSS MB | scope_graph p50/p95 us | expand p50/p95 us | path p95 us | source p95 us | cone ms | cone nodes | hot fanout |"@)
        .push("|---|--:|--:|--:|--:|--:|--:|--:|--:|--:|--:|"@)
}

/// The page with the navigation table.
pub open spec fn with_nav(p: Lines, records: Seq<RecordV>, figs: Figures) -> Lines {
    with_nav_rows(nav_head(p), records, figs, records.len())
        .push(Seq::empty())
}

/// A row of the matcher table.
pub open spec fn match_row(r: RecordV, figs: Figures) -> Seq<char> {
    "| "@ + r.text("basis"@)
        + " | "@ + shown_field(r, "signals"@, figs)
        + " | "@ + shown_field(r, "wall_ms"@, figs)
        + " | "@ + shown_field(r, "peak_rss_mb"@, figs)
        + " | "@ + shown_field(r, "hit_rate_pct"@, figs)
        + " | "@ + failure_note(r) + " |"@
}

/// The page with the matcher rows of the first `n` records.
pub open spec fn with_match_rows(p: Lines, records: Seq<RecordV>, figs: Figures, n: nat) -> Lines
    decreases n,
{
    if n == 0 {
        p
    } else {
        let q = with_match_rows(p, records, figs, (n - 1) as nat);
        if records[n - 1].text("mode"@) == "match"@ {
            q.push(match_row(records[n - 1], figs))
        } else {
            q
        }
    }
}

/// The page with the head of the matcher table.
pub open spec fn match_head(p: Lines) -> Lines {
    p
        .push("## Matcher vs trace signal count (#22)"@)
        .push(Seq::empty())
        .push("| basis | signals | wall ms | peak RSS MB | hit % | note |"@)
        .push("|---|--:|--:|--:|--:|---|"@)
}

/// The page with the matcher table.
pub open spec fn with_match(p: Lines, records: Seq<RecordV>, figs: Figures) -> Lines {
    with_match_rows(match_head(p), records, figs, records.len())
        .push(Seq::empty())
}

/// A row of the statistical table.
pub open spec fn estimate_row(r: CriterionRow) -> Seq<char> {
    "| "@ + r.id@ + " | "@ + r.mean_ms@ + " | "@ + r.median_ms@ + " | "@ + r.std_dev_ms@ + " |"@
}

/// The page with the first `n` rows of the statistical table.
pub open spec fn with_estimate_rows(p: Lines, rows: Seq<CriterionRow>, n: nat) -> Lines
    decreases n,
{
    if n == 0 {
        p
    } else {
        with_estimate_rows(p, rows, (n - 1) as nat).push(estimate_row(rows[n - 1]))
    }
}

/// The page with the head of the statistical section.
pub open spec fn criterion_head(p: Lines, notes: Notes) -> Lines {
    p
        .push("## Criterion (statistical, 665 + 100K)"@)
        .push(Seq::empty())
        .push("_"@ + notes.criterion_note@ + "_"@)
        .push(Seq::empty())
}

/// The page with the head of the statistical table.
pub open spec fn estimate_head(p: Lines) -> Lines {
    p
        .push("| bench | mean ms | median ms | std dev ms |"@)
        .push("|---|--:|--:|--:|"@)
}

/// The page with the statistical section.
pub open spec fn with_criterion(p: Lines, notes: Notes) -> Lines {
    let q = criterion_head(p, notes);
    let rows = by_name(notes.criterion_rows@, notes.criterion_rows@.len());
    (if notes.criterion_rows@.len() == 0 {
        q.push("_no criterion estimates from this run_"@)
    } else {
        with_estimate_rows(estimate_head(q), rows, rows.len())
    }).push(Seq::empty())
}

/// The page with the section of the single-shot report.
pub open spec fn with_report(p: Lines, notes: Notes) -> Lines {
    let q = p.push("## Single-shot report bin"@).push(Seq::empty());
    (match notes.report_note {
        Some(note) => q.push("_"@ + note@ + "_"@),
        None => q + all_chars(notes.report_table@),
    }).push(Seq::empty())
}

/// The page with the records as they were written.
pub open spec fn with_raw(p: Lines, records: Seq<RecordV>) -> Lines {
    (p.push("## Raw scenario records"@).push(Seq::empty()).push("```json"@) + Seq::new(
        records.len(),
        |i: int| records[i].raw,
    )).push("```"@)
}

/// The lines of the metrics file.
pub open spec fn metrics_lines(
    env: EnvFacts,
    records: Seq<RecordV>,
    notes: Notes,
    figs: Figures,
) -> Lines {
    let p = with_environment(
        with_title(Seq::empty(), env, notes.criterion_ran),
        env,
        crate::text::opt_chars(notes.elaborated),
    );
    let p = with_derived(with_load(p, records, figs), records, figs);
    let p = with_match(with_nav(p, records, figs), records, figs);
    with_raw(with_report(with_criterion(p, notes), notes), records)
}

/// The metrics file: its lines, each ended by a line feed.
pub open spec fn metrics_text(
    env: EnvFacts,
    records: Seq<RecordV>,
    notes: Notes,
    figs: Figures,
) -> Seq<char> {
    joined_by(metrics_lines(env, records, notes, figs), "\n"@) + "\n"@
}

// --- Writing ------------------------------------------------------------------

fn put_title(page: &mut Page, env: &EnvFacts, criterion_ran: bool)
    ensures
        final(page)@ == with_title(old(page)@, *env, criterion_ran),
{
    page.text("# scale-bench metrics - #22 / #155");
    page.blank();
    page.line(
        Phrase::new("Generated ").add(env.generated.as_str()).add(" by `").add(
            env.generator.as_str(),
        ).add("`.").done(),
    );
    page.blank();
    if !criterion_ran {
        page.text("**Single-shot run — no criterion layer.** Latency figures are order-of-magnitude and must not be compared against a `cargo bench` run. The memory axes (peak RSS, working set) are unaffected.");
        page.blank();
    }
}

fn put_fact(page: &mut Page, key: &str, value: &str)
    ensures
        final(page)@ == old(page)@.push(key@ + value@ + " |"@),
{
    page.line(Phrase::new(key).add(value).add(" |").done());
}

fn put_environment(page: &mut Page, env: &EnvFacts, elaborated: &Option<String>)
    ensures
        final(page)@ == with_environment(
            old(page)@,
            *env,
            crate::text::opt_chars(*elaborated),
        ),
{
    page.text("## Environment");
    page.blank();
    page.text("| key | value |");
    page.text("|---|---|");
    put_fact(page, "| CPU | ", env.cpu.as_str());
    put_fact(page, "| threads | ", env.threads.as_str());
    put_fact(page, "| RAM total | ", env.ram_total.as_str());
    put_fact(page, "| RAM available at start | ", env.ram_available.as_str());
    put_fact(page, "| OS | ", env.os.as_str());
    put_fact(page, "| rustc | ", env.rustc.as_str());
    put_fact(page, "| cargo | ", env.cargo.as_str());
    put_fact(page, "| git | ", env.git.as_str());
    put_fact(page, "| build | ", env.build.as_str());
    put_fact(page, "| bases run | ", join(env.bases.as_slice(), ", ").as_str());
    put_fact(page, "| real model | ", env.model.as_str());
    if let Some(t) = elaborated {
        put_fact(page, "| elaborated from | ", t.as_str());
    }
    page.blank();
}

fn note_for(r: &Record) -> (s: String)
    ensures
        s@ == failure_note(r@),
{
    if r.ok() {
        String::new()
    } else {
        Phrase::new("**FAILED** - ").add(r.error().as_str()).done()
    }
}

fn load_line(r: &Record, figs: &Figures) -> (s: String)
    ensures
        s@ == load_row(r@, *figs),
{
    Phrase::new("| ").add(r.basis().as_str())
        .add(" | ").add(r.mode().as_str())
        .add(" | ").add(cell(r, "nodes", figs).as_str())
        .add(" | ").add(cell(r, "edges", figs).as_str())
        .add(" | ").add(cell(r, "json_mb", figs).as_str())
        .add(" | ").add(cell(r, "cache_mb", figs).as_str())
        .add(" | ").add(cell(r, "wall_ms", figs).as_str())
        .add(" | ").add(cell(r, "peak_rss_mb", figs).as_str())
        .add(" | ").add(cell(r, "end_rss_mb", figs).as_str())
        .add(" | ").add(note_for(r).as_str()).add(" |").done()
}

fn put_load(page: &mut Page, records: &[Record], figs: &Figures)
    ensures
        final(page)@ == with_load(old(page)@, records_view(records@), *figs),
{
    let ghost rs = records_view(records@);
    page.text("## Load + memory (one process per row; peak RSS is that process's high-water mark)");
    page.blank();
    page.text("| basis | mode | nodes | edges | json MB | cache MB | wall ms | peak RSS MB | end RSS MB | note |");
    page.text("|---|---|--:|--:|--:|--:|--:|--:|--:|---|");
    let ghost head = page@;
    let mut i: usize = 0;
    while i < records.len()
        invariant
            i <= records@.len(),
            rs == records_view(records@),
            page@ == with_load_rows(head, rs, *figs, i as nat),
        decreases records@.len() - i,
    {
        assert(rs[i as int] == records@[i as int]@);
        if is_load_mode(records[i].mode().as_str()) {
            page.line(load_line(&records[i], figs));
        }
        i += 1;
    }
    page.blank();
}

fn derived_line(records: &[Record], basis: &str, figs: &Figures) -> (s: String)
    ensures
        s@ == derived_row(records_view(records@), basis@, *figs),
{
    let fs: Option<usize> = find(records, basis, "from_slice");
    let ch: Option<usize> = find(records, basis, "cache_hit");
    let ac: Option<usize> = find(records, basis, "access_checked");
    let au: Option<usize> = find(records, basis, "access_unchecked");
    Phrase::new("| ").add(basis).add(" | ").add(cell_of(records, fs, "wall_ms", figs).as_str()).add(
        " | ",
    ).add(cell_of(records, ch, "wall_ms", figs).as_str()).add(" | ").add(
        cell_of(records, ac, "wall_ms", figs).as_str(),
    ).add(" | ").add(cell_of(records, au, "wall_ms", figs).as_str()).add(" | ").add(
        delta(records, ac, au, figs).as_str(),
    ).add(" | ").add(delta(records, ch, ac, figs).as_str()).add(" | ").add(
        cell_of(records, ch, "peak_rss_mb", figs).as_str(),
    ).add(" | ").add(cell_of(records, ac, "peak_rss_mb", figs).as_str()).add(" |").done()
}

fn put_derived(page: &mut Page, records: &[Record], figs: &Figures)
    ensures
        final(page)@ == with_derived(old(page)@, records_view(records@), *figs),
{
    let ghost rs = records_view(records@);
    let bases: Vec<String> = bases_in_order(records);
    let ghost bs = all_chars(bases@);
    page.text("### Derived: where warm-load time goes (#155)");
    page.blank();
    page.text("`cache_hit` = mmap + validating access + **deserialize** + index build. `access_checked` stops after validation; `access_unchecked` skips validation too. A true zero-copy read-back removes the deserialize step but still needs the indices.");
    page.blank();
    page.text("| basis | from_slice ms | cache_hit ms | access_checked ms | access_unchecked ms | validate ms | deserialize+index ms | cache_hit peak RSS MB | access peak RSS MB |");
    page.text("|---|--:|--:|--:|--:|--:|--:|--:|--:|");
    let ghost head = page@;
    let mut i: usize = 0;
    while i < bases.len()
        invariant
            i <= bases@.len(),
            bs == all_chars(bases@),
            rs == records_view(records@),
            page@ == with_derived_rows(head, rs, bs, *figs, i as nat),
        decreases bases@.len() - i,
    {
        assert(bs[i as int] == bases@[i as int]@);
        page.line(derived_line(records, bases[i].as_str(), figs));
        i += 1;
    }
    page.blank();
}

fn nav_line(r: &Record, figs: &Figures) -> (s: String)
    ensures
        s@ == nav_row(r@, *figs),
{
    if !r.ok() {
        return Phrase::new("| ").add(r.basis().as_str()).add(" | **FAILED** - ").add(
            r.error().as_str(),
        ).add(" | | | | | | | | | |").done();
    }
    Phrase::new("| ").add(r.basis().as_str())
        .add(" | ").add(cell(r, "load_ms", figs).as_str())
        .add(" | ").add(cell(r, "rss_after_load_mb", figs).as_str())
        .add(" | ").add(cell(r, "peak_rss_mb", figs).as_str())
        .add(" | ").add(cell(r, "scope_graph_p50_us", figs).as_str()).add(" / ").add(cell(r, "scope_graph_p95_us", figs).as_str())
        .add(" | ").add(cell(r, "expand_p50_us", figs).as_str()).add(" / ").add(cell(r, "expand_p95_us", figs).as_str())
        .add(" | ").add(cell(r, "nodes_at_path_p95_us", figs).as_str())
        .add(" | ").add(cell(r, "nodes_at_source_p95_us", figs).as_str())
        .add(" | ").add(cell(r, "cone_ms", figs).as_str())
        .add(" | ").add(cell(r, "cone_nodes", figs).as_str())
        .add(" | ").add(cell(r, "hot_fanout", figs).as_str()).add(" |").done()
}

fn put_nav(page: &mut Page, records: &[Record], figs: &Figures)
    ensures
        final(page)@ == with_nav(old(page)@, records_view(records@), *figs),
{
    let ghost rs = records_view(records@);
    page.text("## Scripted navigation (working set + query spread) (#22)");
    page.blank();
    page.text("| basis | load ms | RSS after load MB | peak RSS MB | scope_graph p50/p95 us | expand p50/p95 us | path p95 us | source p95 us | cone ms | cone nodes | hot fanout |");
    page.text("|---|--:|--:|--:|--:|--:|--:|--:|--:|--:|--:|");
    let ghost head = page@;
    let mut i: usize = 0;
    while i < records.len()
        invariant
            i <= records@.len(),
            rs == records_view(records@),
            page@ == with_nav_rows(head, rs, *figs, i as nat),
        decreases records@.len() - i,
    {
        assert(rs[i as int] == records@[i as int]@);
        if same(records[i].mode().as_str(), "nav") {
            page.line(nav_line(&records[i], figs));
        }
        i += 1;
    }
    page.blank();
}

fn match_line(r: &Record, figs: &Figures) -> (s: String)
    ensures
        s@ == match_row(r@, *figs),
{
    Phrase::new("| ").add(r.basis().as_str())
        .add(" | ").add(cell(r, "signals", figs).as_str())
        .add(" | ").add(cell(r, "wall_ms", figs).as_str())
        .add(" | ").add(cell(r, "peak_rss_mb", figs).as_str())
        .add(" | ").add(cell(r, "hit_rate_pct", figs).as_str())
        .add(" | ").add(note_for(r).as_str()).add(" |").done()
}

fn put_match(page: &mut Page, records: &[Record], figs: &Figures)
    ensures
        final(page)@ == with_match(old(page)@, records_view(records@), *figs),
{
    let ghost rs = records_view(records@);
    page.text("## Matcher vs trace signal count (#22)");
    page.blank();
    page.text("| basis | signals | wall ms | peak RSS MB | hit % | note |");
    page.text("|---|--:|--:|--:|--:|---|");
    let ghost head = page@;
    let mut i: usize = 0;
    while i < records.len()
        invariant
            i <= records@.len(),
            rs == records_view(records@),
            page@ == with_match_rows(head, rs, *figs, i as nat),
        decreases records@.len() - i,
    {
        assert(rs[i as int] == records@[i as int]@);
        if same(records[i].mode().as_str(), "match") {
            page.line(match_line(&records[i], figs));
        }
        i += 1;
    }
    page.blank();
}

fn put_criterion(page: &mut Page, notes: &Notes)
    ensures
        final(page)@ == with_criterion(old(page)@, *notes),
{
    page.text("## Criterion (statistical, 665 + 100K)");
    page.blank();
    page.line(Phrase::new("_").add(notes.criterion_note.as_str()).add("_").done());
    page.blank();
    if notes.criterion_rows.len() == 0 {
        page.text("_no criterion estimates from this run_");
    } else {
        page.text("| bench | mean ms | median ms | std dev ms |");
        page.text("|---|--:|--:|--:|");
        let ghost head = page@;
        let ghost rows = by_name(notes.criterion_rows@, notes.criterion_rows@.len());
        let at: Vec<usize> = sort_rows(notes.criterion_rows.as_slice());
        let mut i: usize = 0;
        while i < at.len()
            invariant
                i <= at@.len(),
                at@.len() == rows.len(),
                forall|k: int|
                    0 <= k < at@.len() ==> (#[trigger] at@[k]) < notes.criterion_rows@.len()
                        && notes.criterion_rows@[at@[k] as int] == rows[k],
                page@ == with_estimate_rows(head, rows, i as nat),
            decreases at@.len() - i,
        {
            let row: &CriterionRow = &notes.criterion_rows[at[i]];
            page.line(
                Phrase::new("| ").add(row.id.as_str()).add(" | ").add(row.mean_ms.as_str()).add(
                    " | ",
                ).add(row.median_ms.as_str()).add(" | ").add(row.std_dev_ms.as_str()).add(
                    " |",
                ).done(),
            );
            i += 1;
        }
    }
    page.blank();
}

fn put_report(page: &mut Page, notes: &Notes)
    ensures
        final(page)@ == with_report(old(page)@, *notes),
{
    page.text("## Single-shot report bin");
    page.blank();
    match &notes.report_note {
        Some(note) => {
            page.line(Phrase::new("_").add(note.as_str()).add("_").done());
        },
        None => {
            let ghost head = page@;
            let ghost all = all_chars(notes.report_table@);
            let mut i: usize = 0;
            assert(head + all.take(0) =~= head);
            while i < notes.report_table.len()
                invariant
                    i <= notes.report_table@.len(),
                    all == all_chars(notes.report_table@),
                    page@ == head + all.take(i as int),
                decreases notes.report_table@.len() - i,
            {
                page.text(notes.report_table[i].as_str());
                i += 1;
                assert(page@ =~= head + all.take(i as int));
            }
            assert(all.take(i as int) =~= all);
        },
    }
    page.blank();
}

fn put_raw(page: &mut Page, records: &[Record])
    ensures
        final(page)@ == with_raw(old(page)@, records_view(records@)),
{
    let ghost rs = records_view(records@);
    page.text("## Raw scenario records");
    page.blank();
    page.text("```json");
    let ghost head = page@;
    let ghost all = Seq::new(rs.len(), |i: int| rs[i].raw);
    let mut i: usize = 0;
    assert(head + all.take(0) =~= head);
    while i < records.len()
        invariant
            i <= records@.len(),
            rs == records_view(records@),
            all == Seq::new(rs.len(), |i: int| rs[i].raw),
            page@ == head + all.take(i as int),
        decreases records@.len() - i,
    {
        assert(rs[i as int] == records@[i as int]@);
        page.text(records[i].raw.as_str());
        i += 1;
        assert(page@ =~= head + all.take(i as int));
    }
    assert(all.take(i as int) =~= all);
    page.text("```");
}

/// The metrics file.
pub fn render(env: &EnvFacts, records: &[Record], notes: &Notes, figs: &Figures) -> (r: String)
    ensures
        r@ == metrics_text(*env, records_view(records@), *notes, *figs),
{
    let mut page: Page = Page::new();
    put_title(&mut page, env, notes.criterion_ran);
    put_environment(&mut page, env, &notes.elaborated);
    put_load(&mut page, records, figs);
    put_derived(&mut page, records, figs);
    put_nav(&mut page, records, figs);
    put_match(&mut page, records, figs);
    put_criterion(&mut page, notes);
    put_report(&mut page, notes);
    put_raw(&mut page, records);
    let mut text: String = join(page.into_lines().as_slice(), "\n");
    text.append("\n");
    text
}

// --- Laws ---------------------------------------------------------------------

/// Whether a page starts with the lines of another.
pub open spec fn continues(p: Lines, q: Lines) -> bool {
    p.len() <= q.len() && forall|i: int| 0 <= i < p.len() ==> #[trigger] q[i] == p[i]
}

proof fn lemma_rows_continue(p: Lines, records: Seq<RecordV>, figs: Figures, n: nat)
    ensures
        continues(p, with_load_rows(p, records, figs, n)),
        continues(p, with_nav_rows(p, records, figs, n)),
        continues(p, with_match_rows(p, records, figs, n)),
    decreases n,
{
    if n > 0 {
        lemma_rows_continue(p, records, figs, (n - 1) as nat);
    }
}

proof fn lemma_derived_continue(p: Lines, records: Seq<RecordV>, bases: Lines, figs: Figures, n: nat)
    ensures
        continues(p, with_derived_rows(p, records, bases, figs, n)),
    decreases n,
{
    if n > 0 {
        lemma_derived_continue(p, records, bases, figs, (n - 1) as nat);
    }
}

proof fn lemma_estimates_continue(p: Lines, rows: Seq<CriterionRow>, n: nat)
    ensures
        continues(p, with_estimate_rows(p, rows, n)),
    decreases n,
{
    if n > 0 {
        lemma_estimates_continue(p, rows, (n - 1) as nat);
    }
}

proof fn lemma_sections_continue(p: Lines, records: Seq<RecordV>, notes: Notes, figs: Figures)
    ensures
        continues(p, with_load(p, records, figs)),
        continues(p, with_derived(p, records, figs)),
        continues(p, with_nav(p, records, figs)),
        continues(p, with_match(p, records, figs)),
        continues(p, with_criterion(p, notes)),
        continues(p, with_report(p, notes)),
        continues(p, with_raw(p, records)),
{
    let n = records.len();
    lemma_rows_continue(load_head(p), records, figs, n);
    lemma_rows_continue(nav_head(p), records, figs, n);
    lemma_rows_continue(match_head(p), records, figs, n);
    let bases = bases_seen(records, n);
    lemma_derived_continue(derived_head(p), records, bases, figs, bases.len());
    assert(continues(p, load_head(p)));
    assert(continues(p, nav_head(p)));
    assert(continues(p, match_head(p)));
    assert(continues(p, derived_head(p)));
    let rows = by_name(notes.criterion_rows@, notes.criterion_rows@.len());
    let q = estimate_head(criterion_head(p, notes));
    lemma_estimates_continue(q, rows, rows.len());
    assert(continues(p, q));
}

/// A file of a run without the statistical layer says so near its top, and a file of a
/// run with it goes straight on to the machine.
pub proof fn law_single_shot_files_say_so(
    env: EnvFacts,
    records: Seq<RecordV>,
    notes: Notes,
    figs: Figures,
)
    ensures
        metrics_lines(env, records, notes, figs).len() > 4,
        metrics_lines(env, records, notes, figs)[4] == (if notes.criterion_ran {
            "## Environment"@
        } else {
            "**Single-shot run — no criterion layer.** Latency figures are order-of-magnitude and must not be compared against a `cargo bench` run. The memory axes (peak RSS, working set) are unaffected."@
        }),
{
    let p0 = with_environment(
        with_title(Seq::empty(), env, notes.criterion_ran),
        env,
        crate::text::opt_chars(notes.elaborated),
    );
    let p1 = with_load(p0, records, figs);
    let p2 = with_derived(p1, records, figs);
    let p3 = with_nav(p2, records, figs);
    let p4 = with_match(p3, records, figs);
    let p5 = with_criterion(p4, notes);
    let p6 = with_report(p5, notes);
    lemma_sections_continue(p0, records, notes, figs);
    lemma_sections_continue(p1, records, notes, figs);
    lemma_sections_continue(p2, records, notes, figs);
    lemma_sections_continue(p3, records, notes, figs);
    lemma_sections_continue(p4, records, notes, figs);
    lemma_sections_continue(p5, records, notes, figs);
    lemma_sections_continue(p6, records, notes, figs);
    assert(p0.len() > 4);
    assert(p1[4] == p0[4]);
    assert(p2[4] == p1[4]);
    assert(p3[4] == p2[4]);
    assert(p4[4] == p3[4]);
    assert(p5[4] == p4[4]);
    assert(p6[4] == p5[4]);
}

/// The file closes with every record as it was written, in the order of the runs, failed
/// ones included.
pub proof fn law_records_are_kept_verbatim(
    env: EnvFacts,
    records: Seq<RecordV>,
    notes: Notes,
    figs: Figures,
    i: int,
)
    requires
        0 <= i < records.len(),
    ensures
        ({
            let lines = metrics_lines(env, records, notes, figs);
            lines.len() > records.len() && lines[lines.len() - 1 - records.len() + i]
                == records[i].raw
        }),
{
}

} // verus!
