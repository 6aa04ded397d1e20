use svxprobe::bench::collect::{
    bases_for, build_provenance, cpu_name, default_bases, gated_steps, git_revision, last_nonblank,
    os_name, outcome, packaged_bases, probed, scenario_argv, spawn_failure, step_label, Matrix,
    ScenarioRunner, Step, MATCH_SIGNALS,
};
use svxprobe::bench::metrics::{packaged_notes, render, CriterionRow, EnvFacts, Notes};
use svxprobe::bench::records::{
    bench_name, described_name, inner_text, measures, point_text, read_estimates, thousands,
    wall_pairs, Field, Figure, Figures, Json, Record,
};
use svxprobe::bench::time::{civil_from_unix, format_utc, stamp_utc};

fn facts() -> EnvFacts {
    EnvFacts {
        generated: "2026-07-26 10:54:48 UTC".to_string(),
        generator: "scale-bench collect".to_string(),
        cpu: "Test CPU".to_string(),
        threads: "8".to_string(),
        ram_total: "15.9 GB".to_string(),
        ram_available: "8.0 GB".to_string(),
        os: "windows x86_64".to_string(),
        rustc: "rustc 1.94.0".to_string(),
        cargo: "cargo 1.94.0".to_string(),
        git: "main @ abc1234 (clean)".to_string(),
        build: "0.0.0 @ deadbee".to_string(),
        bases: vec!["golden".to_string(), "665".to_string()],
        model: "none".to_string(),
    }
}

fn figure(v: f64) -> Figure {
    Figure { negative: v.is_sign_negative() && v != 0.0, digits: format!("{:.2}", v.abs()) }
}

fn value(text: &str) -> f64 {
    text.parse().expect("a number")
}

fn figures(records: &[Record]) -> Figures {
    Figures {
        rounded: measures(records)
            .into_iter()
            .map(|m| {
                let f = figure(value(&m));
                (m, f)
            })
            .collect(),
        differences: wall_pairs(records)
            .into_iter()
            .map(|(a, b)| {
                let f = figure(value(&a) - value(&b));
                ((a, b), f)
            })
            .collect(),
    }
}

fn millis(v: f64) -> String {
    format!("{:.3}", v)
}

fn thousands_of(v: f64) -> String {
    let f = figure(v);
    thousands(f.negative, &f.digits)
}

fn failure(basis: &str, mode: &str, code: i32, error: &str, wall_ms: f64) -> Record {
    let rounded = (wall_ms * 1e4).round() / 1e4;
    Record::failure(basis, mode, code, error, Some(format!("{:?}", rounded)))
}

fn record(json: &str) -> Record {
    Record::parse(json).expect("valid scenario line")
}

fn load_row(basis: &str, mode: &str, wall_ms: &str) -> Record {
    record(&format!(
        r#"{{"nodes":100001,"edges":120000,"json_mb":57.1234,"wall_ms":{wall_ms},"peak_rss_mb":512.5000,"end_rss_mb":480.2500,"basis":"{basis}","mode":"{mode}"}}"#
    ))
}

fn rendered(records: &[Record], notes: &Notes) -> String {
    render(&facts(), records, notes, &figures(records))
}

#[test]
fn sections_appear_in_the_documented_order() {
    let text = rendered(&[], &Notes::default());
    let expected = [
        "# scale-bench metrics - #22 / #155",
        "## Environment",
        "## Load + memory (one process per row; peak RSS is that process's high-water mark)",
        "### Derived: where warm-load time goes (#155)",
        "## Scripted navigation (working set + query spread) (#22)",
        "## Matcher vs trace signal count (#22)",
        "## Criterion (statistical, 665 + 100K)",
        "## Single-shot report bin",
        "## Raw scenario records",
    ];
    let mut cursor = 0;
    for heading in expected {
        let at = text[cursor..]
            .find(heading)
            .unwrap_or_else(|| panic!("missing or out-of-order section: {heading}"));
        cursor += at + heading.len();
    }
}

#[test]
fn column_headers_match_the_python_renderer_verbatim() {
    let text = rendered(&[], &Notes::default());
    for header in [
        "| basis | mode | nodes | edges | json MB | cache MB | wall ms | peak RSS MB | end RSS MB | note |",
        "|---|---|--:|--:|--:|--:|--:|--:|--:|---|",
        "| basis | from_slice ms | cache_hit ms | access_checked ms | access_unchecked ms | validate ms | deserialize+index ms | cache_hit peak RSS MB | access peak RSS MB |",
        "| basis | load ms | RSS after load MB | peak RSS MB | scope_graph p50/p95 us | expand p50/p95 us | path p95 us | source p95 us | cone ms | cone nodes | hot fanout |",
        "| basis | signals | wall ms | peak RSS MB | hit % | note |",
        "|---|--:|--:|--:|--:|---|",
    ] {
        assert!(text.contains(header), "missing header:\n{header}");
    }
}

#[test]
fn counts_stay_ungrouped_while_measurements_get_two_decimals() {
    let text = rendered(
        &[load_row("100K", "from_slice", "1432.0000")],
        &Notes::default(),
    );
    let row = text
        .lines()
        .find(|l| l.starts_with("| 100K | from_slice |"))
        .expect("the load row is rendered");
    assert_eq!(
        row,
        "| 100K | from_slice | 100001 | 120000 | 57.12 | - | 1,432.00 | 512.50 | 480.25 |  |"
    );
}

#[test]
fn thousands_matches_powershell_n2_and_python_comma_2f() {
    assert_eq!(thousands_of(1432.0), "1,432.00");
    assert_eq!(thousands_of(0.0), "0.00");
    assert_eq!(thousands_of(999.994), "999.99");
    assert_eq!(thousands_of(1_234_567.891), "1,234,567.89");
    assert_eq!(thousands_of(100.0), "100.00");
    assert_eq!(thousands_of(-1234.5), "-1,234.50");
    assert_eq!(thousands_of(-0.004), "-0.00");
    assert_eq!(thousands_of(-0.0), "0.00");
}

#[test]
fn derived_columns_are_the_two_documented_subtractions() {
    let records = [
        load_row("100K", "from_slice", "570.0000"),
        load_row("100K", "cache_hit", "150.0000"),
        load_row("100K", "access_checked", "40.0000"),
        load_row("100K", "access_unchecked", "10.0000"),
    ];
    let text = rendered(&records, &Notes::default());
    let row = text
        .lines()
        .find(|l| l.starts_with("| 100K | 570.00 |"))
        .expect("the derived row is rendered");
    assert!(row.contains("| 30.00 | 110.00 |"), "unexpected row: {row}");
}

#[test]
fn a_negative_delta_can_happen_and_renders_signed() {
    let records = [
        load_row("665", "access_checked", "10.0000"),
        load_row("665", "access_unchecked", "12.5000"),
    ];
    let text = rendered(&records, &Notes::default());
    assert!(
        text.lines().any(|l| l.contains("| -2.50 |")),
        "expected a negative validate delta:\n{text}"
    );
}

#[test]
fn a_missing_row_leaves_a_dash_rather_than_dropping_a_column() {
    let text = rendered(
        &[load_row("665", "from_slice", "12.0000")],
        &Notes::default(),
    );
    let row = text
        .lines()
        .find(|l| l.starts_with("| 665 | 12.00 |"))
        .expect("the derived row is rendered");
    assert_eq!(row.matches('|').count(), 10, "arity changed: {row}");
    assert!(row.contains("| - | - | - | - | - | - |"), "row: {row}");
}

#[test]
fn a_failed_load_row_carries_the_reason_and_the_exit_code() {
    let rec = failure("1M", "cache_hit", 137, "killed", 4200.0);
    assert!(!rec.ok());
    assert_eq!(rec.basis(), "1M");
    let text = rendered(std::slice::from_ref(&rec), &Notes::default());
    assert!(
        text.contains(
            "| 1M | cache_hit | - | - | - | - | 4,200.00 | - | - | **FAILED** - killed |"
        ),
        "unexpected load row:\n{text}"
    );
    assert!(rec.raw.contains("\"exit_code\":137"), "raw: {}", rec.raw);
}

#[test]
fn a_failed_nav_row_keeps_the_tables_arity() {
    let text = rendered(
        &[failure("1M", "nav", -1, "out of memory", 900.0)],
        &Notes::default(),
    );
    let row = text
        .lines()
        .find(|l| l.contains("**FAILED** - out of memory") && l.starts_with("| 1M |"))
        .expect("the nav failure row is rendered");
    assert_eq!(row, "| 1M | **FAILED** - out of memory | | | | | | | | | |");
}

#[test]
fn a_nav_row_with_no_percentile_samples_degrades_to_dashes() {
    let rec = record(
        r#"{"nodes":665,"edges":700,"load_ms":12.0000,"rss_after_load_mb":null,"nav_scopes":1,"nav_iters":1,"cone_ms":0.5000,"cone_nodes":3,"hot_fanout":9,"scope_graph_mean_us":null,"expand_mean_us":null,"wall_ms":1.0000,"peak_rss_mb":40.0000,"end_rss_mb":39.0000,"basis":"golden","mode":"nav"}"#,
    );
    let text = rendered(&[rec], &Notes::default());
    let row = text
        .lines()
        .find(|l| l.starts_with("| golden | 12.00 |"))
        .expect("the nav row is rendered");
    assert!(row.contains("| - / - | - / - |"), "row: {row}");
    assert!(row.contains("| 12.00 | - |"), "row: {row}");
}

#[test]
fn the_single_shot_banner_appears_only_without_criterion() {
    let banner = "**Single-shot run — no criterion layer.**";
    let without = rendered(&[], &Notes::default());
    assert!(without.contains(banner), "packaged runs must say so");

    let with = rendered(
        &[],
        &Notes {
            criterion_ran: true,
            criterion_note: "cargo bench (exit 0)".to_string(),
            criterion_rows: vec![CriterionRow {
                id: "load/from_slice/665".to_string(),
                mean_ms: millis(1.2345),
                median_ms: millis(1.2000),
                std_dev_ms: millis(0.0500),
            }],
            ..Notes::default()
        },
    );
    assert!(
        !with.contains(banner),
        "a criterion run must not carry the single-shot caveat"
    );
    assert!(with.contains("| bench | mean ms | median ms | std dev ms |"));
    assert!(with.contains("| load/from_slice/665 | 1.234 | 1.200 | 0.050 |"));
}

#[test]
fn packaged_notes_carry_the_banner_and_explain_both_missing_layers() {
    let notes = packaged_notes();
    assert!(!notes.criterion_ran);
    assert!(notes.criterion_rows.is_empty());
    assert!(notes.report_table.is_empty());

    let text = rendered(&[], &notes);
    assert!(text.contains("**Single-shot run — no criterion layer.**"));
    assert!(text.contains("cargo bench"), "text: {text}");
    assert!(text.contains("`report` bin"), "text: {text}");
}

#[test]
fn criterion_and_report_notes_are_italicized_where_a_table_is_absent() {
    let text = rendered(
        &[],
        &Notes {
            criterion_note: "skipped (--skip-criterion)".to_string(),
            report_note: Some("skipped (--skip-report)".to_string()),
            ..Notes::default()
        },
    );
    assert!(text.contains("_skipped (--skip-criterion)_"));
    assert!(text.contains("_no criterion estimates from this run_"));
    assert!(text.contains("_skipped (--skip-report)_"));
}

#[test]
fn raw_records_are_reproduced_verbatim_and_in_order() {
    let first = load_row("golden", "prepare", "5.0000");
    let second = load_row("665", "from_slice", "6.0000");
    let text = rendered(&[first.clone(), second.clone()], &Notes::default());
    let raw = text.split("```json\n").nth(1).expect("a raw records block");
    let lines: Vec<&str> = raw.lines().take(2).collect();
    assert_eq!(lines, vec![first.raw.as_str(), second.raw.as_str()]);
}

#[test]
fn the_environment_table_names_the_build_even_with_no_toolchain() {
    let text = rendered(&[], &Notes::default());
    assert!(text.contains("| build | 0.0.0 @ deadbee |"));
    assert!(text.contains("| bases run | golden, 665 |"));
    assert!(text.contains("Generated 2026-07-26 10:54:48 UTC by `scale-bench collect`."));
}

#[test]
fn the_file_is_lf_with_no_bom_and_ends_in_a_newline() {
    let text = rendered(&[load_row("665", "prepare", "1.0000")], &Notes::default());
    assert!(!text.contains('\r'), "CRLF leaked into the metrics file");
    assert!(!text.starts_with('\u{feff}'), "a BOM leaked in");
    assert!(text.ends_with('\n'));
}

#[test]
fn nav_and_match_are_skipped_when_prepare_failed() {
    assert!(gated_steps(false).is_empty());
    let steps = gated_steps(true);
    assert_eq!(steps.len(), 1 + MATCH_SIGNALS.len());
    assert_eq!(steps[0].mode, "nav");
    assert_eq!(steps[0].signals, None);
    let signals: Vec<Option<usize>> = steps[1..].iter().map(|s| s.signals).collect();
    assert_eq!(signals, vec![Some(1_000), Some(10_000), Some(100_000)]);
    assert!(steps[1..].iter().all(|s| s.mode == "match"));
}

#[test]
fn one_m_is_always_the_last_basis() {
    let bases = default_bases(true, true);
    assert_eq!(bases.last().map(String::as_str), Some("1M"));
    assert!(bases.contains(&"real".to_string()));
    assert!(!default_bases(false, false).contains(&"1M".to_string()));
}

#[test]
fn last_nonblank_survives_crlf_and_trailing_newlines() {
    assert_eq!(
        last_nonblank("first\r\nsecond failed\r\n\r\n"),
        Some("second failed".to_string())
    );
    assert_eq!(last_nonblank("   \n\n"), None);
    assert_eq!(last_nonblank(""), None);
}

#[test]
fn a_non_object_line_is_not_a_record() {
    assert!(Record::parse("not json").is_none());
    assert!(Record::parse("[1,2]").is_none());
    assert!(Record::parse("").is_none());
    assert!(Record::parse(r#"  {"basis":"665","mode":"nav"}  "#).is_some());
}

#[test]
fn timestamps_render_as_the_documented_shapes() {
    let secs = 1_785_063_288;
    assert_eq!(format_utc(secs), "2026-07-26 10:54:48 UTC");
    assert_eq!(stamp_utc(secs), "20260726-105448");
    assert_eq!(format_utc(0), "1970-01-01 00:00:00 UTC");
    assert_eq!(
        format_utc(1_709_208_000),
        "2024-02-29 12:00:00 UTC"
    );
}

fn step(mode: &'static str, signals: Option<usize>) -> Step {
    Step { mode, signals }
}

#[test]
fn the_matrix_runs_every_step_of_every_basis() {
    let bases = vec!["golden".to_string(), "1M".to_string()];
    let mut m = Matrix::start();
    let mut seen: Vec<String> = Vec::new();
    while let Some((basis, s)) = m.next_step(&bases) {
        seen.push(step_label(&basis, &s));
        let ok = basis != "1M";
        m = m.advance(&bases, ok);
    }
    assert_eq!(
        seen,
        vec![
            "golden/prepare",
            "golden/from_slice",
            "golden/cache_hit",
            "golden/access_checked",
            "golden/access_unchecked",
            "golden/nav",
            "golden/match --signals 1000",
            "golden/match --signals 10000",
            "golden/match --signals 100000",
            "1M/prepare",
            "1M/from_slice",
            "1M/cache_hit",
            "1M/access_checked",
            "1M/access_unchecked",
        ]
    );
}

#[test]
fn bases_run_in_order_of_size() {
    assert_eq!(default_bases(false, false), vec!["golden", "665", "100K"]);
    assert_eq!(default_bases(true, true), vec!["golden", "665", "100K", "real", "1M"]);
    assert_eq!(bases_for(false, false, true, true), vec!["real"]);
}

#[test]
fn a_scenario_is_told_its_basis_mode_and_signals() {
    let runner = ScenarioRunner::new("/bin/app", vec!["--bench-scenario".to_string()]);
    assert_eq!(
        scenario_argv(&runner, "665", &step("match", Some(1000))),
        vec!["--bench-scenario", "--basis", "665", "--mode", "match", "--signals", "1000"]
    );
    assert_eq!(
        scenario_argv(&runner, "665", &step("nav", None)),
        vec!["--bench-scenario", "--basis", "665", "--mode", "nav"]
    );
}

#[test]
fn an_outcome_is_the_scenario_s_own_line_or_a_failure() {
    let s = step("nav", None);
    let wall = Some("12.5".to_string());
    let line = r#"{"basis":"665","mode":"nav","wall_ms":1.5}"#;
    let out = format!("noise\n  {}  \n", line);
    let good = outcome("665", &s, true, Some(0), &out, "", wall.clone());
    assert!(good.ok());
    assert_eq!(good.raw, line);
    let bad = outcome("665", &s, false, Some(3), &out, "warn\nboom\n", wall.clone());
    assert!(!bad.ok());
    assert_eq!(bad.error(), "boom");
    assert_eq!(
        bad.raw,
        r#"{"basis":"665","error":"boom","exit_code":3,"mode":"nav","ok":false,"wall_ms":12.5}"#
    );
    let quiet = outcome("665", &s, true, Some(0), "nothing", "", wall.clone());
    assert_eq!(quiet.error(), "no output (exit 0) - likely killed by the OS");
    let killed = outcome("665", &s, false, None, "", "", wall.clone());
    assert_eq!(killed.error(), "no output (killed by a signal) - likely killed by the OS");
    let shot = outcome("665", &s, false, None, "", "oops", None);
    assert_eq!(shot.error(), "oops (killed by a signal)");
    assert!(shot.raw.contains("\"exit_code\":-1"));
    assert!(shot.raw.contains("\"wall_ms\":null"));
    let spawn = spawn_failure("665", &s, "no such file", wall);
    assert_eq!(spawn.error(), "could not spawn the scenario: no such file");
}

#[test]
fn failure_texts_are_quoted() {
    let r = Record::failure("b", "m", -7, "say \"no\"\\\n", None);
    assert_eq!(
        r.raw,
        r#"{"basis":"b","error":"say \"no\"\\\n","exit_code":-7,"mode":"m","ok":false,"wall_ms":null}"#
    );
    let back = Record::parse(&r.raw).unwrap();
    assert_eq!(back.error(), "say \"no\"\\\n");
    assert_eq!(back.basis(), "b");
    assert_eq!(back.mode(), "m");
    assert!(!back.ok());
}

#[test]
fn fields_are_read_by_their_kind() {
    let r = record(r#"{"a":1.5,"b":7,"c":"x","d":true,"e":null,"f":[1]}"#);
    let field = |k: &str| r.fields.iter().find(|f| f.0 == k).map(|f| f.1.clone()).unwrap();
    assert!(matches!(field("a"), Field::Measure(t) if t == "1.5"));
    assert!(matches!(field("b"), Field::Count(t) if t == "7"));
    assert!(matches!(field("c"), Field::Text(t) if t == "x"));
    assert!(matches!(field("d"), Field::Flag(true)));
    assert!(matches!(field("e"), Field::Null));
    assert!(matches!(field("f"), Field::Other(t) if t == "[1]"));
    assert_eq!(measures(&[r]), vec!["1.5"]);
}

#[test]
fn provenance_is_told_as_far_as_it_is_known() {
    assert_eq!(build_provenance("1.2.3", Some("abc")), "1.2.3 @ abc");
    assert_eq!(build_provenance("1.2.3", Some("")), "1.2.3 (no SVX_BUILD_REV at build time)");
    assert_eq!(build_provenance("1.2.3", None), "1.2.3 (no SVX_BUILD_REV at build time)");
    assert_eq!(git_revision(Some("main"), Some("abc"), None), "main @ abc (clean)");
    assert_eq!(
        git_revision(Some("main"), Some("abc"), Some(" M a\n M b")),
        "main @ abc (DIRTY (2 changed files))"
    );
    assert_eq!(git_revision(None, Some("abc"), None), "not found");
    assert_eq!(probed(true, "  rustc 1.0 \n"), Some("rustc 1.0".to_string()));
    assert_eq!(probed(true, " \n"), None);
    assert_eq!(probed(false, "x"), None);
    assert_eq!(
        cpu_name("vendor_id\t: X\nmodel name\t: Some CPU @ 3GHz \n"),
        Some("Some CPU @ 3GHz".to_string())
    );
    assert_eq!(cpu_name("flags: none"), None);
    assert_eq!(os_name("linux", "x86_64", Some("6.1\n")), "linux x86_64 6.1");
    assert_eq!(os_name("windows", "x86_64", None), "windows x86_64");
}

#[test]
fn days_follow_the_calendar() {
    assert_eq!(civil_from_unix(951_782_399), (2000, 2, 28, 23, 59, 59));
    assert_eq!(civil_from_unix(951_782_400), (2000, 2, 29, 0, 0, 0));
    assert_eq!(civil_from_unix(4_107_542_400), (2100, 3, 1, 0, 0, 0));
}

#[test]
fn a_packaged_run_needs_a_basis() {
    assert_eq!(
        packaged_bases(None, true, true, false, true).unwrap(),
        vec!["golden", "665", "100K", "real"]
    );
    let named = Some(vec!["665".to_string()]);
    assert_eq!(packaged_bases(named, false, false, true, true).unwrap(), vec!["665"]);
    let why = packaged_bases(None, false, false, true, false).unwrap_err();
    assert!(why.contains("no -model was given"));
}

#[test]
fn a_benchmark_is_named_by_its_description_or_its_directory() {
    assert_eq!(bench_name(Some(r#"{"full_id":"load/665"}"#), "/c/new"), "load/665");
    assert_eq!(bench_name(Some(r#"{"full_id":7}"#), "/c/new"), "/c/new");
    assert_eq!(bench_name(Some("broken"), "/c/new"), "/c/new");
    assert_eq!(bench_name(None, "/c/new"), "/c/new");
    let fields = vec![("full_id".to_string(), Field::Text("x".to_string()))];
    assert_eq!(described_name(Some(fields), "/c/new"), "x");
}

const ESTIMATES: &str = r#"{
    "mean": {"confidence_interval": {"lower_bound": 1.0}, "point_estimate": 1234567.5,
             "standard_error": 2.5},
    "median": {"point_estimate": 42},
    "slope": null,
    "std_dev": {"point_estimate": "7"}
}"#;

#[test]
fn estimates_are_picked_from_their_file() {
    let e = read_estimates(ESTIMATES, Some(r#"{"full_id":"load/665"}"#), "/c/new").unwrap();
    assert_eq!(e.id, "load/665");
    assert_eq!(e.mean.as_deref(), Some("1234567.5"));
    assert_eq!(e.median.as_deref(), Some("42"));
    assert_eq!(e.std_dev, None);
    let bare = read_estimates("{}", None, "/c/new").unwrap();
    assert_eq!(bare.id, "/c/new");
    assert!(bare.mean.is_none() && bare.median.is_none() && bare.std_dev.is_none());
}

#[test]
fn estimates_that_are_no_object_leave_all_out_and_broken_ones_give_none() {
    for text in ["[1, 2]", "7", "null", r#"{"mean": 3, "median": [1], "std_dev": {}}"#] {
        let e = read_estimates(text, None, "d").unwrap();
        assert_eq!(e.id, "d");
        assert!(e.mean.is_none() && e.median.is_none() && e.std_dev.is_none());
    }
    assert!(read_estimates("{", None, "d").is_none());
    assert!(read_estimates("", None, "d").is_none());
}

#[test]
fn a_point_is_a_number_of_an_inner_object() {
    let named = |k: &str, f: Field| (k.to_string(), f);
    let outer = Json::Object(vec![
        named("mean", Field::Other("{}".to_string())),
        named("median", Field::Count("3".to_string())),
    ]);
    assert_eq!(inner_text(&outer, "mean").as_deref(), Some("{}"));
    assert_eq!(inner_text(&outer, "median"), None);
    assert_eq!(inner_text(&outer, "slope"), None);
    assert_eq!(inner_text(&Json::Plain, "mean"), None);
    let point = |f: Field| point_text(Some(Json::Object(vec![named("point_estimate", f)])));
    assert_eq!(point(Field::Measure("2.5".to_string())).as_deref(), Some("2.5"));
    assert_eq!(point(Field::Count("2".to_string())).as_deref(), Some("2"));
    assert_eq!(point(Field::Text("2".to_string())), None);
    assert_eq!(point(Field::Null), None);
    assert_eq!(point_text(Some(Json::Plain)), None);
    assert_eq!(point_text(None), None);
}

#[test]
fn every_character_is_escaped_as_json_has_it() {
    let all: String = (0u32..0x20).filter_map(char::from_u32).collect();
    let r = Record::failure(&all, "\u{7f}\u{e9}/\u{1f600}", 0, "", None);
    let control = "\\u0000\\u0001\\u0002\\u0003\\u0004\\u0005\\u0006\\u0007\\b\\t\\n\\u000b\\f\\r\
        \\u000e\\u000f\\u0010\\u0011\\u0012\\u0013\\u0014\\u0015\\u0016\\u0017\\u0018\\u0019\
        \\u001a\\u001b\\u001c\\u001d\\u001e\\u001f";
    assert_eq!(
        r.raw,
        format!(
            "{{\"basis\":\"{}\",\"error\":\"\",\"exit_code\":0,\"mode\":\"\u{7f}\u{e9}/\u{1f600}\",\
             \"ok\":false,\"wall_ms\":null}}",
            control
        )
    );
    assert_eq!(Record::parse(&r.raw).unwrap().basis(), all);
}

#[test]
fn an_elaborated_model_says_where_it_comes_from() {
    let plain = rendered(&[], &Notes::default());
    assert!(!plain.contains("elaborated from"));
    let told = Notes { elaborated: Some("top.f (top t)".to_string()), ..Notes::default() };
    let text = rendered(&[], &told);
    assert!(text.contains("| real model | none |\n| elaborated from | top.f (top t) |\n\n"));
    assert_eq!(text.replace("| elaborated from | top.f (top t) |\n", ""), plain);
}
