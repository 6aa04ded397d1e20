use svxprobe::bench::elaborate::{
    elaborated, harness_node_count, model_file, with_thousands, Elaboration,
};
use svxprobe::bench::handles::{derive_handles, signals_from_design, synth_signals};
use svxprobe::bench::mem::{current_rss_bytes, kb_line, peak_rss_bytes, ram_bytes};
use svxprobe::bench::options::{
    bench_argv, bench_note, chosen_bases, is_new_estimate, model_to_run, out_path, parse_args,
    report_outcome, skip_notes, Args, USAGE,
};
use svxprobe::bench::report::{
    anchored_at, external_row, golden_row, real_workload, synth_row, Timings, HEADER, RULE,
};
use svxprobe::bench::rng::SplitMix64;
use svxprobe::bench::scenario::{
    is_load_mode, parse_args as parse_scenario, ScenarioArgs, LOAD_MODES, NAV_ITERS, NAV_SCOPES,
    USAGE as SCENARIO_USAGE,
};
use svxprobe::bench::synth::{build_design, fits, generate, Synth, SynthConfig};
use svxprobe::ingest::load;
use svxprobe::matcher::run::{run_match, MatchOptions};
use svxprobe::model::{Design, NodeKind};
use svxprobe::schematic::hierarchy::is_hierarchical;
use svxprobe::schematic::scope::scope_graph;

fn texts(argv: &[&str]) -> Vec<String> {
    argv.iter().map(|s| s.to_string()).collect()
}

fn parse(argv: &[&str]) -> Result<Args, String> {
    parse_args(&texts(argv))
}

fn err(argv: &[&str]) -> String {
    parse(argv).err().expect("expected a usage error")
}

#[test]
fn the_designlist_flags_land_in_their_fields() {
    let args = parse(&[
        "--filelist",
        "soc.f",
        "--top",
        "soc_top",
        "--include",
        "rtl/inc",
        "--include",
        "vendor/inc",
        "--model-out",
        "keep.json",
    ])
    .expect("valid");
    assert_eq!(args.filelist.as_deref(), Some("soc.f"));
    assert_eq!(args.top.as_deref(), Some("soc_top"));
    assert_eq!(args.incdirs, ["rtl/inc", "vendor/inc"]);
    assert_eq!(args.model_out.as_deref(), Some("keep.json"));
}

#[test]
fn the_short_designlist_spellings_are_accepted_too() {
    let args = parse(&["-f", "soc.f", "--top", "t", "-I", "rtl/inc"]).expect("valid");
    assert_eq!(args.filelist.as_deref(), Some("soc.f"));
    assert_eq!(args.incdirs, ["rtl/inc"]);
}

#[test]
fn the_designlist_flags_require_each_other() {
    assert!(err(&["--filelist", "soc.f", "--model", "m.json"]).contains("mutually exclusive"));
    assert_eq!(err(&["--filelist", "soc.f"]), "--filelist requires --top <name>");
    assert_eq!(err(&["--top", "soc_top"]), "--top requires --filelist <design.f>");
    assert_eq!(err(&["--include", "rtl/inc"]), "--include requires --filelist <design.f>");
    assert_eq!(err(&["--model-out", "keep.json"]), "--model-out requires --filelist <design.f>");
    assert!(err(&["--filelist", "soc.f", "--top", "t", "--bases", "golden 665"])
        .contains("does not include it"));
    assert!(parse(&["--filelist", "soc.f", "--top", "t", "--bases", "golden real"]).is_ok());
}

#[test]
fn a_flag_where_a_value_is_expected_is_rejected() {
    assert!(err(&["--model", "--out", "m.md"]).contains("expects a value"));
    assert!(err(&["--filelist", "--top"]).contains("expects a value"));
    assert!(err(&["--model"]).contains("needs a value"));
}

#[test]
fn the_pre_existing_flags_still_parse_as_before() {
    let args = parse(&[
        "--full",
        "--model",
        "m.json",
        "--bases",
        "golden 665",
        "--skip-criterion",
        "--skip-report",
        "--online",
        "--out",
        "m.md",
    ])
    .expect("valid");
    assert!(args.full && args.skip_criterion && args.skip_report && args.online);
    assert_eq!(args.model.as_deref(), Some("m.json"));
    assert_eq!(args.out.as_deref(), Some("m.md"));
    assert_eq!(args.bases.unwrap(), ["golden", "665"]);
    assert!(parse(&["--bases", "   "]).is_err());
    assert_eq!(err(&["-h"]), "help requested");
    assert!(err(&["--nope"]).contains("unknown argument"));
}

#[test]
fn usage_documents_the_designlist_flags_and_the_harness_override() {
    for flag in ["--filelist", "--top", "--include", "--model-out"] {
        assert!(USAGE.contains(flag), "USAGE omits {}", flag);
    }
    assert!(USAGE.contains("SVXPROBE_ELABORATE"));
}

fn sample() -> Elaboration {
    Elaboration {
        model: "/tmp/scale_bench_elaborate/hierarchy.json".to_string(),
        filelist: "design.f".to_string(),
        top: "soc_top".to_string(),
        nodes: Some(1_203_441),
        wall: format!("{:.1}", 42_300 as f64 / 1e3),
    }
}

#[test]
fn provenance_names_the_filelist_top_size_and_cost() {
    assert_eq!(
        sample().provenance(),
        "design.f (top soc_top), 1,203,441 nodes, elaborated in 42.3 s \
         -> /tmp/scale_bench_elaborate/hierarchy.json"
    );
}

#[test]
fn provenance_says_so_rather_than_lying_when_the_count_is_unknown() {
    let e = Elaboration { nodes: None, ..sample() };
    assert!(e.provenance().contains("node count not reported"));
}

#[test]
fn the_node_count_comes_off_the_harness_closing_line() {
    let log = "warning: no time scale\nelaborated soc_top: 7231 nodes, 42 files";
    assert_eq!(harness_node_count(log), Some(7231));
}

#[test]
fn an_unrecognized_log_yields_no_count_rather_than_an_error() {
    for log in ["", "done", "elaborated soc_top", "elaborated soc_top: lots nodes"] {
        assert_eq!(harness_node_count(log), None, "log: {:?}", log);
    }
}

#[test]
fn thousands_groups_from_the_right() {
    for (n, want) in [
        (0u64, "0"),
        (7, "7"),
        (999, "999"),
        (1_000, "1,000"),
        (7_231, "7,231"),
        (1_203_441, "1,203,441"),
    ] {
        assert_eq!(with_thousands(n), want);
    }
}

/// The status text of a process as Linux shows it.
fn status() -> String {
    "Name:\tscenario\nUmask:\t0022\nState:\tR (running)\nTgid:\t4711\n\
     VmPeak:\t    8816 kB\nVmSize:\t    8812 kB\nVmLck:\t       0 kB\n\
     VmHWM:\t    2604 kB\nVmRSS:\t    2548 kB\nRssAnon:\t     180 kB\nThreads:\t2\n"
        .to_string()
}

#[test]
fn peak_rss_is_plausible_or_absent() {
    match peak_rss_bytes(&status()) {
        Some(bytes) => assert!(bytes > 1_000_000, "implausible peak RSS: {} bytes", bytes),
        None => panic!("peak RSS probe returned None on a supported platform"),
    }
}

#[test]
fn current_never_exceeds_peak() {
    let s = status();
    if let (Some(cur), Some(peak)) = (current_rss_bytes(&s), peak_rss_bytes(&s)) {
        assert!(cur <= peak, "current RSS {} exceeds peak {}", cur, peak);
    }
}

fn args(argv: &[&str]) -> Result<ScenarioArgs, String> {
    parse_scenario(&texts(argv))
}

#[test]
fn basis_and_mode_are_required() {
    assert!(args(&[]).is_err());
    assert!(args(&["--basis", "665"]).is_err());
    assert!(args(&["--mode", "nav"]).is_err());
    let ok = args(&["--basis", "665", "--mode", "nav"]).expect("both given");
    assert_eq!(ok.basis, "665");
    assert_eq!(ok.mode, "nav");
}

#[test]
fn nav_defaults_are_the_documented_ones() {
    let a = args(&["--basis", "golden", "--mode", "nav"]).expect("parses");
    assert_eq!((a.nav_scopes, a.nav_iters), (NAV_SCOPES, NAV_ITERS));
    assert_eq!((NAV_SCOPES, NAV_ITERS), (32, 3));
    assert_eq!(a.signals, None);
}

#[test]
fn nav_counts_are_clamped_to_at_least_one() {
    let a = args(&[
        "--basis",
        "665",
        "--mode",
        "nav",
        "--nav-scopes",
        "0",
        "--nav-iters",
        "0",
    ])
    .expect("parses");
    assert_eq!((a.nav_scopes, a.nav_iters), (1, 1));
}

#[test]
fn signals_is_parsed_when_given() {
    let a = args(&["--basis", "665", "--mode", "match", "--signals", "10000"]).expect("parses");
    assert_eq!(a.signals, Some(10_000));
    assert!(args(&["--basis", "665", "--mode", "match", "--signals", "many"]).is_err());
}

#[test]
fn unknown_flags_and_missing_values_are_errors() {
    assert!(args(&["--basis", "665", "--mode", "nav", "--nope"]).is_err());
    assert!(args(&["--basis"]).is_err());
    assert!(args(&["--basis", "665", "--mode"]).is_err());
}

#[test]
fn help_is_an_error_the_caller_turns_into_usage() {
    assert!(args(&["-h"]).is_err());
    assert!(args(&["--help"]).is_err());
}

#[test]
fn usage_lists_every_mode_the_dispatcher_accepts() {
    for mode in [
        "prepare",
        "from_slice",
        "cache_hit",
        "access_checked",
        "access_unchecked",
        "nav",
        "match",
    ] {
        assert!(SCENARIO_USAGE.contains(mode), "USAGE does not mention the `{}` mode", mode);
    }
    for mode in LOAD_MODES {
        assert!(SCENARIO_USAGE.contains(mode));
        assert!(is_load_mode(mode));
    }
    assert!(!is_load_mode("nav"));
}

fn branching(cfg: &SynthConfig) -> usize {
    let exp = 1.0 / ((cfg.depth.max(1) + 1) as f64);
    ((cfg.node_count as f64).powf(exp) as usize).max(2)
}

fn small() -> SynthConfig {
    SynthConfig { node_count: 2_000, fanout: 4, depth: 3, signal_count: 1_000, seed: 0xC0FF_EE00 }
}

fn generated(cfg: &SynthConfig) -> Synth {
    assert!(fits(cfg, branching(cfg)));
    generate(cfg, branching(cfg))
}

fn built(cfg: &SynthConfig) -> (Design, Synth) {
    assert!(fits(cfg, branching(cfg)));
    build_design(cfg, branching(cfg))
}

#[test]
fn generator_output_passes_validate() {
    assert!(load(generated(&small()).doc).is_ok());
}

#[test]
fn node_ids_are_indices() {
    let synth = generated(&small());
    for (i, n) in synth.doc.nodes.iter().enumerate() {
        assert_eq!(n.id as usize, i, "node.id must equal its index");
    }
}

#[test]
fn clock_net_has_expected_fanout() {
    let (design, synth) = built(&small());
    assert!(synth.clock_fanout > 0, "clock must fan out to some FFs");
    assert_eq!(design.edges_of(synth.clock_net).len(), synth.clock_fanout);
}

#[test]
fn mid_scope_scope_graph_nonempty() {
    let (design, synth) = built(&small());
    assert!(is_hierarchical(&design));
    let g = scope_graph(&design, &synth.mid_scope).expect("mid scope resolves to a graph");
    assert!(!g.nodes.is_empty(), "mid scope has at least one box");
}

#[test]
fn probe_handles_resolve() {
    let (design, synth) = built(&small());
    assert!(!design.nodes_at_path(&synth.probe_path).is_empty());
    let (file, off) = synth.probe_source;
    assert!(!design.nodes_at_source(file, off).is_empty());
}

#[test]
fn synth_signals_match() {
    let (mut design, synth) = built(&small());
    let signals = synth_signals(&synth, &design, small().signal_count);
    assert!(!signals.is_empty());
    let opts =
        MatchOptions { excluded_scopes: vec![], anchor: Some(vec!["top".to_string()]) };
    let report = run_match(&mut design, &signals, &opts);
    let hit_rate = report.matched() as f64 / report.denominator as f64;
    assert!(hit_rate > 0.99, "synthetic signals should match near-fully, got {}", hit_rate);
    assert_eq!(report.mystery, 0, "no mystery misses");
}

#[test]
fn generation_is_deterministic() {
    let a = format!("{:?}", generated(&SynthConfig::mid()).doc);
    let b = format!("{:?}", generated(&SynthConfig::mid()).doc);
    assert!(a == b, "same seed, same output");
}

#[test]
fn generator_emits_port_nodes() {
    let synth = generated(&small());
    let ports = synth.doc.nodes.iter().filter(|n| n.kind == NodeKind::Port).count();
    assert!(ports > 0, "generator emits port nodes");
}

#[test]
fn random_numbers_follow_the_seed() {
    let mut r = SplitMix64::new(0);
    assert_eq!(r.next_u64(), 0xE220_A839_7B1D_CDAF);
    assert_eq!(r.next_u64(), 0x6E78_9E6A_A1B9_65F4);
    assert_eq!(r.next_u64(), 0x06C4_5D18_8009_454F);
}

#[test]
fn memory_is_read_off_kilobyte_lines() {
    let text = "Name:\tx\nVmHWM:\t  2048 kB\nVmRSS:\t 1024 kB\n";
    assert_eq!(peak_rss_bytes(text), Some(2_097_152));
    assert_eq!(current_rss_bytes(text), Some(1_048_576));
    assert_eq!(kb_line(text, "VmHWM"), Some(2_097_152));
    assert_eq!(kb_line(text, "VmSwap"), None);
    assert_eq!(peak_rss_bytes("VmHWM: many kB"), None);
    assert_eq!(
        ram_bytes("MemTotal: 10 kB\nMemFree: 1 kB\nMemAvailable: 4 kB\n"),
        Some((10_240, 4_096))
    );
    assert_eq!(ram_bytes("MemTotal: 10 kB\nMemFree: 1 kB\n"), Some((10_240, 1_024)));
    assert_eq!(ram_bytes("MemTotal: 10 kB\n"), Some((10_240, 0)));
    assert_eq!(ram_bytes("MemFree: 1 kB\n"), None);
}

#[test]
fn handles_and_workload_come_off_a_design() {
    let (design, synth) = built(&small());
    let h = derive_handles(&design);
    assert!(h.hot_fanout >= synth.clock_fanout);
    assert!(!design.nodes_at_path(&h.probe_path).is_empty());
    assert!(design.node(h.mid_instance).is_some());
    let signals = signals_from_design(&design, 50);
    assert_eq!(signals.len(), 50);
    assert!(signals.iter().all(|s| s.full_name.starts_with("top.")));
    let work = real_workload(&design);
    assert_eq!(work.handles.hot_net, h.hot_net);
    assert_eq!(work.options.anchor, anchored_at("top").anchor);
    let t = Timings {
        from_slice_ms: "1.0".to_string(),
        parse_ms: "2.0".to_string(),
        index_ms: "3.0".to_string(),
        scope_graph_us: "4.0".to_string(),
        expand_us: "5.0".to_string(),
        path_us: "6.0".to_string(),
        source_us: "7.0".to_string(),
        cone_ms: "8.0".to_string(),
        match_ms: "9.0".to_string(),
    };
    let row = synth_row("665", 10, 20, "0.5", &t, 4);
    assert!(row.starts_with("| 665 | 10 | 20 |"));
    let wide = HEADER.matches('|').count();
    assert_eq!(row.matches('|').count(), wide);
    assert_eq!(RULE.matches('|').count(), wide);
    let real = external_row("/x/hierarchy.json", &design, &work, "0.5", &t);
    assert_eq!(real.matches('|').count(), wide);
    assert_eq!(golden_row(None), "| 665 (golden) | _fixture not found_ |");
    assert_eq!(golden_row(Some((665, 700, "0.10", "1.250"))).matches('|').count(), wide);
}

#[test]
fn runs_are_planned_by_the_arguments() {
    let a = parse(&["--full", "--model", "m.json"]).unwrap();
    assert_eq!(chosen_bases(&a, true, true).unwrap(), vec!["golden", "665", "100K", "real", "1M"]);
    let named = parse(&["--bases", "golden 665"]).unwrap();
    assert_eq!(chosen_bases(&named, true, true).unwrap(), vec!["golden", "665"]);
    assert_eq!(model_to_run(&a, None).as_deref(), Some("m.json"));
    assert_eq!(model_to_run(&named, Some("e.json".to_string())).as_deref(), Some("e.json"));
    assert_eq!(
        out_path(&named, "/t", "20260726-105448"),
        "/t/scale-bench/metrics-20260726-105448.md"
    );
    assert_eq!(out_path(&parse(&["--out", "m.md"]).unwrap(), "/t", "x"), "m.md");
    let skipped = skip_notes(&parse(&["--skip-criterion", "--skip-report"]).unwrap());
    assert!(skipped.criterion_note.contains("--skip-criterion"));
    assert!(skipped.report_note.unwrap().contains("--skip-report"));
    assert!(bench_argv(false).contains(&"--offline".to_string()));
    assert!(!bench_argv(true).contains(&"--offline".to_string()));
    assert!(bench_note(0).contains("0"));
    let (table, note) = report_outcome(true, Some(0), "noise\n| a |\n| b |\n", "");
    assert_eq!(table, vec!["| a |", "| b |"]);
    assert_eq!(note, None);
    assert_eq!(
        report_outcome(true, Some(0), "noise", "").1.as_deref(),
        Some("report bin produced no table")
    );
    assert_eq!(
        report_outcome(false, None, "", "bad\n").1.as_deref(),
        Some("report bin failed (exit -1): bad")
    );
    assert!(is_new_estimate("estimates.json", "new", true));
    assert!(!is_new_estimate("estimates.json", "base", true));
    assert!(!is_new_estimate("estimates.json", "new", false));
}

#[test]
fn an_elaboration_is_told_by_its_log() {
    assert_eq!(model_file(None, "/tmp/x"), "/tmp/x/hierarchy.json");
    assert_eq!(model_file(Some("keep.json".to_string()), "/tmp/x"), "keep.json");
    let e = elaborated(
        "keep.json".to_string(),
        "soc.f",
        "soc",
        "elaborated soc: 12 nodes, 1 files\n",
        "0.5".to_string(),
    );
    assert_eq!(e.provenance(), "soc.f (top soc), 12 nodes, elaborated in 0.5 s -> keep.json");
}
