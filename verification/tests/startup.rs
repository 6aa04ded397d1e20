use svxprobe::files::{file_name, file_stem, join_path, parent_dir, pick_source_path};
use svxprobe::startup::{invocation_dir, parse, resolve_path, StartupArgs, StartupError, USAGE};

fn texts(args: &[&str]) -> Vec<String> {
    args.iter().map(|s| s.to_string()).collect()
}

fn parse_ok(args: &[&str]) -> StartupArgs {
    parse(&texts(args)).expect("parse should succeed").expect("should yield args")
}

fn usage_error(args: &[&str]) -> String {
    match parse(&texts(args)) {
        Err(StartupError::Usage(why)) => why,
        other => panic!("no usage error: {:?}", other),
    }
}

#[test]
fn no_args_boots_the_normal_gui() {
    assert_eq!(parse(&[]), Ok(None));
}

#[test]
fn happy_path_collects_the_designlist_fields() {
    let a = parse_ok(&["-f", "soc.f", "-top", "soc_top", "-trace", "sim.fst", "-src-root", "rtl"]);
    assert_eq!(a.filelist, "soc.f");
    assert_eq!(a.top, "soc_top");
    assert_eq!(a.trace, "sim.fst");
    assert_eq!(a.src_root, "rtl");
}

#[test]
fn trace_and_src_root_are_optional_with_defaults() {
    let a = parse_ok(&["-f", "soc.f", "-top", "soc_top"]);
    assert_eq!(a.trace, "");
    assert_eq!(a.src_root, ".");
    assert!(a.incdirs.is_empty());
}

#[test]
fn include_dirs_are_repeatable() {
    let a = parse_ok(&["-f", "soc.f", "-top", "soc_top", "-I", "rtl", "-I", "inc"]);
    assert_eq!(a.incdirs, vec!["rtl".to_string(), "inc".to_string()]);
}

#[test]
fn long_flags_accept_one_or_two_dashes() {
    let one = parse_ok(&["-f", "soc.f", "-top", "soc_top"]);
    let two = parse_ok(&["-f", "soc.f", "--top", "soc_top"]);
    assert_eq!(one.top, "soc_top");
    assert_eq!(two.top, "soc_top");
}

#[test]
fn filelist_without_top_is_a_usage_error() {
    assert!(matches!(parse(&texts(&["-f", "soc.f"])), Err(StartupError::Usage(_))));
}

#[test]
fn top_without_filelist_is_a_usage_error() {
    assert!(matches!(parse(&texts(&["-top", "soc_top"])), Err(StartupError::Usage(_))));
}

#[test]
fn repeated_filelist_is_rejected() {
    assert!(matches!(
        parse(&texts(&["-f", "a.f", "-f", "b.f", "-top", "t"])),
        Err(StartupError::Usage(_))
    ));
}

#[test]
fn unknown_flag_is_a_usage_error() {
    assert!(matches!(parse(&texts(&["--nope"])), Err(StartupError::Usage(_))));
}

#[test]
fn missing_flag_value_is_a_usage_error() {
    assert!(matches!(parse(&texts(&["-f"])), Err(StartupError::Usage(_))));
}

#[test]
fn a_flag_where_a_value_is_expected_is_a_usage_error() {
    assert!(matches!(parse(&texts(&["-f", "-top", "t"])), Err(StartupError::Usage(_))));
}

#[test]
fn a_repeated_single_value_flag_takes_the_last() {
    let a = parse_ok(&["-f", "a.f", "-top", "t1", "-top", "t2", "-trace", "x", "-trace", "y"]);
    assert_eq!(a.top, "t2");
    assert_eq!(a.trace, "y");
}

#[test]
fn help_is_requested_explicitly() {
    assert_eq!(parse(&texts(&["-h"])), Err(StartupError::Help));
    assert_eq!(parse(&texts(&["--help"])), Err(StartupError::Help));
}

#[test]
fn invocation_dir_prefers_init_cwd_over_current_dir() {
    assert_eq!(
        invocation_dir(Some("/home/u/proj"), Some("/home/u/proj/app/src-tauri")),
        "/home/u/proj"
    );
    assert_eq!(invocation_dir(None, Some("/tmp/run")), "/tmp/run");
    assert_eq!(invocation_dir(Some(""), Some("/tmp/run")), "/tmp/run");
    assert_eq!(invocation_dir(None, None), ".");
}

#[test]
fn resolve_path_makes_relative_absolute_against_cwd() {
    let cwd = "/work/proj";
    assert_eq!(resolve_path("", cwd), "");
    assert!(resolve_path("soc.f", cwd).replace('\\', "/").ends_with("/work/proj/soc.f"));
}

#[test]
fn falls_back_to_stored_path_when_joined_is_missing() {
    let picked = pick_source_path("../..", "../../fixtures/rtl/x.sv", false, true);
    assert_eq!(picked, "../../fixtures/rtl/x.sv");
}

#[test]
fn prefers_joined_path_when_it_exists() {
    let picked = pick_source_path("/root", "fixtures/rtl/x.sv", true, false);
    assert_eq!(picked, "/root/fixtures/rtl/x.sv");
}

#[test]
fn keeps_joined_path_for_the_error_when_neither_exists() {
    let picked = pick_source_path("/root", "fixtures/rtl/x.sv", false, false);
    assert_eq!(picked, "/root/fixtures/rtl/x.sv");
}

#[test]
fn absolute_path_is_used_as_is() {
    let picked = pick_source_path("/root", "/abs/rtl/x.sv", false, false);
    assert_eq!(picked, "/abs/rtl/x.sv");
}

#[test]
fn usage_errors_say_what_is_wrong() {
    assert!(usage_error(&["--nope"]).contains("--nope"));
    assert!(usage_error(&["-f"]).contains("-f"));
    assert!(usage_error(&["-f", "soc.f"]).contains("-top"));
    assert!(USAGE.contains("-src-root <dir>"));
}

#[test]
fn paths_are_located_and_files_are_asked_for() {
    let a = parse_ok(&["-f", "soc.f", "-top", "t", "-I", "/abs/inc", "-I", "inc", "-trace", "w.fst"]);
    let r = a.clone().resolve("/w", true, true).unwrap();
    assert_eq!(r.filelist, "/w/soc.f");
    assert_eq!(r.top, "t");
    assert_eq!(r.incdirs, texts(&["/abs/inc", "/w/inc"]));
    assert_eq!(r.trace, "/w/w.fst");
    assert_eq!(r.clone().locate("/elsewhere"), r);
    assert_eq!(
        a.clone().resolve("/w", false, true),
        Err("filelist not found or not a file: /w/soc.f".to_string())
    );
    assert_eq!(
        a.resolve("/w", true, false),
        Err("trace not found or not a file: /w/w.fst".to_string())
    );
    let b = parse_ok(&["-f", "soc.f", "-top", "t"]);
    assert_eq!(b.resolve("/w", true, false).unwrap().trace, "");
}

#[test]
fn paths_come_apart_and_together() {
    assert_eq!(join_path("a/b", "c"), "a/b/c");
    assert_eq!(join_path("a/", "c"), "a/c");
    assert_eq!(join_path("a", "/c"), "/c");
    assert_eq!(file_name("a/b.tar.gz"), Some("b.tar.gz".to_string()));
    assert_eq!(file_name("/"), None);
    assert_eq!(file_stem("a/b.tar.gz"), Some("b.tar".to_string()));
    assert_eq!(parent_dir("a/b"), Some("a".to_string()));
    assert_eq!(parent_dir("/"), None);
}
