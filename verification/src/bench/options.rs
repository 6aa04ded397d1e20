//! The command line of a collection, and what follows from it.

use crate::bench::collect::{bases_for, bases_of, last_nonblank, last_words};
use crate::bench::metrics::Notes;
use crate::bench::records::{signed, signed_text};
use crate::files::{join_path, under_dir};
use crate::text::{
    all_chars, begins_with, clone_opt, clone_texts, holds_text, opt_chars, owned, push_text, same,
};
use crate::words::{lines_of, split_lines, split_words, starts_with, words, Phrase};
use vstd::prelude::*;
use vstd::string::*;

verus! {

broadcast use vstd::string::group_string_axioms;

/// The usage text.
pub const USAGE: &'static str = "\
usage: collect [--full] [--model <hierarchy.json>] [--bases \"golden 665\"]
               [--skip-criterion] [--skip-report] [--online] [--out <path>]
       collect [...] --filelist <design.f> --top <name> [--include <dir>]...
               [--model-out <path>]

  --full             add the 1M basis (slow; may be killed by the OS — that is a result)
  --model <path>     an elaborated hierarchy.json, measured as the `real` basis
  --bases \"a b c\"    override the basis list entirely
  --skip-criterion   skip `cargo bench` (the statistical layer)
  --skip-report      skip the single-shot report bin
  --online           allow cargo to reach the network (default is --offline)
  --out <path>       metrics file (default: <core>/target/scale-bench/metrics-<stamp>.md)

  --filelist <f>     elaborate this designlist into the `real` basis (#255),
                     instead of passing an already-elaborated --model. Uses the
                     same argv as the app's own designlist load, so the model
                     measured is the model the tool loads. Needs --top.
  --top <name>       top module name; required with --filelist
  --include <dir>    include directory for the elaboration, repeatable
  --model-out <path> keep the elaborated JSON here instead of a temp scratch
                     dir, so a later run can skip elaboration with --model

environment:
  SVXPROBE_ELABORATE  path to the elaboration harness, when it is not on PATH";

/// What a collection is told.
#[derive(Debug, Clone)]
pub struct Args {
    pub full: bool,
    pub model: Option<String>,
    pub bases: Option<Vec<String>>,
    pub skip_criterion: bool,
    pub skip_report: bool,
    pub online: bool,
    pub out: Option<String>,
    pub filelist: Option<String>,
    pub top: Option<String>,
    pub incdirs: Vec<String>,
    pub model_out: Option<String>,
}

/// What a collection is told.
#[verifier::ext_equal]
pub struct ArgsV {
    pub full: bool,
    pub model: Option<Seq<char>>,
    pub bases: Option<Seq<Seq<char>>>,
    pub skip_criterion: bool,
    pub skip_report: bool,
    pub online: bool,
    pub out: Option<Seq<char>>,
    pub filelist: Option<Seq<char>>,
    pub top: Option<Seq<char>>,
    pub incdirs: Seq<Seq<char>>,
    pub model_out: Option<Seq<char>>,
}

impl View for Args {
    type V = ArgsV;

    open spec fn view(&self) -> ArgsV {
        ArgsV {
            full: self.full,
            model: opt_chars(self.model),
            bases: match self.bases {
                Some(b) => Some(all_chars(b@)),
                None => None,
            },
            skip_criterion: self.skip_criterion,
            skip_report: self.skip_report,
            online: self.online,
            out: opt_chars(self.out),
            filelist: opt_chars(self.filelist),
            top: opt_chars(self.top),
            incdirs: all_chars(self.incdirs@),
            model_out: opt_chars(self.model_out),
        }
    }
}

/// What a collection is told by an empty command line.
pub open spec fn no_args() -> ArgsV {
    ArgsV {
        full: false,
        model: None,
        bases: None,
        skip_criterion: false,
        skip_report: false,
        online: false,
        out: None,
        filelist: None,
        top: None,
        incdirs: Seq::empty(),
        model_out: None,
    }
}

/// What an argument is.
#[derive(Debug, Clone, Copy, PartialEq, Eq, Structural)]
pub enum Opt {
    Full,
    SkipCriterion,
    SkipReport,
    Online,
    Model,
    Out,
    Filelist,
    Top,
    IncDir,
    ModelOut,
    Bases,
    Help,
}

/// What an argument is.
pub open spec fn opt_in(arg: Seq<char>) -> Option<Opt> {
    if arg == "--full"@ {
        Some(Opt::Full)
    } else if arg == "--skip-criterion"@ {
        Some(Opt::SkipCriterion)
    } else if arg == "--skip-report"@ {
        Some(Opt::SkipReport)
    } else if arg == "--online"@ {
        Some(Opt::Online)
    } else if arg == "--model"@ {
        Some(Opt::Model)
    } else if arg == "--out"@ {
        Some(Opt::Out)
    } else if arg == "--filelist"@ || arg == "-f"@ {
        Some(Opt::Filelist)
    } else if arg == "--top"@ {
        Some(Opt::Top)
    } else if arg == "--include"@ || arg == "-I"@ {
        Some(Opt::IncDir)
    } else if arg == "--model-out"@ {
        Some(Opt::ModelOut)
    } else if arg == "--bases"@ {
        Some(Opt::Bases)
    } else if arg == "-h"@ || arg == "--help"@ {
        Some(Opt::Help)
    } else {
        None
    }
}

/// How an argument that takes a value is named in messages; `None` for the others.
pub open spec fn opt_text(o: Opt) -> Option<Seq<char>> {
    match o {
        Opt::Model => Some("--model"@),
        Opt::Out => Some("--out"@),
        Opt::Filelist => Some("--filelist"@),
        Opt::Top => Some("--top"@),
        Opt::IncDir => Some("--include"@),
        Opt::ModelOut => Some("--model-out"@),
        Opt::Bases => Some("--bases"@),
        _ => None,
    }
}

/// What is told with an argument that takes no value.
pub open spec fn switched(a: ArgsV, o: Opt) -> ArgsV {
    match o {
        Opt::Full => ArgsV { full: true, ..a },
        Opt::SkipCriterion => ArgsV { skip_criterion: true, ..a },
        Opt::SkipReport => ArgsV { skip_report: true, ..a },
        Opt::Online => ArgsV { online: true, ..a },
        _ => a,
    }
}

/// What is told with an argument and its value.
pub open spec fn valued(a: ArgsV, o: Opt, v: Seq<char>) -> Result<ArgsV, Seq<char>> {
    match o {
        Opt::Model => Ok(ArgsV { model: Some(v), ..a }),
        Opt::Out => Ok(ArgsV { out: Some(v), ..a }),
        Opt::Filelist => Ok(ArgsV { filelist: Some(v), ..a }),
        Opt::Top => Ok(ArgsV { top: Some(v), ..a }),
        Opt::IncDir => Ok(ArgsV { incdirs: a.incdirs.push(v), ..a }),
        Opt::ModelOut => Ok(ArgsV { model_out: Some(v), ..a }),
        Opt::Bases => if words(v).len() == 0 {
            Err("--bases needs at least one basis"@)
        } else {
            Ok(ArgsV { bases: Some(words(v)), ..a })
        },
        _ => Ok(a),
    }
}

/// The value of an argument: the one at `i`, which must not look like a flag.
pub open spec fn value_at(args: Seq<Seq<char>>, i: int, name: Seq<char>) -> Result<
    Seq<char>,
    Seq<char>,
> {
    if i >= args.len() {
        Err(name + " needs a value"@)
    } else if begins_with(args[i], "-"@) {
        Err(name + " expects a value, got flag '"@ + args[i] + "'"@)
    } else {
        Ok(args[i])
    }
}

/// What the arguments from `i` say, or what is wrong with them.
pub open spec fn scanned(args: Seq<Seq<char>>, i: int, a: ArgsV) -> Result<ArgsV, Seq<char>>
    decreases args.len() - i,
{
    if i < 0 || i >= args.len() {
        Ok(a)
    } else {
        match opt_in(args[i]) {
            None => Err("unknown argument '"@ + args[i] + "'"@),
            Some(Opt::Help) => Err("help requested"@),
            Some(o) => match opt_text(o) {
                None => scanned(args, i + 1, switched(a, o)),
                Some(name) => match value_at(args, i + 1, name) {
                    Ok(v) => match valued(a, o, v) {
                        Ok(b) => scanned(args, i + 2, b),
                        Err(e) => Err(e),
                    },
                    Err(e) => Err(e),
                },
            },
        }
    }
}

/// What is wrong with the arguments taken together: a design list needs a top module and
/// stands in place of a model, and what goes with it needs it.
pub open spec fn misfit(a: ArgsV) -> Option<Seq<char>> {
    if a.filelist is Some && a.model is Some {
        Some(
            "--filelist and --model are mutually exclusive (--filelist elaborates one for you)"@,
        )
    } else if a.filelist is Some && a.top is None {
        Some("--filelist requires --top <name>"@)
    } else if a.filelist is None && a.top is Some {
        Some("--top requires --filelist <design.f>"@)
    } else if a.filelist is None && a.incdirs.len() > 0 {
        Some("--include requires --filelist <design.f>"@)
    } else if a.filelist is None && a.model_out is Some {
        Some("--model-out requires --filelist <design.f>"@)
    } else if a.filelist is Some && a.bases is Some && !a.bases->0.contains("real"@) {
        Some("--filelist elaborates the `real` basis, but --bases does not include it"@)
    } else {
        None
    }
}

/// What a command line says, or what is wrong with it.
pub open spec fn parsed(args: Seq<Seq<char>>) -> Result<ArgsV, Seq<char>> {
    match scanned(args, 0, no_args()) {
        Ok(a) => match misfit(a) {
            Some(e) => Err(e),
            None => Ok(a),
        },
        Err(e) => Err(e),
    }
}

fn opt_of(arg: &str) -> (r: Option<Opt>)
    ensures
        r == opt_in(arg@),
{
    if same(arg, "--full") {
        Some(Opt::Full)
    } else if same(arg, "--skip-criterion") {
        Some(Opt::SkipCriterion)
    } else if same(arg, "--skip-report") {
        Some(Opt::SkipReport)
    } else if same(arg, "--online") {
        Some(Opt::Online)
    } else if same(arg, "--model") {
        Some(Opt::Model)
    } else if same(arg, "--out") {
        Some(Opt::Out)
    } else if same(arg, "--filelist") || same(arg, "-f") {
        Some(Opt::Filelist)
    } else if same(arg, "--top") {
        Some(Opt::Top)
    } else if same(arg, "--include") || same(arg, "-I") {
        Some(Opt::IncDir)
    } else if same(arg, "--model-out") {
        Some(Opt::ModelOut)
    } else if same(arg, "--bases") {
        Some(Opt::Bases)
    } else if same(arg, "-h") || same(arg, "--help") {
        Some(Opt::Help)
    } else {
        None
    }
}

fn opt_name(o: Opt) -> (r: Option<&'static str>)
    ensures
        match r {
            Some(s) => opt_text(o) == Some(s@),
            None => opt_text(o) is None,
        },
{
    match o {
        Opt::Model => Some("--model"),
        Opt::Out => Some("--out"),
        Opt::Filelist => Some("--filelist"),
        Opt::Top => Some("--top"),
        Opt::IncDir => Some("--include"),
        Opt::ModelOut => Some("--model-out"),
        Opt::Bases => Some("--bases"),
        _ => None,
    }
}

fn value_of(args: &[String], i: usize, name: &str) -> (r: Result<String, String>)
    ensures
        match r {
            Ok(v) => value_at(all_chars(args@), i as int, name@) == Ok::<_, Seq<char>>(v@),
            Err(e) => value_at(all_chars(args@), i as int, name@) == Err::<Seq<char>, _>(e@),
        },
{
    if i >= args.len() {
        return Err(Phrase::new(name).add(" needs a value").done());
    }
    let v: &String = &args[i];
    assert(all_chars(args@)[i as int] == v@);
    if starts_with(v.as_str(), "-") {
        return Err(
            Phrase::new(name).add(" expects a value, got flag '").add(v.as_str()).add("'").done(),
        );
    }
    Ok(v.clone())
}

fn switch(a: Args, o: Opt) -> (r: Args)
    ensures
        r@ == switched(a@, o),
{
    let mut a: Args = a;
    match o {
        Opt::Full => {
            a.full = true;
        },
        Opt::SkipCriterion => {
            a.skip_criterion = true;
        },
        Opt::SkipReport => {
            a.skip_report = true;
        },
        Opt::Online => {
            a.online = true;
        },
        _ => {},
    }
    a
}

fn take_value(a: Args, o: Opt, v: String) -> (r: Result<Args, String>)
    ensures
        match r {
            Ok(b) => valued(a@, o, v@) == Ok::<_, Seq<char>>(b@),
            Err(e) => valued(a@, o, v@) == Err::<ArgsV, _>(e@),
        },
{
    let mut a: Args = a;
    let ghost before = all_chars(a.incdirs@);
    match o {
        Opt::Model => {
            a.model = Some(v);
        },
        Opt::Out => {
            a.out = Some(v);
        },
        Opt::Filelist => {
            a.filelist = Some(v);
        },
        Opt::Top => {
            a.top = Some(v);
        },
        Opt::IncDir => {
            a.incdirs.push(v);
            assert(all_chars(a.incdirs@) =~= before.push(v@));
        },
        Opt::ModelOut => {
            a.model_out = Some(v);
        },
        Opt::Bases => {
            let list: Vec<String> = split_words(v.as_str());
            assert(list@.len() == all_chars(list@).len());
            if list.len() == 0 {
                return Err(owned("--bases needs at least one basis"));
            }
            a.bases = Some(list);
        },
        _ => {},
    }
    Ok(a)
}

/// What is wrong with the arguments taken together.
pub fn check_designlist(a: &Args) -> (r: Result<(), String>)
    ensures
        match r {
            Ok(_) => misfit(a@) is None,
            Err(e) => misfit(a@) == Some(e@),
        },
{
    if a.filelist.is_some() && a.model.is_some() {
        return Err(
            owned(
                "--filelist and --model are mutually exclusive (--filelist elaborates one for you)",
            ),
        );
    }
    if a.filelist.is_some() && a.top.is_none() {
        return Err(owned("--filelist requires --top <name>"));
    }
    if a.filelist.is_none() && a.top.is_some() {
        return Err(owned("--top requires --filelist <design.f>"));
    }
    if a.filelist.is_none() {
        if a.incdirs.len() > 0 {
            return Err(owned("--include requires --filelist <design.f>"));
        }
        if a.model_out.is_some() {
            return Err(owned("--model-out requires --filelist <design.f>"));
        }
    } else {
        match &a.bases {
            Some(b) => {
                if !holds_text(b.as_slice(), "real") {
                    return Err(
                        owned(
                            "--filelist elaborates the `real` basis, but --bases does not include it",
                        ),
                    );
                }
            },
            None => {},
        }
    }
    Ok(())
}

/// What a command line without the program's name says.
pub fn parse_args(args: &[String]) -> (r: Result<Args, String>)
    ensures
        match r {
            Ok(a) => parsed(all_chars(args@)) == Ok::<_, Seq<char>>(a@),
            Err(e) => parsed(all_chars(args@)) == Err::<ArgsV, _>(e@),
        },
{
    let ghost all = all_chars(args@);
    let mut a: Args = Args {
        full: false,
        model: None,
        bases: None,
        skip_criterion: false,
        skip_report: false,
        online: false,
        out: None,
        filelist: None,
        top: None,
        incdirs: Vec::new(),
        model_out: None,
    };
    assert(a@ =~= no_args());
    let mut i: usize = 0;
    while i < args.len()
        invariant
            i <= args@.len(),
            all == all_chars(args@),
            scanned(all, 0, no_args()) == scanned(all, i as int, a@),
        decreases args@.len() - i,
    {
        let arg: &str = args[i].as_str();
        assert(all[i as int] == arg@);
        match opt_of(arg) {
            None => {
                return Err(Phrase::new("unknown argument '").add(arg).add("'").done());
            },
            Some(Opt::Help) => {
                return Err(owned("help requested"));
            },
            Some(o) => match opt_name(o) {
                None => {
                    a = switch(a, o);
                    i += 1;
                },
                Some(name) => match value_of(args, i + 1, name) {
                    Ok(v) => match take_value(a, o, v) {
                        Ok(b) => {
                            a = b;
                            i += 2;
                        },
                        Err(e) => {
                            return Err(e);
                        },
                    },
                    Err(e) => {
                        return Err(e);
                    },
                },
            },
        }
    }
    match check_designlist(&a) {
        Ok(_) => Ok(a),
        Err(e) => Err(e),
    }
}

// --- What follows -------------------------------------------------------------

/// The bases to run: those that are named, or else those that the program has.
pub open spec fn chosen(a: ArgsV, golden: bool, synth: bool) -> Seq<Seq<char>> {
    match a.bases {
        Some(b) => b,
        None => bases_of(golden, synth, a.full, a.model is Some || a.filelist is Some),
    }
}

/// The bases to run, of which there must be one. `golden` and `synth` say whether the
/// program carries the golden design and the generator.
pub fn chosen_bases(a: &Args, golden: bool, synth: bool) -> (r: Result<Vec<String>, String>)
    ensures
        match r {
            Ok(b) => all_chars(b@) == chosen(a@, golden, synth) && b@.len() > 0,
            Err(e) => chosen(a@, golden, synth).len() == 0 && e@
                == "no bases to run — this build has neither the `golden` nor the `synth` feature, and no --model was given"@,
        },
{
    let bases: Vec<String> = match &a.bases {
        Some(b) => clone_texts(b.as_slice()),
        None => bases_for(golden, synth, a.full, a.model.is_some() || a.filelist.is_some()),
    };
    assert(bases@.len() == all_chars(bases@).len());
    if bases.len() == 0 {
        return Err(
            owned(
                "no bases to run — this build has neither the `golden` nor the `synth` feature, and no --model was given",
            ),
        );
    }
    Ok(bases)
}

/// The design that is run as a basis of its own: the one that was elaborated, or else the
/// one that is named.
pub fn model_to_run(a: &Args, elaborated: Option<String>) -> (r: Option<String>)
    ensures
        r == match elaborated {
            Some(m) => Some(m),
            None => a.model,
        },
{
    match elaborated {
        Some(m) => Some(m),
        None => clone_opt(&a.model),
    }
}

/// Where the metrics file goes: where it is told, or else below the build directory.
pub fn out_path(a: &Args, target_dir: &str, stamp: &str) -> (r: String)
    ensures
        r@ == match a.out {
            Some(p) => p@,
            None => under_dir(
                under_dir(target_dir@, "scale-bench"@),
                "metrics-"@ + stamp@ + ".md"@,
            ),
        },
{
    match &a.out {
        Some(p) => p.clone(),
        None => {
            let dir: String = join_path(target_dir, "scale-bench");
            let name: String = Phrase::new("metrics-").add(stamp).add(".md").done();
            join_path(dir.as_str(), name.as_str())
        },
    }
}

/// The sections before the extra layers run: each that is skipped says so.
pub fn skip_notes(a: &Args) -> (r: Notes)
    ensures
        r.criterion_note@ == (if a.skip_criterion {
            "skipped (--skip-criterion)"@
        } else {
            Seq::empty()
        }),
        r.criterion_rows@.len() == 0,
        !r.criterion_ran,
        opt_chars(r.report_note) == (if a.skip_report {
            Some("skipped (--skip-report)"@)
        } else {
            None
        }),
        r.report_table@.len() == 0,
        r.elaborated is None,
{
    Notes {
        criterion_note: if a.skip_criterion {
            owned("skipped (--skip-criterion)")
        } else {
            String::new()
        },
        criterion_rows: Vec::new(),
        criterion_ran: false,
        report_note: if a.skip_report {
            Some(owned("skipped (--skip-report)"))
        } else {
            None
        },
        report_table: Vec::new(),
        elaborated: None,
    }
}

/// The arguments of the statistical layer's process.
pub open spec fn bench_args(online: bool) -> Seq<Seq<char>> {
    let head = seq![
        "bench"@,
        "-p"@,
        "scale-bench"@,
        "--benches"@,
        "--no-default-features"@,
        "--features"@,
        "synth,golden"@,
    ];
    let head = if online {
        head
    } else {
        head.push("--offline"@)
    };
    head + seq![
        "--"@,
        "--warm-up-time"@,
        "1"@,
        "--measurement-time"@,
        "3"@,
        "--sample-size"@,
        "20"@,
    ]
}

/// The arguments of the statistical layer's process.
pub fn bench_argv(online: bool) -> (r: Vec<String>)
    ensures
        all_chars(r@) == bench_args(online),
{
    let mut out: Vec<String> = Vec::new();
    push_text(&mut out, "bench");
    push_text(&mut out, "-p");
    push_text(&mut out, "scale-bench");
    push_text(&mut out, "--benches");
    push_text(&mut out, "--no-default-features");
    push_text(&mut out, "--features");
    push_text(&mut out, "synth,golden");
    if !online {
        push_text(&mut out, "--offline");
    }
    push_text(&mut out, "--");
    push_text(&mut out, "--warm-up-time");
    push_text(&mut out, "1");
    push_text(&mut out, "--measurement-time");
    push_text(&mut out, "3");
    push_text(&mut out, "--sample-size");
    push_text(&mut out, "20");
    assert(all_chars(out@) =~= bench_args(online));
    out
}

/// What is said of the statistical layer once it has run.
pub fn bench_note(code: i32) -> (r: String)
    ensures
        r@
            == "cargo bench -p scale-bench --benches --no-default-features --features synth,golden -- --warm-up-time 1 --measurement-time 3 --sample-size 20 (exit "@
            + signed(code as int) + ")"@,
{
    Phrase::new(
        "cargo bench -p scale-bench --benches --no-default-features --features synth,golden -- --warm-up-time 1 --measurement-time 3 --sample-size 20 (exit ",
    ).add(signed_text(code).as_str()).add(")").done()
}

/// The lines among the first `n` that belong to a table.
pub open spec fn table_lines(lines: Seq<Seq<char>>, n: nat) -> Seq<Seq<char>>
    decreases n,
{
    if n == 0 {
        Seq::empty()
    } else {
        let r = table_lines(lines, (n - 1) as nat);
        if begins_with(lines[n - 1], "|"@) {
            r.push(lines[n - 1])
        } else {
            r
        }
    }
}

/// What the single-shot report comes to: the lines of its table, and a note where there
/// are none.
pub open spec fn report_of(success: bool, code: Option<int>, stdout: Seq<char>, stderr: Seq<char>) -> (
    Seq<Seq<char>>,
    Option<Seq<char>>,
) {
    if success {
        let t = table_lines(lines_of(stdout), lines_of(stdout).len());
        (
            t,
            if t.len() == 0 {
                Some("report bin produced no table"@)
            } else {
                None
            },
        )
    } else {
        let why = match last_words(stderr) {
            Some(w) => w,
            None => "no output"@,
        };
        let n = match code {
            Some(c) => c,
            None => -1,
        };
        (Seq::empty(), Some("report bin failed (exit "@ + signed(n) + "): "@ + why))
    }
}

/// What the single-shot report comes to: the lines of its table, and a note where there
/// are none. `code` is the exit code of its process, if it had one.
pub fn report_outcome(success: bool, code: Option<i32>, stdout: &str, stderr: &str) -> (r: (
    Vec<String>,
    Option<String>,
))
    ensures
        (all_chars(r.0@), opt_chars(r.1)) == report_of(
            success,
            crate::bench::collect::code_int(code),
            stdout@,
            stderr@,
        ),
{
    let mut table: Vec<String> = Vec::new();
    assert(all_chars(table@) =~= Seq::empty());
    if !success {
        let why: String = match last_nonblank(stderr) {
            Some(w) => w,
            None => owned("no output"),
        };
        let n: i32 = match code {
            Some(c) => c,
            None => -1,
        };
        let note: String = Phrase::new("report bin failed (exit ").add(signed_text(n).as_str()).add(
            "): ",
        ).add(why.as_str()).done();
        return (table, Some(note));
    }
    let lines: Vec<String> = split_lines(stdout);
    let ghost all = all_chars(lines@);
    let mut i: usize = 0;
    while i < lines.len()
        invariant
            i <= lines@.len(),
            all == all_chars(lines@),
            all == lines_of(stdout@),
            all_chars(table@) == table_lines(all, i as nat),
        decreases lines@.len() - i,
    {
        assert(all[i as int] == lines@[i as int]@);
        if starts_with(lines[i].as_str(), "|") {
            push_text(&mut table, lines[i].as_str());
        }
        i += 1;
    }
    assert(table@.len() == all_chars(table@).len());
    if table.len() == 0 {
        (table, Some(owned("report bin produced no table")))
    } else {
        (table, None)
    }
}

/// Whether a file holds an estimate of this run: `fresh` says that it was written since
/// the run started, and older runs leave theirs in other directories.
pub fn is_new_estimate(file_name: &str, dir_name: &str, fresh: bool) -> (r: bool)
    ensures
        r == (file_name@ == "estimates.json"@ && dir_name@ == "new"@ && fresh),
{
    same(file_name, "estimates.json") && same(dir_name, "new") && fresh
}

// --- Laws ---------------------------------------------------------------------

/// A design list that is accepted has a top module, takes the place of a model, and is
/// among the bases that run, so that nothing is elaborated in vain.
pub proof fn law_elaborated_designs_are_run(args: Seq<Seq<char>>, golden: bool, synth: bool)
    ensures
        match parsed(args) {
            Ok(a) => a.filelist is Some ==> a.top is Some && a.model is None && chosen(
                a,
                golden,
                synth,
            ).contains("real"@),
            Err(_) => true,
        },
{
    match parsed(args) {
        Ok(a) => {
            crate::bench::collect::law_largest_basis_is_last(golden, synth, a.full, true);
        },
        Err(_) => {},
    }
}

} // verus!
