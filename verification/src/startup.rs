//! The arguments that the desktop program is started with.

use crate::files::{absolute, join_path, under_dir};
use crate::text::{all_chars, begins_with, opt_chars, owned, same};
use crate::words::{starts_with, Phrase};
use vstd::prelude::*;
use vstd::string::*;

verus! {

broadcast use vstd::string::group_string_axioms;

/// What a design list is loaded with.
#[derive(Debug, Clone, PartialEq, Eq)]
pub struct StartupArgs {
    pub filelist: String,
    pub top: String,
    pub incdirs: Vec<String>,
    pub trace: String,
    pub src_root: String,
}

/// Why there are no arguments to start with.
#[derive(Debug, Clone, PartialEq, Eq)]
pub enum StartupError {
    /// The usage text was asked for.
    Help,
    /// The arguments are wrong, and how.
    Usage(String),
}

/// The usage text.
pub const USAGE: &'static str = "\
hdl-schemview — RTL-level SystemVerilog cross-probe tool

USAGE:
    hdl-schemview [-f <filelist.f> -top <top>] [-I <incdir>]... [-trace <trace>] [-src-root <dir>]

OPTIONS:
    -f <filelist.f>     designlist (.f) to elaborate (required with -top)
    -top <name>         top module name (required with -f)
    -I <incdir>         include directory (repeatable)
    -trace <path>       waveform trace (VCD/FST) to load
    -src-root <dir>     source root for the source view (default: .)
    -h, --help          print this help

With no arguments the app opens the normal load form. Long flags accept either
one dash (-top) or two (--top).";

// --- What arguments mean ------------------------------------------------------

/// Arguments to start with.
#[verifier::ext_equal]
pub struct StartupV {
    pub filelist: Seq<char>,
    pub top: Seq<char>,
    pub incdirs: Seq<Seq<char>>,
    pub trace: Seq<char>,
    pub src_root: Seq<char>,
}

/// A wrong command line.
#[verifier::ext_equal]
pub enum StartupErrorV {
    Help,
    Usage(Seq<char>),
}

impl View for StartupArgs {
    type V = StartupV;

    open spec fn view(&self) -> StartupV {
        StartupV {
            filelist: self.filelist@,
            top: self.top@,
            incdirs: all_chars(self.incdirs@),
            trace: self.trace@,
            src_root: self.src_root@,
        }
    }
}

impl View for StartupError {
    type V = StartupErrorV;

    open spec fn view(&self) -> StartupErrorV {
        match *self {
            StartupError::Help => StartupErrorV::Help,
            StartupError::Usage(s) => StartupErrorV::Usage(s@),
        }
    }
}

/// The flags that take a value.
#[derive(Debug, Clone, Copy, PartialEq, Eq, Structural)]
pub enum Flag {
    Filelist,
    Top,
    Incdir,
    Trace,
    SrcRoot,
}

/// What the flags read so far gave.
#[verifier::ext_equal]
pub struct GivenV {
    pub filelist: Option<Seq<char>>,
    pub top: Option<Seq<char>>,
    pub incdirs: Seq<Seq<char>>,
    pub trace: Option<Seq<char>>,
    pub src_root: Option<Seq<char>>,
}

/// No flags.
pub open spec fn nothing_given() -> GivenV {
    GivenV { filelist: None, top: None, incdirs: Seq::empty(), trace: None, src_root: None }
}

/// The flag that an argument is, long ones with one dash or two.
pub open spec fn flag_in(arg: Seq<char>) -> Option<Flag> {
    if arg == "-f"@ {
        Some(Flag::Filelist)
    } else if arg == "-top"@ || arg == "--top"@ {
        Some(Flag::Top)
    } else if arg == "-I"@ {
        Some(Flag::Incdir)
    } else if arg == "-trace"@ || arg == "--trace"@ {
        Some(Flag::Trace)
    } else if arg == "-src-root"@ || arg == "--src-root"@ {
        Some(Flag::SrcRoot)
    } else {
        None
    }
}

/// How a flag is named in messages.
pub open spec fn flag_text(f: Flag) -> Seq<char> {
    match f {
        Flag::Filelist => "-f"@,
        Flag::Top => "-top"@,
        Flag::Incdir => "-I"@,
        Flag::Trace => "-trace"@,
        Flag::SrcRoot => "-src-root"@,
    }
}

/// The value of a flag: the argument at `i`, which must not look like a flag.
pub open spec fn value_at(args: Seq<Seq<char>>, i: int, f: Flag) -> Result<
    Seq<char>,
    StartupErrorV,
> {
    if i >= args.len() {
        Err(StartupErrorV::Usage("missing value for "@ + flag_text(f)))
    } else if begins_with(args[i], "-"@) {
        Err(
            StartupErrorV::Usage(
                flag_text(f) + " expects a value, got flag '"@ + args[i] + "'"@,
            ),
        )
    } else {
        Ok(args[i])
    }
}

/// What is given with one more flag. A file list may be given once; of the other flags
/// with one value the last one counts.
pub open spec fn with_flag(g: GivenV, f: Flag, v: Seq<char>) -> Result<GivenV, StartupErrorV> {
    match f {
        Flag::Filelist => if g.filelist is Some {
            Err(
                StartupErrorV::Usage(
                    "-f may be given only once (the session takes one filelist)"@,
                ),
            )
        } else {
            Ok(GivenV { filelist: Some(v), ..g })
        },
        Flag::Top => Ok(GivenV { top: Some(v), ..g }),
        Flag::Incdir => Ok(GivenV { incdirs: g.incdirs.push(v), ..g }),
        Flag::Trace => Ok(GivenV { trace: Some(v), ..g }),
        Flag::SrcRoot => Ok(GivenV { src_root: Some(v), ..g }),
    }
}

/// What the arguments from `i` add to what is given.
pub open spec fn scanned(args: Seq<Seq<char>>, i: int, g: GivenV) -> Result<GivenV, StartupErrorV>
    decreases args.len() - i,
{
    if i < 0 || i >= args.len() {
        Ok(g)
    } else if args[i] == "-h"@ || args[i] == "--help"@ {
        Err(StartupErrorV::Help)
    } else {
        match flag_in(args[i]) {
            Some(f) => match value_at(args, i + 1, f) {
                Ok(v) => match with_flag(g, f, v) {
                    Ok(h) => scanned(args, i + 2, h),
                    Err(e) => Err(e),
                },
                Err(e) => Err(e),
            },
            None => Err(StartupErrorV::Usage("unknown argument: "@ + args[i])),
        }
    }
}

/// The arguments to start with, where the file list and the top module are both given.
pub open spec fn completed(g: GivenV) -> Result<StartupV, StartupErrorV> {
    match (g.filelist, g.top) {
        (Some(filelist), Some(top)) => Ok(
            StartupV {
                filelist,
                top,
                incdirs: g.incdirs,
                trace: match g.trace {
                    Some(t) => t,
                    None => Seq::empty(),
                },
                src_root: match g.src_root {
                    Some(t) => t,
                    None => "."@,
                },
            },
        ),
        (Some(_), None) => Err(StartupErrorV::Usage("-f requires -top <name>"@)),
        (None, Some(_)) => Err(StartupErrorV::Usage("-top requires -f <filelist>"@)),
        (None, None) => Err(
            StartupErrorV::Usage("-f <filelist> and -top <name> are required"@),
        ),
    }
}

/// What a command line without the program's name means.
pub open spec fn parsed(args: Seq<Seq<char>>) -> Result<Option<StartupV>, StartupErrorV> {
    if args.len() == 0 {
        Ok(None)
    } else {
        match scanned(args, 0, nothing_given()) {
            Ok(g) => match completed(g) {
                Ok(a) => Ok(Some(a)),
                Err(e) => Err(e),
            },
            Err(e) => Err(e),
        }
    }
}

// --- Reading ------------------------------------------------------------------

struct Given {
    filelist: Option<String>,
    top: Option<String>,
    incdirs: Vec<String>,
    trace: Option<String>,
    src_root: Option<String>,
}

impl View for Given {
    type V = GivenV;

    closed spec fn view(&self) -> GivenV {
        GivenV {
            filelist: opt_chars(self.filelist),
            top: opt_chars(self.top),
            incdirs: all_chars(self.incdirs@),
            trace: opt_chars(self.trace),
            src_root: opt_chars(self.src_root),
        }
    }
}

fn flag_of(arg: &str) -> (r: Option<Flag>)
    ensures
        r == flag_in(arg@),
{
    if same(arg, "-f") {
        Some(Flag::Filelist)
    } else if same(arg, "-top") || same(arg, "--top") {
        Some(Flag::Top)
    } else if same(arg, "-I") {
        Some(Flag::Incdir)
    } else if same(arg, "-trace") || same(arg, "--trace") {
        Some(Flag::Trace)
    } else if same(arg, "-src-root") || same(arg, "--src-root") {
        Some(Flag::SrcRoot)
    } else {
        None
    }
}

fn flag_name(f: Flag) -> (r: &'static str)
    ensures
        r@ == flag_text(f),
{
    match f {
        Flag::Filelist => "-f",
        Flag::Top => "-top",
        Flag::Incdir => "-I",
        Flag::Trace => "-trace",
        Flag::SrcRoot => "-src-root",
    }
}

fn value_of(args: &[String], i: usize, f: Flag) -> (r: Result<String, StartupError>)
    ensures
        match r {
            Ok(v) => value_at(all_chars(args@), i as int, f) == Ok::<_, StartupErrorV>(v@),
            Err(e) => value_at(all_chars(args@), i as int, f) == Err::<Seq<char>, _>(e@),
        },
{
    if i >= args.len() {
        return Err(StartupError::Usage(Phrase::new("missing value for ").add(flag_name(f)).done()));
    }
    let v: &String = &args[i];
    assert(all_chars(args@)[i as int] == v@);
    if starts_with(v.as_str(), "-") {
        let text: String = Phrase::new(flag_name(f)).add(" expects a value, got flag '").add(
            v.as_str(),
        ).add("'").done();
        return Err(StartupError::Usage(text));
    }
    Ok(v.clone())
}

fn take_flag(g: Given, f: Flag, v: String) -> (r: Result<Given, StartupError>)
    ensures
        match r {
            Ok(h) => with_flag(g@, f, v@) == Ok::<_, StartupErrorV>(h@),
            Err(e) => with_flag(g@, f, v@) == Err::<GivenV, _>(e@),
        },
{
    let mut g: Given = g;
    let ghost before = all_chars(g.incdirs@);
    match f {
        Flag::Filelist => {
            if g.filelist.is_some() {
                return Err(
                    StartupError::Usage(
                        owned("-f may be given only once (the session takes one filelist)"),
                    ),
                );
            }
            g.filelist = Some(v);
        },
        Flag::Top => {
            g.top = Some(v);
        },
        Flag::Incdir => {
            g.incdirs.push(v);
            assert(all_chars(g.incdirs@) =~= before.push(v@));
        },
        Flag::Trace => {
            g.trace = Some(v);
        },
        Flag::SrcRoot => {
            g.src_root = Some(v);
        },
    }
    Ok(g)
}

/// What a command line without the program's name means. An empty one starts the program
/// without a design.
pub fn parse(args: &[String]) -> (r: Result<Option<StartupArgs>, StartupError>)
    ensures
        match r {
            Ok(None) => parsed(all_chars(args@)) == Ok::<Option<StartupV>, StartupErrorV>(None),
            Ok(Some(a)) => parsed(all_chars(args@)) == Ok::<_, StartupErrorV>(Some(a@)),
            Err(e) => parsed(all_chars(args@)) == Err::<Option<StartupV>, _>(e@),
        },
{
    let ghost all = all_chars(args@);
    if args.len() == 0 {
        return Ok(None);
    }
    let mut g: Given = Given {
        filelist: None,
        top: None,
        incdirs: Vec::new(),
        trace: None,
        src_root: None,
    };
    assert(g@ =~= nothing_given());
    let mut i: usize = 0;
    while i < args.len()
        invariant
            i <= args@.len(),
            args@.len() > 0,
            all == all_chars(args@),
            scanned(all, 0, nothing_given()) == scanned(all, i as int, g@),
        decreases args@.len() - i,
    {
        let arg: &String = &args[i];
        assert(all[i as int] == arg@);
        if same(arg.as_str(), "-h") || same(arg.as_str(), "--help") {
            return Err(StartupError::Help);
        }
        match flag_of(arg.as_str()) {
            Some(f) => match value_of(args, i + 1, f) {
                Ok(v) => match take_flag(g, f, v) {
                    Ok(h) => {
                        g = h;
                    },
                    Err(e) => {
                        return Err(e);
                    },
                },
                Err(e) => {
                    return Err(e);
                },
            },
            None => {
                return Err(
                    StartupError::Usage(Phrase::new("unknown argument: ").add(arg.as_str()).done()),
                );
            },
        }
        i += 2;
    }
    complete(g)
}

fn complete(g: Given) -> (r: Result<Option<StartupArgs>, StartupError>)
    ensures
        match r {
            Ok(Some(a)) => completed(g@) == Ok::<_, StartupErrorV>(a@),
            Ok(None) => false,
            Err(e) => completed(g@) == Err::<StartupV, _>(e@),
        },
{
    match (g.filelist, g.top) {
        (Some(filelist), Some(top)) => {
            let trace: String = match g.trace {
                Some(t) => t,
                None => String::new(),
            };
            let src_root: String = match g.src_root {
                Some(t) => t,
                None => owned("."),
            };
            Ok(Some(StartupArgs { filelist, top, incdirs: g.incdirs, trace, src_root }))
        },
        (Some(_), None) => Err(StartupError::Usage(owned("-f requires -top <name>"))),
        (None, Some(_)) => Err(StartupError::Usage(owned("-top requires -f <filelist>"))),
        (None, None) => Err(
            StartupError::Usage(owned("-f <filelist> and -top <name> are required")),
        ),
    }
}

// --- Paths --------------------------------------------------------------------

/// The directory that the program was called from: what the environment records, where it
/// records anything, or else the working directory.
pub fn invocation_dir(init_cwd: Option<&str>, current_dir: Option<&str>) -> (r: String)
    ensures
        r@ == match (init_cwd, current_dir) {
            (Some(d), _) if d@.len() > 0 => d@,
            (_, Some(c)) => c@,
            _ => "."@,
        },
{
    match init_cwd {
        Some(d) => {
            if !d.is_empty() {
                return owned(d);
            }
        },
        None => {},
    }
    match current_dir {
        Some(c) => owned(c),
        None => owned("."),
    }
}

/// A path made absolute against a directory; an empty one stays empty.
pub open spec fn resolved(p: Seq<char>, cwd: Seq<char>) -> Seq<char> {
    if p.len() == 0 {
        p
    } else {
        under_dir(cwd, p)
    }
}

/// A path made absolute against a directory; an empty one stays empty.
pub fn resolve_path(p: &str, cwd: &str) -> (r: String)
    ensures
        r@ == resolved(p@, cwd@),
{
    if p.is_empty() {
        owned(p)
    } else {
        join_path(cwd, p)
    }
}

impl StartupV {
    /// The arguments with their paths made absolute.
    pub open spec fn located(self, cwd: Seq<char>) -> StartupV {
        StartupV {
            filelist: resolved(self.filelist, cwd),
            top: self.top,
            incdirs: Seq::new(self.incdirs.len(), |i: int| resolved(self.incdirs[i], cwd)),
            trace: resolved(self.trace, cwd),
            src_root: resolved(self.src_root, cwd),
        }
    }

    /// What is wrong with the files that the arguments name.
    pub open spec fn missing(self, filelist_is_file: bool, trace_is_file: bool) -> Option<
        Seq<char>,
    > {
        if !filelist_is_file {
            Some("filelist not found or not a file: "@ + self.filelist)
        } else if self.trace.len() > 0 && !trace_is_file {
            Some("trace not found or not a file: "@ + self.trace)
        } else {
            None
        }
    }
}

impl StartupArgs {
    /// The arguments with their paths made absolute against a directory.
    pub fn locate(self, cwd: &str) -> (r: StartupArgs)
        ensures
            r@ == self@.located(cwd@),
    {
        let mut incdirs: Vec<String> = Vec::new();
        let mut i: usize = 0;
        while i < self.incdirs.len()
            invariant
                i <= self.incdirs@.len(),
                incdirs@.len() == i,
                forall|k: int|
                    0 <= k < i ==> (#[trigger] incdirs@[k])@ == resolved(
                        self.incdirs@[k]@,
                        cwd@,
                    ),
            decreases self.incdirs@.len() - i,
        {
            incdirs.push(resolve_path(self.incdirs[i].as_str(), cwd));
            i += 1;
        }
        let r: StartupArgs = StartupArgs {
            filelist: resolve_path(self.filelist.as_str(), cwd),
            incdirs,
            trace: resolve_path(self.trace.as_str(), cwd),
            src_root: resolve_path(self.src_root.as_str(), cwd),
            top: self.top,
        };
        assert(r@ =~= self@.located(cwd@));
        r
    }

    /// The arguments with their paths made absolute against a directory, where the file
    /// list, and the trace if there is one, are files. `filelist_is_file` and
    /// `trace_is_file` say so of the paths that [`StartupArgs::locate`] gives.
    pub fn resolve(self, cwd: &str, filelist_is_file: bool, trace_is_file: bool) -> (r: Result<
        StartupArgs,
        String,
    >)
        ensures
            match r {
                Ok(a) => self@.located(cwd@).missing(filelist_is_file, trace_is_file) is None && a@
                    == self@.located(cwd@),
                Err(e) => self@.located(cwd@).missing(filelist_is_file, trace_is_file) == Some(e@),
            },
    {
        let a: StartupArgs = self.locate(cwd);
        if !filelist_is_file {
            return Err(
                Phrase::new("filelist not found or not a file: ").add(a.filelist.as_str()).done(),
            );
        }
        if !a.trace.as_str().is_empty() && !trace_is_file {
            return Err(Phrase::new("trace not found or not a file: ").add(a.trace.as_str()).done());
        }
        Ok(a)
    }
}

// --- Laws ---------------------------------------------------------------------

/// Making paths absolute against an absolute directory leaves nothing relative, and doing
/// it again changes nothing.
pub proof fn law_resolved_paths_are_absolute(p: Seq<char>, cwd: Seq<char>, other: Seq<char>)
    requires
        absolute(cwd),
    ensures
        p.len() > 0 ==> absolute(resolved(p, cwd)),
        resolved(resolved(p, cwd), other) == resolved(p, cwd),
{
    if p.len() > 0 && !absolute(p) {
        assert((cwd + "/"@ + p)[0] == cwd[0]);
        assert((cwd + p)[0] == cwd[0]);
    }
}

proof fn lemma_scan_keeps(args: Seq<Seq<char>>, i: int, g: GivenV)
    requires
        0 <= i,
        g.filelist is Some ==> g.filelist->0.len() == 0 || !begins_with(g.filelist->0, "-"@),
        g.top is Some ==> g.top->0.len() == 0 || !begins_with(g.top->0, "-"@),
    ensures
        match scanned(args, i, g) {
            Ok(h) => (h.filelist is Some ==> h.filelist->0.len() == 0 || !begins_with(
                h.filelist->0,
                "-"@,
            )) && (h.top is Some ==> h.top->0.len() == 0 || !begins_with(h.top->0, "-"@)),
            Err(_) => true,
        },
    decreases args.len() - i,
{
    if i < args.len() && args[i] != "-h"@ && args[i] != "--help"@ {
        match flag_in(args[i]) {
            Some(f) => match value_at(args, i + 1, f) {
                Ok(v) => match with_flag(g, f, v) {
                    Ok(h) => {
                        lemma_scan_keeps(args, i + 2, h);
                    },
                    Err(_) => {},
                },
                Err(_) => {},
            },
            None => {},
        }
    }
}

/// A flag is never taken for the file list or the top module.
pub proof fn law_flags_are_no_values(args: Seq<Seq<char>>)
    ensures
        match parsed(args) {
            Ok(Some(a)) => !begins_with(a.filelist, "-"@) && !begins_with(a.top, "-"@),
            _ => true,
        },
{
    reveal_strlit("-");
    lemma_scan_keeps(args, 0, nothing_given());
}

/// The file list and the top module are accepted together or not at all.
pub proof fn law_filelist_and_top_go_together(args: Seq<Seq<char>>)
    requires
        args.len() > 0,
    ensures
        match scanned(args, 0, nothing_given()) {
            Ok(g) => parsed(args) is Ok <==> g.filelist is Some && g.top is Some,
            Err(_) => parsed(args) is Err,
        },
{
}

} // verus!
