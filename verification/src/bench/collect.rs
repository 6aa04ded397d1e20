//! The scenario matrix: which scenarios run, in which order, and what comes of each.
//!
//! Every scenario runs in a process of its own, so that its peak memory is its own. A
//! scenario that fails is a result too: it becomes a record, and the matrix goes on.

use crate::bench::records::{failed, read_line, signed, signed_text, Record, RecordV};
use crate::text::{
    all_chars, begins_with, decimal, opt_chars, owned, push_text, strip_prefix, without_prefix,
};
use crate::words::{
    lines_of, split_at, split_lines, split_once, starts_with, trim, trimmed, Phrase,
};
use vstd::prelude::*;
use vstd::string::*;

verus! {

broadcast use vstd::string::group_string_axioms;

/// How many signals the matcher is run on, in order.
pub const MATCH_SIGNALS: [usize; 3] = [1_000, 10_000, 100_000];

/// One scenario of the matrix.
#[derive(Debug, Clone, PartialEq, Eq)]
pub struct Step {
    pub mode: &'static str,
    pub signals: Option<usize>,
}

/// One scenario of the matrix.
#[verifier::ext_equal]
pub struct StepV {
    pub mode: Seq<char>,
    pub signals: Option<nat>,
}

impl View for Step {
    type V = StepV;

    open spec fn view(&self) -> StepV {
        StepV {
            mode: self.mode@,
            signals: match self.signals {
                Some(n) => Some(n as nat),
                None => None,
            },
        }
    }
}

/// Several scenarios.
pub open spec fn steps_view(v: Seq<Step>) -> Seq<StepV> {
    Seq::new(v.len(), |i: int| v[i]@)
}

/// A scenario without a signal count.
pub open spec fn plain_step(mode: Seq<char>) -> StepV {
    StepV { mode, signals: None }
}

/// A run of the matcher.
pub open spec fn match_step(n: nat) -> StepV {
    StepV { mode: "match"@, signals: Some(n) }
}

/// The scenarios that load a design.
pub open spec fn load_steps() -> Seq<StepV> {
    seq![
        plain_step("prepare"@),
        plain_step("from_slice"@),
        plain_step("cache_hit"@),
        plain_step("access_checked"@),
        plain_step("access_unchecked"@),
    ]
}

/// The scenarios that read what was prepared: none where it was not.
pub open spec fn later_steps(prepared: bool) -> Seq<StepV> {
    if prepared {
        seq![plain_step("nav"@), match_step(1_000), match_step(10_000), match_step(100_000)]
    } else {
        Seq::empty()
    }
}

/// The scenarios of one basis.
pub open spec fn basis_steps(prepared: bool) -> Seq<StepV> {
    load_steps() + later_steps(prepared)
}

fn mode_step(mode: &'static str) -> (r: Step)
    ensures
        r@ == plain_step(mode@),
{
    Step { mode, signals: None }
}

/// The scenarios of a basis behind those that load: navigation and matching read what was
/// prepared, so there are none where it was not.
pub fn gated_steps(prepared: bool) -> (r: Vec<Step>)
    ensures
        steps_view(r@) == later_steps(prepared),
{
    let mut out: Vec<Step> = Vec::new();
    if prepared {
        out.push(mode_step("nav"));
        out.push(Step { mode: "match", signals: Some(MATCH_SIGNALS[0]) });
        out.push(Step { mode: "match", signals: Some(MATCH_SIGNALS[1]) });
        out.push(Step { mode: "match", signals: Some(MATCH_SIGNALS[2]) });
    }
    assert(steps_view(out@) =~= later_steps(prepared));
    out
}

// --- Bases --------------------------------------------------------------------

/// The bases of a program that carries the golden design, or the generator of synthetic
/// ones. The largest comes last: it may be killed, and then the others are recorded.
pub open spec fn bases_of(golden: bool, synth: bool, full: bool, model: bool) -> Seq<Seq<char>> {
    let b = if golden {
        seq!["golden"@]
    } else {
        Seq::empty()
    };
    let b = if synth {
        b.push("665"@).push("100K"@)
    } else {
        b
    };
    let b = if model {
        b.push("real"@)
    } else {
        b
    };
    if full && synth {
        b.push("1M"@)
    } else {
        b
    }
}

/// The bases of a program that carries the golden design, or the generator of synthetic
/// ones.
pub fn bases_for(golden: bool, synth: bool, full: bool, model: bool) -> (r: Vec<String>)
    ensures
        all_chars(r@) == bases_of(golden, synth, full, model),
{
    let mut out: Vec<String> = Vec::new();
    assert(all_chars(out@) =~= Seq::empty());
    if golden {
        push_text(&mut out, "golden");
        assert(all_chars(out@) =~= seq!["golden"@]);
    }
    if synth {
        push_text(&mut out, "665");
        push_text(&mut out, "100K");
    }
    if model {
        push_text(&mut out, "real");
    }
    if full && synth {
        push_text(&mut out, "1M");
    }
    out
}

/// The bases of a program that carries both the golden design and the generator.
pub fn default_bases(full: bool, model: bool) -> (r: Vec<String>)
    ensures
        all_chars(r@) == bases_of(true, true, full, model),
{
    bases_for(true, true, full, model)
}

/// The bases that a packaged program runs, of which there must be one: those that are
/// named, or else those that the program has.
pub fn packaged_bases(
    named: Option<Vec<String>>,
    golden: bool,
    synth: bool,
    full: bool,
    model: bool,
) -> (r: Result<Vec<String>, String>)
    ensures
        ({
            let wanted = match named {
                Some(b) => all_chars(b@),
                None => bases_of(golden, synth, full, model),
            };
            match r {
                Ok(b) => all_chars(b@) == wanted && b@.len() > 0,
                Err(e) => wanted.len() == 0 && e@
                    == "no bases to run — this build has neither the `golden` nor the `synth` feature, and no -model was given"@,
            }
        }),
{
    let bases: Vec<String> = match named {
        Some(b) => b,
        None => bases_for(golden, synth, full, model),
    };
    assert(bases@.len() == all_chars(bases@).len());
    if bases.len() == 0 {
        return Err(
            owned(
                "no bases to run — this build has neither the `golden` nor the `synth` feature, and no -model was given",
            ),
        );
    }
    Ok(bases)
}

/// The largest basis is run last, and only where everything is asked for.
pub proof fn law_largest_basis_is_last(golden: bool, synth: bool, full: bool, model: bool)
    ensures
        ({
            let b = bases_of(golden, synth, full, model);
            &&& b.contains("1M"@) <==> full && synth
            &&& b.contains("1M"@) ==> b.last() == "1M"@
            &&& b.contains("real"@) <==> model
        }),
{
    reveal_strlit("1M");
    reveal_strlit("real");
    reveal_strlit("100K");
    reveal_strlit("665");
    reveal_strlit("golden");
    let b = bases_of(golden, synth, full, model);
    assert("1M"@[0] != "real"@[0] && "1M"@.len() != "100K"@.len() && "1M"@.len() != "665"@.len()
        && "1M"@.len() != "golden"@.len());
    assert("real"@.len() != "golden"@.len() && "real"@.len() != "665"@.len() && "real"@[0]
        != "100K"@[0]);
    if full && synth {
        assert(b[b.len() - 1] == "1M"@);
    }
    if model {
        let k = if full && synth {
            b.len() - 2
        } else {
            b.len() - 1
        };
        assert(b[k] == "real"@);
    }
}

// --- The matrix ---------------------------------------------------------------

/// How to run one scenario as a process of its own.
#[derive(Debug, Clone)]
pub struct ScenarioRunner {
    pub exe: String,
    pub prefix_args: Vec<String>,
}

impl ScenarioRunner {
    pub fn new(exe: &str, prefix_args: Vec<String>) -> (r: Self)
        ensures
            r.exe@ == exe@,
            r.prefix_args == prefix_args,
    {
        ScenarioRunner { exe: owned(exe), prefix_args }
    }
}

/// What a run of the matrix is told.
pub struct CollectOptions<'a> {
    pub runner: &'a ScenarioRunner,
    /// Bases in the order in which they run.
    pub bases: Vec<String>,
    /// An elaborated design, run as a basis of its own.
    pub model: Option<String>,
}

/// What a run of the matrix gave.
#[derive(Debug)]
pub struct CollectResult {
    pub records: Vec<Record>,
}

/// How far a run of the matrix is: which basis, which scenario of it, and whether the
/// basis was prepared.
#[derive(Debug, Clone, Copy, PartialEq, Eq, Structural)]
pub struct Matrix {
    pub basis: usize,
    pub step: usize,
    pub prepared: bool,
}

impl Matrix {
    /// The start.
    pub open spec fn first() -> Matrix {
        Matrix { basis: 0, step: 0, prepared: false }
    }

    /// Whether this is a place in a run over `count` bases.
    pub open spec fn wf(self, count: nat) -> bool {
        &&& self.basis <= count
        &&& self.step < basis_steps(self.prepared).len()
        &&& self.prepared ==> self.step > 0
        &&& self.basis == count ==> self.step == 0
    }

    /// The basis and the scenario that run next.
    pub open spec fn upcoming(self, bases: Seq<Seq<char>>) -> Option<(Seq<char>, StepV)> {
        if self.basis < bases.len() {
            Some((bases[self.basis as int], basis_steps(self.prepared)[self.step as int]))
        } else {
            None
        }
    }

    /// The place behind a scenario that succeeded or failed.
    pub open spec fn passed(self, ok: bool) -> Matrix {
        let prepared = self.prepared || (self.step == 0 && ok);
        if self.step + 1 < basis_steps(prepared).len() {
            Matrix { basis: self.basis, step: (self.step + 1) as usize, prepared }
        } else {
            Matrix { basis: (self.basis + 1) as usize, step: 0, prepared: false }
        }
    }

    /// The place behind the first `n` of several scenarios.
    pub open spec fn passed_all(self, oks: Seq<bool>, n: nat) -> Matrix
        decreases n,
    {
        if n == 0 {
            self
        } else {
            self.passed_all(oks, (n - 1) as nat).passed(oks[n - 1])
        }
    }

    /// The start of a run.
    pub fn start() -> (r: Matrix)
        ensures
            r == Matrix::first(),
            forall|count: nat| #[trigger] r.wf(count),
    {
        Matrix { basis: 0, step: 0, prepared: false }
    }

    /// The basis and the scenario that run next.
    pub fn next_step(&self, bases: &[String]) -> (r: Option<(String, Step)>)
        requires
            self.wf(bases@.len()),
        ensures
            match r {
                Some((b, s)) => self.upcoming(all_chars(bases@)) == Some((b@, s@)),
                None => self.upcoming(all_chars(bases@)) is None,
            },
    {
        if self.basis >= bases.len() {
            return None;
        }
        let step: Step = if self.step == 0 {
            mode_step("prepare")
        } else if self.step == 1 {
            mode_step("from_slice")
        } else if self.step == 2 {
            mode_step("cache_hit")
        } else if self.step == 3 {
            mode_step("access_checked")
        } else if self.step == 4 {
            mode_step("access_unchecked")
        } else if self.step == 5 {
            mode_step("nav")
        } else {
            Step { mode: "match", signals: Some(MATCH_SIGNALS[self.step - 6]) }
        };
        assert(step@ =~= basis_steps(self.prepared)[self.step as int]);
        Some((bases[self.basis].clone(), step))
    }

    /// The place behind a scenario that succeeded or failed.
    pub fn advance(&self, bases: &[String], ok: bool) -> (r: Matrix)
        requires
            self.wf(bases@.len()),
            self.basis < bases@.len(),
        ensures
            r == self.passed(ok),
            r.wf(bases@.len()),
    {
        let prepared: bool = self.prepared || (self.step == 0 && ok);
        assert(self.basis < bases.len());
        let end: usize = if prepared {
            9
        } else {
            5
        };
        if self.step + 1 < end {
            Matrix { basis: self.basis, step: self.step + 1, prepared }
        } else {
            Matrix { basis: self.basis + 1, step: 0, prepared: false }
        }
    }

    /// Whether the rest of a basis is left out behind a scenario, because it was not
    /// prepared.
    pub fn skips(&self, ok: bool) -> (r: bool)
        requires
            self.step < basis_steps(self.prepared).len(),
            self.prepared ==> self.step > 0,
        ensures
            r == (self.step + 1 == load_steps().len() && !self.passed(ok).prepared
                && !self.prepared),
    {
        self.step == 4 && !self.prepared
    }
}

/// One basis takes five scenarios where it could not be prepared, and nine where it could.
/// They run in order, whatever the others come to, and the next basis follows.
pub proof fn law_every_basis_runs_its_scenarios(bases: Seq<Seq<char>>, b: int, oks: Seq<bool>)
    requires
        0 <= b < bases.len(),
        bases.len() < usize::MAX,
        oks.len() == (if oks[0] {
            9int
        } else {
            5int
        }),
    ensures
        ({
            let m = Matrix { basis: b as usize, step: 0, prepared: false };
            &&& forall|k: int|
                0 <= k < oks.len() ==> (#[trigger] m.passed_all(oks, k as nat)).upcoming(bases)
                    == Some((bases[b], basis_steps(oks[0])[k]))
            &&& m.passed_all(oks, oks.len()) == (Matrix {
                basis: (b + 1) as usize,
                step: 0,
                prepared: false,
            })
        }),
{
    let m = Matrix { basis: b as usize, step: 0, prepared: false };
    assert forall|k: int| 0 <= k < oks.len() implies (#[trigger] m.passed_all(
        oks,
        k as nat,
    )).upcoming(bases) == Some((bases[b], basis_steps(oks[0])[k])) by {
        lemma_within_basis(b, oks, k as nat);
    }
    lemma_within_basis(b, oks, (oks.len() - 1) as nat);
}

proof fn lemma_within_basis(b: int, oks: Seq<bool>, k: nat)
    requires
        0 <= b < usize::MAX,
        oks.len() == (if oks[0] {
            9int
        } else {
            5int
        }),
        k < oks.len(),
    ensures
        (Matrix { basis: b as usize, step: 0, prepared: false }).passed_all(oks, k) == (Matrix {
            basis: b as usize,
            step: k as usize,
            prepared: k > 0 && oks[0],
        }),
    decreases k,
{
    if k > 0 {
        lemma_within_basis(b, oks, (k - 1) as nat);
    }
}

// --- One scenario -------------------------------------------------------------

/// What a scenario is called in messages.
pub open spec fn label_of(basis: Seq<char>, s: StepV) -> Seq<char> {
    match s.signals {
        Some(n) => basis + "/"@ + s.mode + " --signals "@ + decimal(n),
        None => basis + "/"@ + s.mode,
    }
}

/// What a scenario is called in messages.
pub fn step_label(basis: &str, step: &Step) -> (r: String)
    ensures
        r@ == label_of(basis@, step@),
{
    let p: Phrase = Phrase::new(basis).add("/").add(step.mode);
    match step.signals {
        Some(n) => p.add(" --signals ").num(n as u64).done(),
        None => p.done(),
    }
}

/// The arguments of a scenario's process.
pub open spec fn argv_of(prefix: Seq<Seq<char>>, basis: Seq<char>, s: StepV) -> Seq<Seq<char>> {
    let a = prefix.push("--basis"@).push(basis).push("--mode"@).push(s.mode);
    match s.signals {
        Some(n) => a.push("--signals"@).push(decimal(n)),
        None => a,
    }
}

/// The arguments of a scenario's process.
pub fn scenario_argv(runner: &ScenarioRunner, basis: &str, step: &Step) -> (r: Vec<String>)
    ensures
        all_chars(r@) == argv_of(all_chars(runner.prefix_args@), basis@, step@),
{
    let mut out: Vec<String> = crate::text::clone_texts(runner.prefix_args.as_slice());
    push_text(&mut out, "--basis");
    push_text(&mut out, basis);
    push_text(&mut out, "--mode");
    push_text(&mut out, step.mode);
    match step.signals {
        Some(n) => {
            push_text(&mut out, "--signals");
            push_text(&mut out, crate::text::decimal_of(n as u64).as_str());
        },
        None => {},
    }
    out
}

/// The last of the first `n` lines that is not blank, without white space around it.
pub open spec fn nonblank_before(lines: Seq<Seq<char>>, n: int) -> Option<Seq<char>>
    decreases n,
{
    if n <= 0 || n > lines.len() {
        None
    } else if trimmed(lines[n - 1]).len() > 0 {
        Some(trimmed(lines[n - 1]))
    } else {
        nonblank_before(lines, n - 1)
    }
}

/// The last line of a text that is not blank, without white space around it.
pub open spec fn last_words(text: Seq<char>) -> Option<Seq<char>> {
    nonblank_before(lines_of(text), lines_of(text).len() as int)
}

/// The last line of a text that is not blank, without white space around it.
pub fn last_nonblank(text: &str) -> (r: Option<String>)
    ensures
        opt_chars(r) == last_words(text@),
{
    let lines: Vec<String> = split_lines(text);
    let ghost all = all_chars(lines@);
    let mut n: usize = lines.len();
    while n > 0
        invariant
            n <= lines@.len(),
            all == all_chars(lines@),
            all == lines_of(text@),
            nonblank_before(all, all.len() as int) == nonblank_before(all, n as int),
        decreases n,
    {
        assert(all[n - 1] == lines@[n - 1]@);
        let t: &str = trim(lines[n - 1].as_str());
        if !t.is_empty() {
            return Some(owned(t));
        }
        n -= 1;
    }
    None
}

/// The first line from `from` that starts an object, without white space around it.
pub open spec fn object_line(lines: Seq<Seq<char>>, from: int) -> Option<Seq<char>>
    decreases lines.len() - from,
{
    if from < 0 || from >= lines.len() {
        None
    } else if begins_with(trimmed(lines[from]), "{"@) {
        Some(trimmed(lines[from]))
    } else {
        object_line(lines, from + 1)
    }
}

/// Why a scenario failed: its own last words, or what its end says.
pub open spec fn complaint(code: Option<int>, stderr: Seq<char>) -> Seq<char> {
    match last_words(stderr) {
        Some(w) => if code is Some {
            w
        } else {
            w + " (killed by a signal)"@
        },
        None => match code {
            Some(c) => "no output (exit "@ + signed(c) + ") - likely killed by the OS"@,
            None => "no output (killed by a signal) - likely killed by the OS"@,
        },
    }
}

/// What a scenario's process comes to: its own record where it succeeded and wrote one,
/// and a failure otherwise.
pub open spec fn outcome_of(
    basis: Seq<char>,
    mode: Seq<char>,
    success: bool,
    code: Option<int>,
    stdout: Seq<char>,
    stderr: Seq<char>,
    wall_ms: Option<Seq<char>>,
) -> RecordV {
    let own = match object_line(lines_of(stdout), 0) {
        Some(line) => read_line(line),
        None => None,
    };
    if success && own is Some {
        own->0
    } else {
        failed(
            basis,
            mode,
            match code {
                Some(c) => c,
                None => -1,
            },
            complaint(code, stderr),
            wall_ms,
        )
    }
}

fn object_in(text: &str) -> (r: Option<String>)
    ensures
        opt_chars(r) == object_line(lines_of(text@), 0),
{
    let lines: Vec<String> = split_lines(text);
    let ghost all = all_chars(lines@);
    let mut i: usize = 0;
    while i < lines.len()
        invariant
            i <= lines@.len(),
            all == all_chars(lines@),
            all == lines_of(text@),
            object_line(all, 0) == object_line(all, i as int),
        decreases lines@.len() - i,
    {
        assert(all[i as int] == lines@[i as int]@);
        let t: &str = trim(lines[i].as_str());
        if starts_with(t, "{") {
            return Some(owned(t));
        }
        i += 1;
    }
    None
}

pub open spec fn code_int(code: Option<i32>) -> Option<int> {
    match code {
        Some(c) => Some(c as int),
        None => None,
    }
}

fn why_failed(code: Option<i32>, stderr: &str) -> (r: String)
    ensures
        r@ == complaint(code_int(code), stderr@),
{
    match last_nonblank(stderr) {
        Some(w) => if code.is_some() {
            w
        } else {
            Phrase::new(w.as_str()).add(" (killed by a signal)").done()
        },
        None => match code {
            Some(c) => Phrase::new("no output (exit ").add(signed_text(c).as_str()).add(
                ") - likely killed by the OS",
            ).done(),
            None => owned("no output (killed by a signal) - likely killed by the OS"),
        },
    }
}

/// What a scenario's process comes to. `code` is its exit code, if it had one; the wall
/// time is a number as JSON writes it.
pub fn outcome(
    basis: &str,
    step: &Step,
    success: bool,
    code: Option<i32>,
    stdout: &str,
    stderr: &str,
    wall_ms: Option<String>,
) -> (r: Record)
    ensures
        r@ == outcome_of(
            basis@,
            step@.mode,
            success,
            code_int(code),
            stdout@,
            stderr@,
            opt_chars(wall_ms),
        ),
{
    if success {
        match object_in(stdout) {
            Some(line) => match Record::parse(line.as_str()) {
                Some(rec) => {
                    return rec;
                },
                None => {},
            },
            None => {},
        }
    }
    let why: String = why_failed(code, stderr);
    let exit: i32 = match code {
        Some(c) => c,
        None => -1,
    };
    Record::failure(basis, step.mode, exit, why.as_str(), wall_ms)
}

/// What a scenario that could not be started comes to.
pub fn spawn_failure(basis: &str, step: &Step, error: &str, wall_ms: Option<String>) -> (r: Record)
    ensures
        r@ == failed(
            basis@,
            step@.mode,
            -1,
            "could not spawn the scenario: "@ + error@,
            opt_chars(wall_ms),
        ),
{
    let why: String = Phrase::new("could not spawn the scenario: ").add(error).done();
    Record::failure(basis, step.mode, -1, why.as_str(), wall_ms)
}

proof fn lemma_failed_fields(
    basis: Seq<char>,
    mode: Seq<char>,
    code: int,
    error: Seq<char>,
    wall: Option<Seq<char>>,
)
    ensures
        ({
            let r = failed(basis, mode, code, error, wall);
            &&& r.text("basis"@) == basis
            &&& r.text("mode"@) == mode
            &&& r.text("error"@) == error
            &&& !r.ok()
        }),
{
    reveal_strlit("basis");
    reveal_strlit("mode");
    reveal_strlit("ok");
    reveal_strlit("exit_code");
    reveal_strlit("error");
    reveal_strlit("wall_ms");
    reveal_with_fuel(crate::bench::records::field_index, 7);
    assert("basis"@.len() == 5 && "mode"@.len() == 4 && "ok"@.len() == 2 && "exit_code"@.len() == 9
        && "error"@.len() == 5 && "wall_ms"@.len() == 7);
    assert("basis"@[0] == 'b' && "error"@[0] == 'e');
}

/// A scenario that did not succeed is recorded as failed, under its own basis and mode,
/// with a reason.
pub proof fn law_failures_are_recorded(
    basis: Seq<char>,
    mode: Seq<char>,
    code: Option<int>,
    stdout: Seq<char>,
    stderr: Seq<char>,
    wall: Option<Seq<char>>,
)
    ensures
        ({
            let r = outcome_of(basis, mode, false, code, stdout, stderr, wall);
            &&& !r.ok()
            &&& r.text("basis"@) == basis
            &&& r.text("mode"@) == mode
            &&& r.text("error"@) == complaint(code, stderr)
            &&& r.text("error"@).len() > 0
        }),
{
    let n = match code {
        Some(c) => c,
        None => -1,
    };
    lemma_failed_fields(basis, mode, n, complaint(code, stderr), wall);
    reveal_strlit("no output (exit ");
    reveal_strlit("no output (killed by a signal) - likely killed by the OS");
    lemma_nonblank(lines_of(stderr), lines_of(stderr).len() as int);
}

proof fn lemma_nonblank(lines: Seq<Seq<char>>, n: int)
    ensures
        nonblank_before(lines, n) is Some ==> nonblank_before(lines, n)->0.len() > 0,
    decreases n,
{
    if 0 < n <= lines.len() {
        lemma_nonblank(lines, n - 1);
    }
}

// --- Facts on the machine -----------------------------------------------------

/// What a program was built from.
pub fn build_provenance(version: &str, rev: Option<&str>) -> (r: String)
    ensures
        r@ == match rev {
            Some(v) if v@.len() > 0 => version@ + " @ "@ + v@,
            _ => version@ + " (no SVX_BUILD_REV at build time)"@,
        },
{
    match rev {
        Some(v) => {
            if !v.is_empty() {
                return Phrase::new(version).add(" @ ").add(v).done();
            }
        },
        None => {},
    }
    Phrase::new(version).add(" (no SVX_BUILD_REV at build time)").done()
}

/// What a command said, if it succeeded and said anything.
pub open spec fn probed_text(success: bool, stdout: Seq<char>) -> Option<Seq<char>> {
    if success && trimmed(stdout).len() > 0 {
        Some(trimmed(stdout))
    } else {
        None
    }
}

/// What a command said, if it succeeded and said anything.
pub fn probed(success: bool, stdout: &str) -> (r: Option<String>)
    ensures
        opt_chars(r) == probed_text(success, stdout@),
{
    if !success {
        return None;
    }
    let t: &str = trim(stdout);
    if t.is_empty() {
        None
    } else {
        Some(owned(t))
    }
}

/// Which revision is checked out, and whether files differ from it.
pub open spec fn revision(
    branch: Option<Seq<char>>,
    sha: Option<Seq<char>>,
    status: Option<Seq<char>>,
) -> Seq<char> {
    match (branch, sha) {
        (Some(b), Some(s)) => {
            let dirty = match status {
                Some(t) if t.len() > 0 => "DIRTY ("@ + decimal(lines_of(t).len())
                    + " changed files)"@,
                _ => "clean"@,
            };
            b + " @ "@ + s + " ("@ + dirty + ")"@
        },
        _ => "not found"@,
    }
}

pub open spec fn opt_str(o: Option<&str>) -> Option<Seq<char>> {
    match o {
        Some(s) => Some(s@),
        None => None,
    }
}

/// Which revision is checked out, and whether files differ from it. The arguments are
/// what the commands that tell the branch, the revision and the changed files said.
pub fn git_revision(branch: Option<&str>, sha: Option<&str>, status: Option<&str>) -> (r: String)
    ensures
        r@ == revision(opt_str(branch), opt_str(sha), opt_str(status)),
{
    match (branch, sha) {
        (Some(b), Some(s)) => {
            let dirty: String = match status {
                Some(t) => if !t.is_empty() {
                    let lines: Vec<String> = split_lines(t);
                    assert(lines@.len() == all_chars(lines@).len());
                    Phrase::new("DIRTY (").num(lines.len() as u64).add(" changed files)").done()
                } else {
                    owned("clean")
                },
                None => owned("clean"),
            };
            Phrase::new(b).add(" @ ").add(s).add(" (").add(dirty.as_str()).add(")").done()
        },
        _ => owned("not found"),
    }
}

/// The processor's name by the first line from `from` that tells it.
pub open spec fn cpu_in(lines: Seq<Seq<char>>, from: int) -> Option<Seq<char>>
    decreases lines.len() - from,
{
    if from < 0 || from >= lines.len() {
        None
    } else {
        match without_prefix(lines[from], "model name"@) {
            Some(rest) => match split_at(rest, ":"@) {
                Some((_, v)) => Some(trimmed(v)),
                None => cpu_in(lines, from + 1),
            },
            None => cpu_in(lines, from + 1),
        }
    }
}

/// The processor's name by what the system tells of its processors.
pub fn cpu_name(info: &str) -> (r: Option<String>)
    ensures
        opt_chars(r) == cpu_in(lines_of(info@), 0),
{
    let lines: Vec<String> = split_lines(info);
    let ghost all = all_chars(lines@);
    let mut i: usize = 0;
    while i < lines.len()
        invariant
            i <= lines@.len(),
            all == all_chars(lines@),
            all == lines_of(info@),
            cpu_in(all, 0) == cpu_in(all, i as int),
        decreases lines@.len() - i,
    {
        assert(all[i as int] == lines@[i as int]@);
        match strip_prefix(lines[i].as_str(), "model name") {
            Some(rest) => match split_once(rest, ":") {
                Some((_, v)) => {
                    return Some(owned(trim(v)));
                },
                None => {},
            },
            None => {},
        }
        i += 1;
    }
    None
}

/// The system's name, with its release where that is known.
pub fn os_name(os: &str, arch: &str, release: Option<&str>) -> (r: String)
    ensures
        r@ == match release {
            Some(v) => os@ + " "@ + arch@ + " "@ + trimmed(v@),
            None => os@ + " "@ + arch@,
        },
{
    let base: Phrase = Phrase::new(os).add(" ").add(arch);
    match release {
        Some(v) => base.add(" ").add(trim(v)).done(),
        None => base.done(),
    }
}

} // verus!
