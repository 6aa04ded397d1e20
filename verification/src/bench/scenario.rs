//! The command line of a scenario: one measured operation per process.

use crate::text::{all_chars, opt_chars, owned, same};
use crate::words::{number_up_to, parse_number, Phrase};
use vstd::prelude::*;
use vstd::string::*;

verus! {

broadcast use vstd::string::group_string_axioms;

/// How many scopes a navigation opens unless it is told.
pub const NAV_SCOPES: usize = 32;

/// How often a navigation opens each scope unless it is told.
pub const NAV_ITERS: usize = 3;

/// The modes that load a design, in the order in which they run.
pub const LOAD_MODES: [&'static str; 5] = [
    "prepare",
    "from_slice",
    "cache_hit",
    "access_checked",
    "access_unchecked",
];

/// The usage text.
pub const USAGE: &'static str = "\
usage: scenario --basis <name> --mode <mode> [--signals <n>] [--nav-scopes <n>] [--nav-iters <n>]

modes: prepare | from_slice | cache_hit | access_checked | access_unchecked | nav | match";

/// Whether a mode loads a design.
pub open spec fn loads(mode: Seq<char>) -> bool {
    mode == "prepare"@ || mode == "from_slice"@ || mode == "cache_hit"@ || mode
        == "access_checked"@ || mode == "access_unchecked"@
}

/// Whether a mode loads a design.
pub fn is_load_mode(mode: &str) -> (r: bool)
    ensures
        r == loads(mode@),
{
    same(mode, "prepare") || same(mode, "from_slice") || same(mode, "cache_hit") || same(
        mode,
        "access_checked",
    ) || same(mode, "access_unchecked")
}

/// What a scenario is told.
#[derive(Debug, Clone, PartialEq, Eq)]
pub struct ScenarioArgs {
    pub basis: String,
    pub mode: String,
    pub signals: Option<usize>,
    pub nav_scopes: usize,
    pub nav_iters: usize,
}

/// What a scenario is told.
#[verifier::ext_equal]
pub struct ScenarioV {
    pub basis: Option<Seq<char>>,
    pub mode: Option<Seq<char>>,
    pub signals: Option<nat>,
    pub nav_scopes: nat,
    pub nav_iters: nat,
}

/// What a scenario is told before any argument is read.
pub open spec fn untold() -> ScenarioV {
    ScenarioV {
        basis: None,
        mode: None,
        signals: None,
        nav_scopes: NAV_SCOPES as nat,
        nav_iters: NAV_ITERS as nat,
    }
}

/// At least one.
pub open spec fn at_least_one(n: nat) -> nat {
    if n == 0 {
        1
    } else {
        n
    }
}

/// The flags of a scenario, all of which take a value.
pub open spec fn is_flag(arg: Seq<char>) -> bool {
    arg == "--basis"@ || arg == "--mode"@ || arg == "--signals"@ || arg == "--nav-scopes"@ || arg
        == "--nav-iters"@
}

/// What a scenario is told with one more flag; `None` where a number is wanted and the
/// value is none.
pub open spec fn told(s: ScenarioV, flag: Seq<char>, v: Seq<char>) -> Option<ScenarioV> {
    if flag == "--basis"@ {
        Some(ScenarioV { basis: Some(v), ..s })
    } else if flag == "--mode"@ {
        Some(ScenarioV { mode: Some(v), ..s })
    } else {
        match number_up_to(v, usize::MAX as nat) {
            Some(n) => Some(
                if flag == "--signals"@ {
                    ScenarioV { signals: Some(n), ..s }
                } else if flag == "--nav-scopes"@ {
                    ScenarioV { nav_scopes: at_least_one(n), ..s }
                } else {
                    ScenarioV { nav_iters: at_least_one(n), ..s }
                },
            ),
            None => None,
        }
    }
}

/// What the arguments from `i` say, or what is wrong with them.
pub open spec fn scanned(args: Seq<Seq<char>>, i: int, s: ScenarioV) -> Result<
    ScenarioV,
    Seq<char>,
>
    decreases args.len() - i,
{
    if i < 0 || i >= args.len() {
        Ok(s)
    } else if args[i] == "-h"@ || args[i] == "--help"@ {
        Err("help requested"@)
    } else if !is_flag(args[i]) {
        Err("unknown argument '"@ + args[i] + "'"@)
    } else if i + 1 >= args.len() {
        Err(args[i] + " needs a value"@)
    } else {
        match told(s, args[i], args[i + 1]) {
            Some(t) => scanned(args, i + 2, t),
            None => Err(args[i] + " needs a number, got '"@ + args[i + 1] + "'"@),
        }
    }
}

/// Whether arguments were told: a basis and a mode, and the rest or what stands for it.
pub open spec fn is_told(a: ScenarioArgs, s: ScenarioV) -> bool {
    &&& s.basis == Some(a.basis@)
    &&& s.mode == Some(a.mode@)
    &&& s.signals == match a.signals {
        Some(n) => Some(n as nat),
        None => None,
    }
    &&& s.nav_scopes == a.nav_scopes
    &&& s.nav_iters == a.nav_iters
}

struct Told {
    basis: Option<String>,
    mode: Option<String>,
    signals: Option<usize>,
    nav_scopes: usize,
    nav_iters: usize,
}

impl View for Told {
    type V = ScenarioV;

    closed spec fn view(&self) -> ScenarioV {
        ScenarioV {
            basis: opt_chars(self.basis),
            mode: opt_chars(self.mode),
            signals: match self.signals {
                Some(n) => Some(n as nat),
                None => None,
            },
            nav_scopes: self.nav_scopes as nat,
            nav_iters: self.nav_iters as nat,
        }
    }
}

fn tell(s: Told, flag: &str, v: &str) -> (r: Option<Told>)
    ensures
        match r {
            Some(t) => told(s@, flag@, v@) == Some(t@),
            None => told(s@, flag@, v@) is None,
        },
{
    let mut s: Told = s;
    if same(flag, "--basis") {
        s.basis = Some(owned(v));
        return Some(s);
    }
    if same(flag, "--mode") {
        s.mode = Some(owned(v));
        return Some(s);
    }
    match parse_number(v, usize::MAX as u64) {
        Some(n) => {
            let n: usize = n as usize;
            let one: usize = if n == 0 {
                1
            } else {
                n
            };
            if same(flag, "--signals") {
                s.signals = Some(n);
            } else if same(flag, "--nav-scopes") {
                s.nav_scopes = one;
            } else {
                s.nav_iters = one;
            }
            Some(s)
        },
        None => None,
    }
}

/// What a command line without the program's name tells a scenario. A basis and a mode
/// are required; any mode is accepted here.
pub fn parse_args(args: &[String]) -> (r: Result<ScenarioArgs, String>)
    ensures
        match scanned(all_chars(args@), 0, untold()) {
            Ok(s) => if s.basis is None {
                r is Err && r->Err_0@ == "--basis is required"@
            } else if s.mode is None {
                r is Err && r->Err_0@ == "--mode is required"@
            } else {
                r is Ok && is_told(r->Ok_0, s)
            },
            Err(e) => r is Err && r->Err_0@ == e,
        },
{
    let ghost all = all_chars(args@);
    let mut s: Told = Told {
        basis: None,
        mode: None,
        signals: None,
        nav_scopes: NAV_SCOPES,
        nav_iters: NAV_ITERS,
    };
    assert(s@ =~= untold());
    let mut i: usize = 0;
    while i < args.len()
        invariant
            i <= args@.len(),
            all == all_chars(args@),
            scanned(all, 0, untold()) == scanned(all, i as int, s@),
        decreases args@.len() - i,
    {
        let arg: &str = args[i].as_str();
        assert(all[i as int] == arg@);
        if same(arg, "-h") || same(arg, "--help") {
            return Err(owned("help requested"));
        }
        if !(same(arg, "--basis") || same(arg, "--mode") || same(arg, "--signals") || same(
            arg,
            "--nav-scopes",
        ) || same(arg, "--nav-iters")) {
            return Err(Phrase::new("unknown argument '").add(arg).add("'").done());
        }
        if args.len() - i < 2 {
            return Err(Phrase::new(arg).add(" needs a value").done());
        }
        let v: &str = args[i + 1].as_str();
        assert(all[i + 1] == v@);
        match tell(s, arg, v) {
            Some(t) => {
                s = t;
            },
            None => {
                return Err(Phrase::new(arg).add(" needs a number, got '").add(v).add("'").done());
            },
        }
        i += 2;
    }
    match (s.basis, s.mode) {
        (None, _) => Err(owned("--basis is required")),
        (_, None) => Err(owned("--mode is required")),
        (Some(basis), Some(mode)) => Ok(
            ScenarioArgs {
                basis,
                mode,
                signals: s.signals,
                nav_scopes: s.nav_scopes,
                nav_iters: s.nav_iters,
            },
        ),
    }
}

proof fn lemma_counts_positive(args: Seq<Seq<char>>, i: int, s: ScenarioV)
    requires
        0 <= i,
        s.nav_scopes >= 1,
        s.nav_iters >= 1,
    ensures
        match scanned(args, i, s) {
            Ok(t) => t.nav_scopes >= 1 && t.nav_iters >= 1,
            Err(_) => true,
        },
    decreases args.len() - i,
{
    if i + 1 < args.len() && is_flag(args[i]) {
        match told(s, args[i], args[i + 1]) {
            Some(t) => {
                lemma_counts_positive(args, i + 2, t);
            },
            None => {},
        }
    }
}

/// A navigation opens at least one scope, at least once, whatever it is told.
pub proof fn law_navigation_counts_are_positive(args: Seq<Seq<char>>)
    ensures
        match scanned(args, 0, untold()) {
            Ok(s) => s.nav_scopes >= 1 && s.nav_iters >= 1,
            Err(_) => true,
        },
{
    lemma_counts_positive(args, 0, untold());
}

} // verus!
