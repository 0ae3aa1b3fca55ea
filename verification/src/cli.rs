//! The conventions every tool obeys: exit codes that are a contract, and the
//! shared flag surface (`--json`, `--check`, `--help`, `--`).
use crate::semantic::chars_of;
use vstd::prelude::*;
use vstd::string::*;

verus! {

/// Exit codes, a contract rather than a convenience: a caller must tell them
/// apart without parsing stdout.
#[derive(Debug, Clone, Copy, PartialEq, Eq, Structural)]
pub enum Exit {
    /// Nothing to report: the question was asked and the answer is "no".
    Clean,
    /// A finding the caller asked about: a difference, a conflict, a loss.
    Finding,
    /// The caller invoked us wrongly: bad flag, missing argument, unreadable path.
    Usage,
    /// We refuse: the input is beyond what this tool models.
    Unmodelled,
}

/// The process exit code of each outcome.
pub open spec fn exit_code(e: Exit) -> u8 {
    match e {
        Exit::Clean => 0,
        Exit::Finding => 1,
        Exit::Usage => 2,
        Exit::Unmodelled => 3,
    }
}

impl Exit {
    /// The process exit code.
    pub fn code(self) -> (r: u8)
        ensures
            r == exit_code(self),
    {
        match self {
            Exit::Clean => 0,
            Exit::Finding => 1,
            Exit::Usage => 2,
            Exit::Unmodelled => 3,
        }
    }
}

/// Distinct outcomes have distinct codes, so a caller can branch on the code
/// alone; in particular a refusal is never mistaken for a finding.
pub proof fn lemma_exit_codes_distinct(a: Exit, b: Exit)
    ensures
        exit_code(a) == exit_code(b) <==> a == b,
{
}

/// The flags every tool answers to.
#[derive(Debug, Clone, PartialEq, Eq)]
pub struct Common {
    /// Emit stable, schema-versioned machine output instead of a human view.
    pub json: bool,
    /// Exit-code-only mode: no stdout, no colour.
    pub check: bool,
    /// Print usage and stop.
    pub help: bool,
    /// Positional arguments, in order, with flags removed.
    pub positional: Vec<String>,
}

impl Default for Common {
    /// No flags and no positionals.
    fn default() -> (r: Self)
        ensures
            !r.json && !r.check && !r.help && r.positional@.len() == 0,
    {
        Common { json: false, check: false, help: false, positional: Vec::new() }
    }
}

/// Why an argument list could not be understood.
#[derive(Debug, Clone, PartialEq, Eq)]
pub struct UsageError {
    /// What went wrong, in a sentence a user can act on.
    pub message: String,
}

/// The parser's state after some arguments: `--json`, `--check`, `--help`,
/// whether `--` has been seen, and the positionals so far.
pub type ArgState = (bool, bool, bool, bool, Seq<Seq<char>>);

/// One argument's effect: after `--` everything is positional; `-h` and
/// `--help` ask for help; any other argument starting with `-`, except `-`
/// itself, is an unknown flag.
pub open spec fn arg_step(st: ArgState, a: Seq<char>) -> Result<ArgState, Seq<char>> {
    let (json, check, help, only, pos) = st;
    if only {
        Ok((json, check, help, only, pos.push(a)))
    } else if a == "--"@ {
        Ok((json, check, help, true, pos))
    } else if a == "--json"@ {
        Ok((true, check, help, only, pos))
    } else if a == "--check"@ {
        Ok((json, true, help, only, pos))
    } else if a == "-h"@ || a == "--help"@ {
        Ok((json, check, true, only, pos))
    } else if a.len() > 0 && a[0] == '-' && a != "-"@ {
        Err("unknown flag `"@ + a + "`. Pass `--` before a path that starts with a dash."@)
    } else {
        Ok((json, check, help, only, pos.push(a)))
    }
}

/// The parser's state after the first `k` arguments, or the first error.
pub open spec fn args_state(args: Seq<Seq<char>>, k: int) -> Result<ArgState, Seq<char>>
    decreases k,
{
    if k <= 0 || k > args.len() {
        Ok((false, false, false, false, Seq::empty()))
    } else {
        match args_state(args, k - 1) {
            Err(m) => Err(m),
            Ok(st) => arg_step(st, args[k - 1]),
        }
    }
}

/// Once an argument is refused, the whole list is refused with its message.
proof fn lemma_args_err_sticks(args: Seq<Seq<char>>, a: int, b: int)
    requires
        1 <= a <= b <= args.len(),
        args_state(args, a) is Err,
    ensures
        args_state(args, b) == args_state(args, a),
    decreases b - a,
{
    if a < b {
        lemma_args_err_sticks(args, a, b - 1);
    }
}

/// The views of some strings.
pub open spec fn views(args: Seq<&str>) -> Seq<Seq<char>> {
    Seq::new(args.len(), |i: int| args[i]@)
}

/// The views of some owned strings.
pub open spec fn string_views(v: Seq<String>) -> Seq<Seq<char>> {
    Seq::new(v.len(), |i: int| v[i]@)
}

/// Whether `a` spells `b`.
pub(crate) fn same_text(a: &str, b: &str) -> (r: bool)
    ensures
        r == (a@ == b@),
{
    let x = chars_of(a);
    let y = chars_of(b);
    if x.len() != y.len() {
        return false;
    }
    let mut i: usize = 0;
    while i < x.len()
        invariant
            x@ == a@,
            y@ == b@,
            x@.len() == y@.len(),
            i <= x@.len(),
            forall|k: int| 0 <= k < i ==> x@[k] == y@[k],
        decreases x@.len() - i,
    {
        if x[i] != y[i] {
            return false;
        }
        i = i + 1;
    }
    proof {
        assert(x@ == y@);
    }
    true
}

impl Common {
    /// Parse the shared flags out of an argument list. Everything after a
    /// bare `--` is positional; an unrecognised `-`-prefixed argument is a
    /// usage error rather than a filename.
    pub fn parse(args: &[&str]) -> (r: Result<Self, UsageError>)
        ensures
            match args_state(views(args@), args@.len() as int) {
                Ok((json, check, help, _, pos)) => r matches Ok(c) && c.json == json && c.check == check
                    && c.help == help && string_views(c.positional@) == pos,
                Err(m) => r matches Err(e) && e.message@ == m,
            },
    {
        let ghost v = views(args@);
        let mut out = Common::default();
        let mut only_positional = false;
        let mut i: usize = 0;
        proof {
            assert(string_views(out.positional@) == Seq::<Seq<char>>::empty());
        }
        while i < args.len()
            invariant
                v == views(args@),
                i <= args@.len(),
                args_state(v, i as int) == Ok::<ArgState, Seq<char>>(
                    (out.json, out.check, out.help, only_positional, string_views(out.positional@))),
            decreases args@.len() - i,
        {
            let arg = args[i];
            let ghost before = string_views(out.positional@);
            proof {
                assert(v[i as int] == arg@);
            }
            if only_positional {
                out.positional.push(String::from_str(arg));
            } else if same_text(arg, "--") {
                only_positional = true;
            } else if same_text(arg, "--json") {
                out.json = true;
            } else if same_text(arg, "--check") {
                out.check = true;
            } else if same_text(arg, "-h") || same_text(arg, "--help") {
                out.help = true;
            } else if {
                let cs = chars_of(arg);
                cs.len() > 0 && cs[0] == '-' && !same_text(arg, "-")
            } {
                let mut message = String::from_str("unknown flag `");
                message.append(arg);
                message.append("`. Pass `--` before a path that starts with a dash.");
                proof {
                    lemma_args_err_sticks(v, i + 1, args@.len() as int);
                }
                return Err(UsageError { message });
            } else {
                out.positional.push(String::from_str(arg));
            }
            proof {
                if string_views(out.positional@).len() != before.len() {
                    assert(string_views(out.positional@) =~= before.push(arg@));
                } else {
                    assert(string_views(out.positional@) =~= before);
                }
            }
            i = i + 1;
        }
        Ok(out)
    }
}

} // verus!
