//! Round-trip runner: `serialize(parse(x)) == x`, byte for byte. A case has
//! no expected file: the input is the expectation. A failure says whether no
//! tree was produced or which byte came back different. Discovering and
//! reading the case files is the caller's business.
use crate::golden::window_start;
use crate::text::{decimal, push_decimal};
use crate::window::{first_difference, first_difference_spec, show_window, window_spec};
use vstd::prelude::*;
use vstd::string::*;

verus! {

/// Bytes shown before the first difference; twice as many are shown in all.
pub const DIFF_CONTEXT: usize = 32;

/// Why a round-trip suite could not run at all.
#[derive(Debug)]
pub enum SuiteError {
    /// The suite directory could not be read.
    Unreadable {
        /// The path that could not be read.
        path: String,
        /// The underlying I/O error, rendered.
        cause: String,
    },
    /// The suite contains no cases. A vacuous suite is a failing suite.
    Empty {
        /// The suite directory.
        path: String,
    },
}

/// How a single case failed.
#[derive(Debug)]
pub enum Cause {
    /// `parse` returned an error: no tree was produced.
    ParseFailed(String),
    /// A tree was produced, but it did not serialise back to the input.
    NotByteIdentical {
        /// Offset of the first differing byte.
        at: usize,
        /// Input length.
        input_len: usize,
        /// Serialised length.
        output_len: usize,
        /// Windowed view of both sides at the difference.
        window: String,
    },
}

/// One case that did not round-trip.
#[derive(Debug)]
pub struct Failure {
    /// The case file.
    pub case: String,
    /// Why it failed.
    pub cause: Cause,
}

/// The outcome of running a suite.
#[derive(Debug)]
pub struct Report {
    /// Suite directory.
    pub suite: String,
    /// Cases that round-tripped.
    pub passed: usize,
    /// Cases that did not, in case order.
    pub failures: Vec<Failure>,
}

impl Report {
    /// Total cases considered.
    pub fn total(&self) -> (r: usize)
        requires
            self.passed + self.failures@.len() <= usize::MAX,
        ensures
            r == self.passed + self.failures@.len(),
    {
        self.passed + self.failures.len()
    }
}

/// Why a case failed, in words.
pub open spec fn outcome_text(o: Outcome) -> Seq<char> {
    match o {
        Outcome::Failed(m) => "parse failed:\n"@ + m + "\n"@,
        Outcome::Differs(at, input_len, output_len, window) => "first difference at byte "@ + decimal(at) + " (input "@
            + decimal(input_len) + " bytes, serialised "@ + decimal(output_len) + " bytes)\n"@ + window,
    }
}

/// Each failure in turn: a header naming its case, then why it failed.
pub open spec fn failure_listing(f: Seq<(Seq<char>, Outcome)>) -> Seq<char>
    decreases f.len(),
{
    if f.len() == 0 {
        Seq::empty()
    } else {
        failure_listing(f.drop_last()) + "\n--- "@ + f.last().0 + " ---\n"@ + outcome_text(f.last().1)
    }
}

/// The message a suite with failures is reported with: how many of how many
/// cases did not round-trip where, why nothing is to be edited, and every
/// failure.
pub open spec fn failure_message_text(suite: Seq<char>, passed: nat, f: Seq<(Seq<char>, Outcome)>) -> Seq<char> {
    "\nK1 VIOLATED: "@ + decimal(f.len()) + " of "@ + decimal(passed + f.len()) + " cases in "@ + suite
        + " did not round-trip.\n\n"@ + "serialize(parse(x)) must equal x, byte for byte (MASTER_PLAN \u{a7}3.1).\n"@
        + "Serialisation has no format knowledge, so every failure here is a parse\n"@
        + "failure: some input byte did not reach a token.\n\n"@
        + "These cases have no `expected` file \u{2014} the input IS the expectation.\n"@
        + "There is nothing to edit. Fix the parser (\u{a7}8).\n"@ + failure_listing(f)
}

/// Append one failure: a header naming its case, then why it failed.
fn push_failure(msg: &mut String, f: &Failure)
    ensures
        final(msg)@ == old(msg)@ + "\n--- "@ + f.case@ + " ---\n"@ + outcome_text(failure_view(*f).1),
{
    msg.append("\n--- ");
    msg.append(f.case.as_str());
    msg.append(" ---\n");
    match &f.cause {
        Cause::ParseFailed(report) => {
            msg.append("parse failed:\n");
            msg.append(report.as_str());
            msg.append("\n");
        },
        Cause::NotByteIdentical { at, input_len, output_len, window } => {
            msg.append("first difference at byte ");
            push_decimal(msg, *at as u64);
            msg.append(" (input ");
            push_decimal(msg, *input_len as u64);
            msg.append(" bytes, serialised ");
            push_decimal(msg, *output_len as u64);
            msg.append(" bytes)\n");
            msg.append(window.as_str());
        },
    }
}

impl Report {
    /// The message a failing suite is reported with, or `None` when every
    /// case round-tripped.
    pub fn failure_message(&self) -> (r: Option<String>)
        requires
            self.passed + self.failures@.len() <= usize::MAX,
        ensures
            self.failures@.len() == 0 <==> r is None,
            r matches Some(m) ==> m@ == failure_message_text(
                self.suite@,
                self.passed as nat,
                self.failures@.map_values(|f: Failure| failure_view(f)),
            ),
    {
        if self.failures.len() == 0 {
            return None;
        }
        let ghost fs = self.failures@.map_values(|f: Failure| failure_view(f));
        let mut msg = String::from_str("\nK1 VIOLATED: ");
        push_decimal(&mut msg, self.failures.len() as u64);
        msg.append(" of ");
        push_decimal(&mut msg, self.total() as u64);
        msg.append(" cases in ");
        msg.append(self.suite.as_str());
        msg.append(" did not round-trip.\n\n");
        msg.append("serialize(parse(x)) must equal x, byte for byte (MASTER_PLAN \u{a7}3.1).\n");
        msg.append("Serialisation has no format knowledge, so every failure here is a parse\n");
        msg.append("failure: some input byte did not reach a token.\n\n");
        msg.append("These cases have no `expected` file \u{2014} the input IS the expectation.\n");
        msg.append("There is nothing to edit. Fix the parser (\u{a7}8).\n");
        let ghost head = msg@;
        let mut i: usize = 0;
        proof {
            assert(fs.take(0) =~= Seq::<(Seq<char>, Outcome)>::empty());
        }
        while i < self.failures.len()
            invariant
                fs == self.failures@.map_values(|f: Failure| failure_view(f)),
                i <= fs.len(),
                msg@ == head + failure_listing(fs.take(i as int)),
            decreases fs.len() - i,
        {
            let f = &self.failures[i];
            push_failure(&mut msg, f);
            proof {
                let t = fs.take(i + 1);
                assert(t.drop_last() =~= fs.take(i as int));
                assert(t.last() == failure_view(*f));
            }
            i = i + 1;
        }
        proof {
            assert(fs.take(fs.len() as int) =~= fs);
        }
        Some(msg)
    }
}

/// Both sides at the first difference, windowed.
pub open spec fn window_text(input: Seq<u8>, output: Seq<u8>, at: nat) -> Seq<char> {
    let start = window_start(at, DIFF_CONTEXT as nat);
    "  input:      "@ + window_spec(input, start, 2 * DIFF_CONTEXT as nat) + "\n  serialised: "@
        + window_spec(output, start, 2 * DIFF_CONTEXT as nat) + "\n"@
}

/// Show both sides from `DIFF_CONTEXT` bytes before `at`.
pub fn render_window(input: &[u8], output: &[u8], at: usize) -> (r: String)
    ensures
        r@ == window_text(input@, output@, at as nat),
{
    let start = if at > DIFF_CONTEXT { at - DIFF_CONTEXT } else { 0 };
    let mut out = String::from_str("  input:      ");
    let w1 = show_window(input, start, 2 * DIFF_CONTEXT);
    out.append(w1.as_str());
    out.append("\n  serialised: ");
    let w2 = show_window(output, start, 2 * DIFF_CONTEXT);
    out.append(w2.as_str());
    out.append("\n");
    out
}

/// A case: its name, and its bytes when they could be read.
pub type CaseFile = (String, Option<Vec<u8>>);

/// What one case came to: round-tripped (`None`), or why not.
pub enum Outcome {
    /// The bytes could not be read, or the parse failed with this message.
    Failed(Seq<char>),
    /// A tree came back as other bytes.
    Differs(nat, nat, nat, Seq<char>),
}

/// Whether `f` can return `res` on `input`.
pub open spec fn result_on<F: Fn(&[u8]) -> Result<Vec<u8>, String>>(f: F, input: Seq<u8>, res: Result<Seq<u8>, Seq<char>>) -> bool {
    exists|x: &[u8], y: Result<Vec<u8>, String>| x@ == input && call_ensures(f, (x,), y) && match (y, res) {
        (Ok(v), Ok(w)) => v@ == w,
        (Err(m), Err(n)) => m@ == n,
        _ => false,
    }
}

/// What a case comes to, given what the round trip returned on it.
pub open spec fn outcome(case: CaseFile, res: Result<Seq<u8>, Seq<char>>) -> Option<Outcome> {
    match case.1 {
        None => Some(Outcome::Failed("case file could not be read"@)),
        Some(input) => match res {
            Err(m) => Some(Outcome::Failed(m)),
            Ok(out) => if out == input@ {
                None
            } else {
                let at = first_difference_spec(input@, out);
                Some(Outcome::Differs(at, input@.len(), out.len(), window_text(input@, out, at)))
            },
        },
    }
}

/// A failure, viewed.
pub open spec fn failure_view(f: Failure) -> (Seq<char>, Outcome) {
    (f.case@, match f.cause {
        Cause::ParseFailed(m) => Outcome::Failed(m@),
        Cause::NotByteIdentical { at, input_len, output_len, window } =>
            Outcome::Differs(at as nat, input_len as nat, output_len as nat, window@),
    })
}

/// The failures among the first `k` cases.
pub open spec fn roundtrip_failures(cases: Seq<CaseFile>, res: Seq<Result<Seq<u8>, Seq<char>>>, k: int) -> Seq<(Seq<char>, Outcome)>
    decreases k,
{
    if k <= 0 {
        Seq::empty()
    } else {
        let f = roundtrip_failures(cases, res, k - 1);
        match outcome(cases[k - 1], res[k - 1]) {
            Some(o) => f.push((cases[k - 1].0@, o)),
            None => f,
        }
    }
}

/// How many of the first `k` cases round-tripped.
pub open spec fn roundtrip_passed(cases: Seq<CaseFile>, res: Seq<Result<Seq<u8>, Seq<char>>>, k: int) -> nat
    decreases k,
{
    if k <= 0 { 0 } else { roundtrip_passed(cases, res, k - 1) + if outcome(cases[k - 1], res[k - 1]) is None { 1nat } else { 0nat } }
}

proof fn lemma_roundtrip_prefix(cs: Seq<CaseFile>, a: Seq<Result<Seq<u8>, Seq<char>>>, b: Seq<Result<Seq<u8>, Seq<char>>>, k: int)
    requires
        0 <= k <= a.len(),
        k <= b.len(),
        forall|i: int| 0 <= i < k ==> a[i] == b[i],
    ensures
        roundtrip_passed(cs, a, k) == roundtrip_passed(cs, b, k),
        roundtrip_failures(cs, a, k) == roundtrip_failures(cs, b, k),
        roundtrip_passed(cs, a, k) + roundtrip_failures(cs, a, k).len() == k,
    decreases k,
{
    if k > 0 {
        lemma_roundtrip_prefix(cs, a, b, k - 1);
    }
}

fn same_bytes(a: &Vec<u8>, b: &Vec<u8>) -> (r: bool)
    ensures
        r == (a@ == b@),
{
    if a.len() != b.len() {
        return false;
    }
    let mut i: usize = 0;
    while i < a.len()
        invariant
            a@.len() == b@.len(),
            i <= a@.len(),
            forall|j: int| 0 <= j < i ==> a@[j] == b@[j],
        decreases a@.len() - i,
    {
        if a[i] != b[i] {
            return false;
        }
        i = i + 1;
    }
    proof {
        assert(a@ == b@);
    }
    true
}

/// Run every case through `roundtrip`, requiring byte-identical output. An
/// empty suite is an error; an unreadable case is a failure.
pub fn run_cases<F: Fn(&[u8]) -> Result<Vec<u8>, String>>(suite: &str, cases: Vec<CaseFile>, roundtrip: F) -> (r: Result<Report, SuiteError>)
    requires
        forall|b: &[u8]| call_requires(roundtrip, (b,)),
    ensures
        cases@.len() == 0 ==> (r matches Err(SuiteError::Empty { path }) && path@ == suite@),
        cases@.len() > 0 ==> (r matches Ok(rep) && rep.suite@ == suite@
            && exists|res: Seq<Result<Seq<u8>, Seq<char>>>| res.len() == cases@.len()
            && (forall|i: int| 0 <= i < res.len() ==> (cases@[i].1 matches Some(input) ==> result_on(roundtrip, input@, #[trigger] res[i])))
            && rep.passed == roundtrip_passed(cases@, res, cases@.len() as int)
            && Seq::new(rep.failures@.len(), |i: int| failure_view(rep.failures@[i])) == roundtrip_failures(cases@, res, cases@.len() as int)),
{
    if cases.len() == 0 {
        return Err(SuiteError::Empty { path: String::from_str(suite) });
    }
    let ghost cs = cases@;
    let mut passed: usize = 0;
    let mut failures: Vec<Failure> = Vec::new();
    let ghost mut res: Seq<Result<Seq<u8>, Seq<char>>> = Seq::empty();
    let mut i: usize = 0;
    while i < cases.len()
        invariant
            cs == cases@,
            forall|b: &[u8]| call_requires(roundtrip, (b,)),
            i <= cs.len(),
            res.len() == i,
            forall|k: int| 0 <= k < i ==> (cs[k].1 matches Some(input) ==> result_on(roundtrip, input@, #[trigger] res[k])),
            passed == roundtrip_passed(cs, res, i as int),
            Seq::new(failures@.len(), |j: int| failure_view(failures@[j])) == roundtrip_failures(cs, res, i as int),
        decreases cs.len() - i,
    {
        let (name, maybe) = &cases[i];
        let ghost f0 = failures@;
        let ghost r0 = res;
        proof {
            lemma_roundtrip_prefix(cs, res, res, i as int);
        }
        match maybe {
            None => {
                failures.push(Failure { case: name.clone(), cause: Cause::ParseFailed(String::from_str("case file could not be read")) });
                proof {
                    let got = Err::<Seq<u8>, Seq<char>>(Seq::empty());
                    res = res.push(got);
                }
            },
            Some(input) => {
                let got = roundtrip(input.as_slice());
                let ghost gv = match &got {
                    Ok(v) => Ok::<Seq<u8>, Seq<char>>(v@),
                    Err(m) => Err::<Seq<u8>, Seq<char>>(m@),
                };
                proof {
                    assert(result_on(roundtrip, input@, gv));
                    res = res.push(gv);
                }
                match got {
                    Err(message) => {
                        failures.push(Failure { case: name.clone(), cause: Cause::ParseFailed(message) });
                    },
                    Ok(output) => {
                        if same_bytes(&output, input) {
                            passed = passed + 1;
                        } else {
                            let at = first_difference(input.as_slice(), output.as_slice());
                            let window = render_window(input.as_slice(), output.as_slice(), at);
                            failures.push(Failure {
                                case: name.clone(),
                                cause: Cause::NotByteIdentical { at, input_len: input.len(), output_len: output.len(), window },
                            });
                        }
                    },
                }
            },
        }
        proof {
            lemma_roundtrip_prefix(cs, r0, res, i as int);
            assert forall|k: int| 0 <= k < i + 1 implies (cs[k].1 matches Some(input) ==> result_on(roundtrip, input@, #[trigger] res[k])) by {
                if k < i {
                    assert(res[k] == r0[k]);
                }
            }
            let fv = Seq::new(failures@.len(), |j: int| failure_view(failures@[j]));
            let fv0 = Seq::new(f0.len(), |j: int| failure_view(f0[j]));
            if failures@.len() > f0.len() {
                assert(fv =~= fv0.push(failure_view(failures@.last())));
            } else {
                assert(fv =~= fv0);
            }
        }
        i = i + 1;
    }
    Ok(Report { suite: String::from_str(suite), passed, failures })
}

} // verus!
