//! Golden-file runner: each case's `input`, transformed, must equal its
//! `expected` bytes exactly. Goldens are evidence, so nothing here writes
//! them; a suite with no cases is an error, not a pass; and a failure names
//! the first differing byte with a window onto both sides. Discovering and
//! reading the case files is the caller's business.
use crate::text::{decimal, push_decimal};
use crate::window::{first_difference, first_difference_spec, show_window, window_spec};
use vstd::prelude::*;
use vstd::string::*;

verus! {

/// Bytes shown before the first difference; twice as many are shown in all.
pub const DIFF_CONTEXT: usize = 24;

/// Why a golden suite could not be run at all (distinct from a case failing).
#[derive(Debug)]
pub enum SuiteError {
    /// The suite directory does not exist or could not be read.
    Unreadable {
        /// The path that could not be read.
        path: String,
        /// The underlying I/O error, rendered.
        cause: String,
    },
    /// A case directory is missing `input` or `expected`.
    MalformedCase {
        /// The case directory.
        path: String,
        /// Which file was missing.
        missing: &'static str,
    },
    /// The suite contains no cases: vacuous is not passing.
    Empty {
        /// The suite directory.
        path: String,
    },
}

/// One case that did not match its golden.
#[derive(Debug)]
pub struct Failure {
    /// The case directory.
    pub case: String,
    /// Rendered, actionable diff.
    pub diff: String,
}

/// The outcome of running a suite.
#[derive(Debug)]
pub struct Report {
    /// Suite directory that was run.
    pub suite: String,
    /// Number of cases that matched.
    pub passed: usize,
    /// Cases that did not match, in case order.
    pub failures: Vec<Failure>,
}

impl Report {
    /// Total cases considered.
    pub fn total(&self) -> (r: usize)
        requires
            self.passed + self.failures@.len() <= usize::MAX,
        ensures
            r == self.passed + self.failures@.len(),
    {
        self.passed + self.failures.len()
    }
}

/// Each failure in turn: a header naming its case, then its diff.
pub open spec fn failure_listing(f: Seq<(Seq<char>, Seq<char>)>) -> Seq<char>
    decreases f.len(),
{
    if f.len() == 0 {
        Seq::empty()
    } else {
        failure_listing(f.drop_last()) + "\n--- "@ + f.last().0 + " ---\n"@ + f.last().1
    }
}

/// The message a suite with failures is reported with: how many of how many
/// cases failed where, a reminder that goldens are not edited to go green,
/// and every failure.
pub open spec fn failure_message_text(suite: Seq<char>, passed: nat, f: Seq<(Seq<char>, Seq<char>)>) -> Seq<char> {
    "\n"@ + decimal(f.len()) + " of "@ + decimal(passed + f.len()) + " golden cases failed in "@ + suite + "\n\n"@
        + "Reminder (MASTER_PLAN \u{a7}8): goldens are evidence. Do not edit them to go green.\n"@
        + "If a golden is genuinely wrong, stop and propose the change under a\n"@ + "[NEEDS-AYUSH-APPROVAL] header.\n"@
        + failure_listing(f)
}

impl Report {
    /// The message a failing suite is reported with, or `None` when every
    /// case passed.
    pub fn failure_message(&self) -> (r: Option<String>)
        requires
            self.passed + self.failures@.len() <= usize::MAX,
        ensures
            self.failures@.len() == 0 <==> r is None,
            r matches Some(m) ==> m@ == failure_message_text(self.suite@, self.passed as nat, golden_view(self.failures@)),
    {
        if self.failures.len() == 0 {
            return None;
        }
        let ghost fs = golden_view(self.failures@);
        let mut msg = String::from_str("\n");
        push_decimal(&mut msg, self.failures.len() as u64);
        msg.append(" of ");
        push_decimal(&mut msg, self.total() as u64);
        msg.append(" golden cases failed in ");
        msg.append(self.suite.as_str());
        msg.append("\n\n");
        msg.append("Reminder (MASTER_PLAN \u{a7}8): goldens are evidence. Do not edit them to go green.\n");
        msg.append("If a golden is genuinely wrong, stop and propose the change under a\n");
        msg.append("[NEEDS-AYUSH-APPROVAL] header.\n");
        let ghost head = msg@;
        let mut i: usize = 0;
        proof {
            assert(fs.take(0) =~= Seq::<(Seq<char>, Seq<char>)>::empty());
        }
        while i < self.failures.len()
            invariant
                fs == golden_view(self.failures@),
                i <= fs.len(),
                msg@ == head + failure_listing(fs.take(i as int)),
            decreases fs.len() - i,
        {
            let f = &self.failures[i];
            msg.append("\n--- ");
            msg.append(f.case.as_str());
            msg.append(" ---\n");
            msg.append(f.diff.as_str());
            proof {
                let t = fs.take(i + 1);
                assert(t.drop_last() =~= fs.take(i as int));
                assert(t.last() == (f.case@, f.diff@));
            }
            i = i + 1;
        }
        proof {
            assert(fs.take(fs.len() as int) =~= fs);
        }
        Some(msg)
    }
}

/// Where a window starts: `context` bytes before the difference, or 0.
pub open spec fn window_start(at: nat, context: nat) -> nat {
    if at > context { (at - context) as nat } else { 0 }
}

/// A byte-level diff anchored at the first difference.
pub open spec fn diff_text(expected: Seq<u8>, actual: Seq<u8>) -> Seq<char> {
    let at = first_difference_spec(expected, actual);
    let start = window_start(at, DIFF_CONTEXT as nat);
    "first difference at byte "@ + decimal(at) + " (expected "@ + decimal(expected.len()) + " bytes, got "@
        + decimal(actual.len()) + " bytes)\n"@ + "  expected: "@ + window_spec(expected, start, 2 * DIFF_CONTEXT as nat)
        + "\n  actual:   "@ + window_spec(actual, start, 2 * DIFF_CONTEXT as nat) + "\n"@
}

/// Render a byte-level diff anchored at the first difference.
pub fn render_diff(expected: &[u8], actual: &[u8]) -> (r: String)
    ensures
        r@ == diff_text(expected@, actual@),
{
    let at = first_difference(expected, actual);
    let start = if at > DIFF_CONTEXT { at - DIFF_CONTEXT } else { 0 };
    let mut out = String::from_str("first difference at byte ");
    push_decimal(&mut out, at as u64);
    out.append(" (expected ");
    push_decimal(&mut out, expected.len() as u64);
    out.append(" bytes, got ");
    push_decimal(&mut out, actual.len() as u64);
    out.append(" bytes)\n");
    out.append("  expected: ");
    let w1 = show_window(expected, start, 2 * DIFF_CONTEXT);
    out.append(w1.as_str());
    out.append("\n  actual:   ");
    let w2 = show_window(actual, start, 2 * DIFF_CONTEXT);
    out.append(w2.as_str());
    out.append("\n");
    out
}

/// Whether `f` can map `input` to `out`.
pub open spec fn output_on<F: Fn(&[u8]) -> Vec<u8>>(f: F, input: Seq<u8>, out: Seq<u8>) -> bool {
    exists|x: &[u8], y: Vec<u8>| x@ == input && y@ == out && call_ensures(f, (x,), y)
}

/// A case: its name, its input, and its expected bytes.
pub type CaseFiles = (String, Vec<u8>, Vec<u8>);

/// The failures among the first `k` cases, given each case's output.
pub open spec fn golden_failures(cases: Seq<CaseFiles>, outs: Seq<Seq<u8>>, k: int) -> Seq<(Seq<char>, Seq<char>)>
    decreases k,
{
    if k <= 0 {
        Seq::empty()
    } else {
        let f = golden_failures(cases, outs, k - 1);
        let c = cases[k - 1];
        if outs[k - 1] == c.2@ { f } else { f.push((c.0@, diff_text(c.2@, outs[k - 1]))) }
    }
}

/// How many of the first `k` cases matched.
pub open spec fn golden_passed(cases: Seq<CaseFiles>, outs: Seq<Seq<u8>>, k: int) -> nat
    decreases k,
{
    if k <= 0 { 0 } else { golden_passed(cases, outs, k - 1) + if outs[k - 1] == cases[k - 1].2@ { 1nat } else { 0nat } }
}

/// A failure list, viewed.
pub open spec fn golden_view(f: Seq<Failure>) -> Seq<(Seq<char>, Seq<char>)> {
    Seq::new(f.len(), |i: int| (f[i].case@, f[i].diff@))
}

proof fn lemma_passed_bound(cases: Seq<CaseFiles>, outs: Seq<Seq<u8>>, k: int)
    requires
        k >= 0,
    ensures
        golden_passed(cases, outs, k) + golden_failures(cases, outs, k).len() == k,
    decreases k,
{
    if k > 0 {
        lemma_passed_bound(cases, outs, k - 1);
    }
}

fn same_bytes(a: &Vec<u8>, b: &Vec<u8>) -> (r: bool)
    ensures
        r == (a@ == b@),
{
    if a.len() != b.len() {
        return false;
    }
    let mut i: usize = 0;
    while i < a.len()
        invariant
            a@.len() == b@.len(),
            i <= a@.len(),
            forall|j: int| 0 <= j < i ==> a@[j] == b@[j],
        decreases a@.len() - i,
    {
        if a[i] != b[i] {
            return false;
        }
        i = i + 1;
    }
    proof {
        assert(a@ == b@);
    }
    true
}

/// Run every case, applying `transform` to each input and comparing the
/// result byte for byte against the expected bytes. An empty suite is an error.
pub fn run_cases<F: Fn(&[u8]) -> Vec<u8>>(suite: &str, cases: Vec<CaseFiles>, transform: F) -> (r: Result<Report, SuiteError>)
    requires
        forall|b: &[u8]| call_requires(transform, (b,)),
    ensures
        cases@.len() == 0 ==> (r matches Err(SuiteError::Empty { path }) && path@ == suite@),
        cases@.len() > 0 ==> (r matches Ok(rep) && rep.suite@ == suite@ && exists|outs: Seq<Seq<u8>>| outs.len() == cases@.len()
            && (forall|i: int| 0 <= i < outs.len() ==> output_on(transform, cases@[i].1@, #[trigger] outs[i]))
            && rep.passed == golden_passed(cases@, outs, cases@.len() as int)
            && golden_view(rep.failures@) == golden_failures(cases@, outs, cases@.len() as int)),
{
    if cases.len() == 0 {
        return Err(SuiteError::Empty { path: String::from_str(suite) });
    }
    let ghost cs = cases@;
    let mut passed: usize = 0;
    let mut failures: Vec<Failure> = Vec::new();
    let ghost mut outs: Seq<Seq<u8>> = Seq::empty();
    let mut i: usize = 0;
    while i < cases.len()
        invariant
            cs == cases@,
            forall|b: &[u8]| call_requires(transform, (b,)),
            i <= cs.len(),
            outs.len() == i,
            forall|k: int| 0 <= k < i ==> output_on(transform, cs[k].1@, #[trigger] outs[k]),
            passed == golden_passed(cs, outs, i as int),
            golden_view(failures@) == golden_failures(cs, outs, i as int),
        decreases cs.len() - i,
    {
        let (name, input, expected) = &cases[i];
        let actual = transform(input.as_slice());
        proof {
            lemma_passed_bound(cs, outs, i as int);
            let o2 = outs.push(actual@);
            assert(output_on(transform, cs[i as int].1@, actual@));
            assert forall|k: int| 0 <= k < i + 1 implies output_on(transform, cs[k].1@, #[trigger] o2[k]) by {
                if k < i {
                    assert(o2[k] == outs[k]);
                }
            }
            lemma_golden_prefix(cs, outs, o2, i as int);
            outs = o2;
        }
        if same_bytes(&actual, expected) {
            passed = passed + 1;
        } else {
            let ghost f0 = failures@;
            let diff = render_diff(expected.as_slice(), actual.as_slice());
            failures.push(Failure { case: name.clone(), diff });
            proof {
                assert(golden_view(failures@) =~= golden_view(f0).push((name@, diff_text(expected@, actual@))));
            }
        }
        i = i + 1;
    }
    Ok(Report { suite: String::from_str(suite), passed, failures })
}

proof fn lemma_golden_prefix(cs: Seq<CaseFiles>, a: Seq<Seq<u8>>, b: Seq<Seq<u8>>, k: int)
    requires
        0 <= k <= a.len(),
        k <= b.len(),
        forall|i: int| 0 <= i < k ==> a[i] == b[i],
    ensures
        golden_passed(cs, a, k) == golden_passed(cs, b, k),
        golden_failures(cs, a, k) == golden_failures(cs, b, k),
    decreases k,
{
    if k > 0 {
        lemma_golden_prefix(cs, a, b, k - 1);
    }
}

} // verus!
