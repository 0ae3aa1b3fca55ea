//! Conformance runner: official suites, scored per class.
//!
//! A blended pass rate rewards rejecting things: a parser that rejects every
//! input scores two thirds on a suite that is two thirds must-reject cases. So
//! a run is tallied per expectation class, and nothing here combines the
//! classes. Cases are run in name order so the failure list is stable.
use crate::corpus::{is_white, trim};
use crate::semantic::chars_of;
use crate::text::push_decimal;
use vstd::prelude::*;
use vstd::string::*;

verus! {

/// What the suite says should happen to a case.
#[derive(Debug, Clone, Copy, PartialEq, Eq, Structural)]
pub enum Expectation {
    /// The input is valid and must be accepted.
    MustAccept,
    /// The input is invalid and must be rejected.
    MustReject,
    /// The spec permits either. Scored and reported, never gated on.
    ImplementationDefined,
}

/// What the implementation actually did.
#[derive(Debug, Clone, Copy, PartialEq, Eq, Structural)]
pub enum Verdict {
    /// Produced a tree.
    Accepted,
    /// Refused, with diagnostics.
    Rejected,
}

/// One suite case.
#[derive(Debug)]
pub struct Case {
    /// Stable identifier, used in the published failure list.
    pub name: String,
    /// The exact bytes to feed the implementation.
    pub bytes: Vec<u8>,
    /// What the suite requires.
    pub expectation: Expectation,
}

/// Counts for one expectation class.
#[derive(Debug, Clone, Copy)]
pub struct Tally {
    /// Cases in this class.
    pub total: usize,
    /// Cases whose verdict matched.
    pub correct: usize,
}

impl Default for Tally {
    /// No cases.
    fn default() -> (r: Self)
        ensures
            r.total == 0 && r.correct == 0,
    {
        Tally { total: 0, correct: 0 }
    }
}

/// The outcome of running a suite.
#[derive(Debug)]
pub struct Report {
    /// Suite identifier, matching the thresholds file.
    pub suite: String,
    /// Valid inputs we were required to accept.
    pub accept: Tally,
    /// Invalid inputs we were required to reject.
    pub reject: Tally,
    /// Cases the spec leaves open. Reported, never gated.
    pub either: Tally,
    /// Every mismatch, in case order: the honest failure list.
    pub failures: Vec<(String, Expectation, Verdict)>,
}

// --- ordering cases by name -----------------------------------------------------

/// Lexicographic order on characters. UTF-8 encodes code points in an order
/// that preserves it, so this is also the byte-wise order of the names.
pub open spec fn text_le(a: Seq<char>, b: Seq<char>) -> bool
    decreases a.len(),
{
    if a.len() == 0 {
        true
    } else if b.len() == 0 {
        false
    } else if a[0] != b[0] {
        a[0] < b[0]
    } else {
        text_le(a.drop_first(), b.drop_first())
    }
}

/// The first index at or after `j` whose case name is not below `key`.
pub open spec fn first_not_below(t: Seq<Case>, key: Seq<char>, j: int) -> int
    decreases t.len() - j,
{
    if j < 0 || j >= t.len() {
        t.len() as int
    } else if text_le(key, t[j].name@) {
        j
    } else {
        first_not_below(t, key, j + 1)
    }
}

/// Cases sorted by name, stably: each case, from the last to the first, goes
/// in front of the first case whose name is not below its own.
pub open spec fn sorted_cases(s: Seq<Case>) -> Seq<Case>
    decreases s.len(),
{
    if s.len() == 0 {
        Seq::empty()
    } else {
        let t = sorted_cases(s.drop_first());
        t.insert(first_not_below(t, s[0].name@, 0), s[0])
    }
}

pub(crate) fn text_le_exec(a: &Vec<char>, b: &Vec<char>) -> (r: bool)
    ensures
        r == text_le(a@, b@),
{
    let mut i: usize = 0;
    proof {
        assert(a@.subrange(0, a@.len() as int) == a@);
        assert(b@.subrange(0, b@.len() as int) == b@);
    }
    while i < a.len() && i < b.len() && a[i] == b[i]
        invariant
            i <= a@.len(),
            i <= b@.len(),
            text_le(a@, b@) == text_le(a@.subrange(i as int, a@.len() as int), b@.subrange(i as int, b@.len() as int)),
        decreases a@.len() - i,
    {
        proof {
            let x = a@.subrange(i as int, a@.len() as int);
            let y = b@.subrange(i as int, b@.len() as int);
            assert(x.drop_first() == a@.subrange(i + 1, a@.len() as int));
            assert(y.drop_first() == b@.subrange(i + 1, b@.len() as int));
        }
        i = i + 1;
    }
    if i == a.len() {
        return true;
    }
    if i == b.len() {
        return false;
    }
    a[i] < b[i]
}

/// Sort cases by name, stably.
fn sort_by_name(cases: Vec<Case>) -> (r: Vec<Case>)
    ensures
        r@ == sorted_cases(cases@),
{
    let ghost orig = cases@;
    let mut cases = cases;
    let mut out: Vec<Case> = Vec::new();
    while cases.len() > 0
        invariant
            cases@ == orig.subrange(0, cases@.len() as int),
            cases@.len() <= orig.len(),
            out@ == sorted_cases(orig.subrange(cases@.len() as int, orig.len() as int)),
        decreases cases@.len(),
    {
        let ghost k = cases@.len();
        let x = cases.pop().unwrap();
        let key = chars_of(x.name.as_str());
        let mut pos: usize = 0;
        while pos < out.len() && !text_le_exec(&key, &chars_of(out[pos].name.as_str()))
            invariant
                pos <= out@.len(),
                first_not_below(out@, key@, 0) == first_not_below(out@, key@, pos as int),
            decreases out@.len() - pos,
        {
            pos = pos + 1;
        }
        proof {
            let suffix = orig.subrange(k - 1, orig.len() as int);
            assert(suffix.drop_first() == orig.subrange(k as int, orig.len() as int));
            assert(suffix[0] == x);
            assert(cases@ == orig.subrange(0, k - 1));
        }
        out.insert(pos, x);
    }
    proof {
        assert(orig.subrange(0, orig.len() as int) == orig);
    }
    out
}

// --- scoring --------------------------------------------------------------------

/// Whether `v` is a verdict `f` can give on bytes `b`.
pub open spec fn verdict_on<F: Fn(&[u8]) -> Verdict>(f: F, b: Seq<u8>, v: Verdict) -> bool {
    exists|x: &[u8]| x@ == b && call_ensures(f, (x,), v)
}

/// Cases of class `e` among the first `k`, and how many got the verdict the
/// class asks for (for implementation-defined cases: were accepted).
pub open spec fn tally_spec(s: Seq<Case>, vs: Seq<Verdict>, e: Expectation, k: int) -> (nat, nat)
    decreases k,
{
    if k <= 0 {
        (0, 0)
    } else {
        let (t, c) = tally_spec(s, vs, e, k - 1);
        if s[k - 1].expectation != e {
            (t, c)
        } else {
            let good = match e {
                Expectation::MustReject => vs[k - 1] == Verdict::Rejected,
                _ => vs[k - 1] == Verdict::Accepted,
            };
            (t + 1, if good { c + 1 } else { c })
        }
    }
}

/// The mismatches among the first `k` cases: a must-accept case rejected, or
/// a must-reject case accepted. Implementation-defined cases never fail.
pub open spec fn failures_spec(s: Seq<Case>, vs: Seq<Verdict>, k: int) -> Seq<(Seq<char>, Expectation, Verdict)>
    decreases k,
{
    if k <= 0 {
        Seq::empty()
    } else {
        let f = failures_spec(s, vs, k - 1);
        let failed = match s[k - 1].expectation {
            Expectation::MustAccept => vs[k - 1] != Verdict::Accepted,
            Expectation::MustReject => vs[k - 1] != Verdict::Rejected,
            Expectation::ImplementationDefined => false,
        };
        if failed { f.push((s[k - 1].name@, s[k - 1].expectation, vs[k - 1])) } else { f }
    }
}

/// A failure list, viewed.
pub open spec fn failures_view(f: Seq<(String, Expectation, Verdict)>) -> Seq<(Seq<char>, Expectation, Verdict)> {
    Seq::new(f.len(), |i: int| (f[i].0@, f[i].1, f[i].2))
}

/// Whether `r` is the report of running the sorted cases `s` with verdicts `vs`.
pub open spec fn scores(r: Report, suite: Seq<char>, s: Seq<Case>, vs: Seq<Verdict>) -> bool {
    let n = s.len() as int;
    &&& r.suite@ == suite
    &&& (r.accept.total as nat, r.accept.correct as nat) == tally_spec(s, vs, Expectation::MustAccept, n)
    &&& (r.reject.total as nat, r.reject.correct as nat) == tally_spec(s, vs, Expectation::MustReject, n)
    &&& (r.either.total as nat, r.either.correct as nat) == tally_spec(s, vs, Expectation::ImplementationDefined, n)
    &&& failures_view(r.failures@) == failures_spec(s, vs, n)
}

proof fn lemma_tally_bound(s: Seq<Case>, vs: Seq<Verdict>, e: Expectation, k: int)
    requires
        k >= 0,
    ensures
        tally_spec(s, vs, e, k).1 <= tally_spec(s, vs, e, k).0 <= k,
    decreases k,
{
    if k > 0 {
        lemma_tally_bound(s, vs, e, k - 1);
    }
}

/// Run `cases` through `verdict`, in name order, tallying each class apart.
pub fn run<F: Fn(&[u8]) -> Verdict>(suite: &str, cases: Vec<Case>, verdict: F) -> (r: Report)
    requires
        forall|b: &[u8]| call_requires(verdict, (b,)),
    ensures
        ({
            let s = sorted_cases(cases@);
            exists|vs: Seq<Verdict>| vs.len() == s.len()
                && (forall|i: int| 0 <= i < s.len() ==> verdict_on(verdict, s[i].bytes@, #[trigger] vs[i]))
                && scores(r, suite@, s, vs)
        }),
{
    let sorted = sort_by_name(cases);
    let ghost s = sorted@;
    let mut accept = Tally::default();
    let mut reject = Tally::default();
    let mut either = Tally::default();
    let mut failures: Vec<(String, Expectation, Verdict)> = Vec::new();
    let ghost mut vs: Seq<Verdict> = Seq::empty();
    let mut i: usize = 0;
    while i < sorted.len()
        invariant
            s == sorted@,
            forall|b: &[u8]| call_requires(verdict, (b,)),
            i <= s.len(),
            vs.len() == i,
            forall|k: int| 0 <= k < i ==> verdict_on(verdict, s[k].bytes@, #[trigger] vs[k]),
            (accept.total as nat, accept.correct as nat) == tally_spec(s, vs, Expectation::MustAccept, i as int),
            (reject.total as nat, reject.correct as nat) == tally_spec(s, vs, Expectation::MustReject, i as int),
            (either.total as nat, either.correct as nat) == tally_spec(s, vs, Expectation::ImplementationDefined, i as int),
            failures_view(failures@) == failures_spec(s, vs, i as int),
        decreases s.len() - i,
    {
        let case = &sorted[i];
        let bytes = case.bytes.as_slice();
        let got = verdict(bytes);
        proof {
            lemma_tally_bound(s, vs, Expectation::MustAccept, i as int);
            lemma_tally_bound(s, vs, Expectation::MustReject, i as int);
            lemma_tally_bound(s, vs, Expectation::ImplementationDefined, i as int);
            let vs2 = vs.push(got);
            assert(verdict_on(verdict, s[i as int].bytes@, got));
            assert forall|k: int| 0 <= k < i + 1 implies verdict_on(verdict, s[k].bytes@, #[trigger] vs2[k]) by {
                if k < i {
                    assert(vs2[k] == vs[k]);
                }
            }
            assert forall|e: Expectation| tally_spec(s, vs2, e, i as int) == tally_spec(s, vs, e, i as int) by {
                lemma_tally_prefix(s, vs, vs2, e, i as int);
            }
            lemma_failures_prefix(s, vs, vs2, i as int);
            vs = vs2;
        }
        let ghost f0 = failures@;
        match case.expectation {
            Expectation::MustAccept => {
                accept.total = accept.total + 1;
                if got == Verdict::Accepted {
                    accept.correct = accept.correct + 1;
                } else {
                    failures.push((case.name.clone(), case.expectation, got));
                }
            },
            Expectation::MustReject => {
                reject.total = reject.total + 1;
                if got == Verdict::Rejected {
                    reject.correct = reject.correct + 1;
                } else {
                    failures.push((case.name.clone(), case.expectation, got));
                }
            },
            Expectation::ImplementationDefined => {
                either.total = either.total + 1;
                if got == Verdict::Accepted {
                    either.correct = either.correct + 1;
                }
            },
        }
        proof {
            if failures@.len() > f0.len() {
                assert(failures_view(failures@) =~= failures_view(f0).push((s[i as int].name@, s[i as int].expectation, got)));
            } else {
                assert(failures_view(failures@) =~= failures_view(f0));
            }
        }
        i = i + 1;
    }
    Report { suite: String::from_str(suite), accept, reject, either, failures }
}

proof fn lemma_tally_prefix(s: Seq<Case>, a: Seq<Verdict>, b: Seq<Verdict>, e: Expectation, k: int)
    requires
        0 <= k <= a.len(),
        k <= b.len(),
        forall|i: int| 0 <= i < k ==> a[i] == b[i],
    ensures
        tally_spec(s, a, e, k) == tally_spec(s, b, e, k),
    decreases k,
{
    if k > 0 {
        lemma_tally_prefix(s, a, b, e, k - 1);
    }
}

proof fn lemma_failures_prefix(s: Seq<Case>, a: Seq<Verdict>, b: Seq<Verdict>, k: int)
    requires
        0 <= k <= a.len(),
        k <= b.len(),
        forall|i: int| 0 <= i < k ==> a[i] == b[i],
    ensures
        failures_spec(s, a, k) == failures_spec(s, b, k),
    decreases k,
{
    if k > 0 {
        lemma_failures_prefix(s, a, b, k - 1);
    }
}

// --- the published failure list -------------------------------------------------

/// The `Debug` spelling of an expectation.
pub open spec fn expectation_name(e: Expectation) -> Seq<char> {
    match e {
        Expectation::MustAccept => "MustAccept"@,
        Expectation::MustReject => "MustReject"@,
        Expectation::ImplementationDefined => "ImplementationDefined"@,
    }
}

/// The `Debug` spelling of a verdict.
pub open spec fn verdict_name(v: Verdict) -> Seq<char> {
    match v {
        Verdict::Accepted => "Accepted"@,
        Verdict::Rejected => "Rejected"@,
    }
}

/// One line of the failure list.
pub open spec fn failure_line(f: (Seq<char>, Expectation, Verdict)) -> Seq<char> {
    "    "@ + f.0 + ": expected "@ + expectation_name(f.1) + ", got "@ + verdict_name(f.2) + "\n"@
}

/// The first `k` lines of the failure list.
pub open spec fn failure_lines(fs: Seq<(Seq<char>, Expectation, Verdict)>, k: int) -> Seq<char>
    decreases k,
{
    if k <= 0 || k > fs.len() { Seq::empty() } else { failure_lines(fs, k - 1) + failure_line(fs[k - 1]) }
}

/// The published failure list: at most `limit` lines, then a count of the rest.
pub open spec fn failure_list_spec(fs: Seq<(Seq<char>, Expectation, Verdict)>, limit: nat) -> Seq<char> {
    if fs.len() > limit {
        failure_lines(fs, limit as int) + "    ... and "@ + crate::text::decimal((fs.len() - limit) as nat) + " more\n"@
    } else {
        failure_lines(fs, fs.len() as int)
    }
}

fn expectation_str(e: Expectation) -> (r: &'static str)
    ensures
        r@ == expectation_name(e),
{
    match e {
        Expectation::MustAccept => "MustAccept",
        Expectation::MustReject => "MustReject",
        Expectation::ImplementationDefined => "ImplementationDefined",
    }
}

fn verdict_str(v: Verdict) -> (r: &'static str)
    ensures
        r@ == verdict_name(v),
{
    match v {
        Verdict::Accepted => "Accepted",
        Verdict::Rejected => "Rejected",
    }
}

impl Report {
    /// Render the failure list for publication: one line per failure, at most
    /// `limit` of them, then how many more there were.
    pub fn failure_list(&self, limit: usize) -> (r: String)
        ensures
            r@ == failure_list_spec(failures_view(self.failures@), limit as nat),
    {
        let ghost fs = failures_view(self.failures@);
        let mut out = String::new();
        let mut i: usize = 0;
        while i < self.failures.len() && i < limit
            invariant
                fs == failures_view(self.failures@),
                i <= self.failures@.len(),
                i <= limit,
                out@ == failure_lines(fs, i as int),
            decreases self.failures@.len() - i,
        {
            let (name, expected, got) = &self.failures[i];
            let ghost o = out@;
            out.append("    ");
            out.append(name.as_str());
            out.append(": expected ");
            out.append(expectation_str(*expected));
            out.append(", got ");
            out.append(verdict_str(*got));
            out.append("\n");
            proof {
                assert(fs[i as int] == (name@, *expected, *got));
                assert(out@ =~= o + failure_line(fs[i as int]));
            }
            i = i + 1;
        }
        if self.failures.len() > limit {
            out.append("    ... and ");
            push_decimal(&mut out, (self.failures.len() - limit) as u64);
            out.append(" more\n");
        }
        out
    }
}

// --- what every run keeps -------------------------------------------------------

/// Implementation-defined cases never fail, whatever the verdicts: the spec
/// permits either answer, so gating on one would invent a requirement. Every
/// listed failure is a must-accept case rejected or a must-reject case accepted.
pub proof fn lemma_failures_are_real_mismatches(s: Seq<Case>, vs: Seq<Verdict>, k: int)
    ensures
        forall|i: int| 0 <= i < failures_spec(s, vs, k).len() ==> {
            let f = #[trigger] failures_spec(s, vs, k)[i];
            (f.1 == Expectation::MustAccept && f.2 == Verdict::Rejected)
                || (f.1 == Expectation::MustReject && f.2 == Verdict::Accepted)
        },
    decreases k,
{
    if k > 0 {
        lemma_failures_are_real_mismatches(s, vs, k - 1);
        let f = failures_spec(s, vs, k - 1);
        assert forall|i: int| 0 <= i < failures_spec(s, vs, k).len() implies {
            let x = #[trigger] failures_spec(s, vs, k)[i];
            (x.1 == Expectation::MustAccept && x.2 == Verdict::Rejected)
                || (x.1 == Expectation::MustReject && x.2 == Verdict::Accepted)
        } by {
            if i < f.len() {
                assert(failures_spec(s, vs, k)[i] == f[i]);
            }
        }
    }
}

/// A class tally only counts its own class: accepted implementation-defined
/// cases never raise the must-accept score, and a parser that rejects
/// everything scores zero correct on must-accept cases.
pub proof fn lemma_reject_all_scores_zero_on_accept(s: Seq<Case>, vs: Seq<Verdict>, k: int)
    requires
        0 <= k <= vs.len(),
        forall|i: int| 0 <= i < vs.len() ==> vs[i] == Verdict::Rejected,
    ensures
        tally_spec(s, vs, Expectation::MustAccept, k).1 == 0,
        tally_spec(s, vs, Expectation::MustReject, k).1 == tally_spec(s, vs, Expectation::MustReject, k).0,
    decreases k,
{
    if k > 0 {
        lemma_reject_all_scores_zero_on_accept(s, vs, k - 1);
    }
}

/// `text_le` is reflexive.
pub(crate) proof fn lemma_text_le_refl(a: Seq<char>)
    ensures
        text_le(a, a),
    decreases a.len(),
{
    if a.len() > 0 {
        lemma_text_le_refl(a.drop_first());
    }
}

/// `text_le` is total.
pub(crate) proof fn lemma_text_le_total(a: Seq<char>, b: Seq<char>)
    ensures
        text_le(a, b) || text_le(b, a),
    decreases a.len(),
{
    if a.len() > 0 && b.len() > 0 && a[0] == b[0] {
        lemma_text_le_total(a.drop_first(), b.drop_first());
    }
}

/// `text_le` is transitive.
pub(crate) proof fn lemma_text_le_trans(a: Seq<char>, b: Seq<char>, c: Seq<char>)
    requires
        text_le(a, b),
        text_le(b, c),
    ensures
        text_le(a, c),
    decreases a.len(),
{
    if a.len() > 0 && b.len() > 0 && c.len() > 0 && a[0] == b[0] && b[0] == c[0] {
        lemma_text_le_trans(a.drop_first(), b.drop_first(), c.drop_first());
    }
}

/// Whether cases are in name order.
pub open spec fn names_sorted(t: Seq<Case>) -> bool {
    forall|i: int, j: int| 0 <= i < j < t.len() ==> text_le(#[trigger] t[i].name@, #[trigger] t[j].name@)
}

proof fn lemma_first_not_below(t: Seq<Case>, key: Seq<char>, j: int)
    requires
        0 <= j <= t.len(),
    ensures
        j <= first_not_below(t, key, j) <= t.len(),
        forall|i: int| j <= i < first_not_below(t, key, j) ==> !text_le(key, #[trigger] t[i].name@),
        first_not_below(t, key, j) < t.len() ==> text_le(key, t[first_not_below(t, key, j)].name@),
    decreases t.len() - j,
{
    if j < t.len() && !text_le(key, t[j].name@) {
        lemma_first_not_below(t, key, j + 1);
    }
}

/// The failure list is in name order: cases are sorted by name before they
/// run, and sorting keeps every case.
pub proof fn lemma_cases_sorted(s: Seq<Case>)
    ensures
        names_sorted(sorted_cases(s)),
        sorted_cases(s).to_multiset() == s.to_multiset(),
    decreases s.len(),
{
    if s.len() > 0 {
        let rest = s.drop_first();
        lemma_cases_sorted(rest);
        let t = sorted_cases(rest);
        let x = s[0];
        let pos = first_not_below(t, x.name@, 0);
        lemma_first_not_below(t, x.name@, 0);
        let u = t.insert(pos, x);
        assert forall|i: int, j: int| 0 <= i < j < u.len() implies text_le(#[trigger] u[i].name@, #[trigger] u[j].name@) by {
            if j < pos {
                assert(u[i] == t[i] && u[j] == t[j]);
            } else if j == pos {
                assert(u[i] == t[i] && u[j] == x);
                assert(!text_le(x.name@, t[i].name@));
                lemma_text_le_total(x.name@, t[i].name@);
            } else if i == pos {
                assert(u[i] == x && u[j] == t[j - 1]);
                if pos < t.len() {
                    if j - 1 > pos {
                        assert(text_le(t[pos].name@, t[j - 1].name@));
                        lemma_text_le_trans(x.name@, t[pos].name@, t[j - 1].name@);
                    }
                }
            } else if i < pos {
                assert(u[i] == t[i] && u[j] == t[j - 1]);
            } else {
                assert(u[i] == t[i - 1] && u[j] == t[j - 1]);
            }
        }
        let a = t.subrange(0, pos);
        let b = t.subrange(pos, t.len() as int);
        assert(u == a + seq![x] + b);
        assert(t == a + b);
        vstd::seq_lib::lemma_multiset_commutative(a + seq![x], b);
        vstd::seq_lib::lemma_multiset_commutative(a, seq![x]);
        vstd::seq_lib::lemma_multiset_commutative(a, b);
        vstd::seq_lib::lemma_multiset_commutative(seq![x], rest);
        assert(s == seq![x] + rest);
        assert(u.to_multiset() =~= s.to_multiset());
        assert(sorted_cases(s) == u);
    } else {
        broadcast use vstd::seq_lib::group_to_multiset_ensures;
        assert(sorted_cases(s) =~= s);
    }
}


// --- the thresholds file ----------------------------------------------------------------

/// Where the word starting at `i` ends: at white space or the end.
pub open spec fn word_end(s: Seq<char>, i: int) -> int
    decreases s.len() - i,
{
    if 0 <= i < s.len() && !is_white(s[i]) { word_end(s, i + 1) } else { i }
}

/// The white-space-separated words of `s` from `i`, as `str::split_whitespace`
/// yields them.
pub open spec fn words_from(s: Seq<char>, i: int) -> Seq<Seq<char>>
    decreases s.len() - i,
{
    if i < 0 || i >= s.len() {
        Seq::empty()
    } else if is_white(s[i]) {
        words_from(s, i + 1)
    } else {
        let e = word_end(s, i);
        if i < e <= s.len() { seq![s.subrange(i, e)] + words_from(s, e) } else { Seq::empty() }
    }
}

/// One record of a thresholds file: a suite, a class and a value, each as written.
pub type Record = (Seq<char>, Seq<char>, Seq<char>);

/// The records of the lines from `i` on, in order, up to the first line that
/// is neither blank, a `#` comment, nor three words; that line, trimmed, is
/// returned too.
pub open spec fn records_from(ls: Seq<Seq<char>>, i: int) -> (Seq<Record>, Option<Seq<char>>)
    decreases ls.len() - i,
{
    if i < 0 || i >= ls.len() {
        (Seq::empty(), None)
    } else {
        let t = trim(ls[i]);
        if t.len() == 0 || t[0] == '#' {
            records_from(ls, i + 1)
        } else {
            let ws = words_from(t, 0);
            if ws.len() < 3 {
                (Seq::empty(), Some(t))
            } else {
                let (r, e) = records_from(ls, i + 1);
                (seq![(ws[0], ws[1], ws[2])] + r, e)
            }
        }
    }
}

/// Records, viewed.
pub open spec fn records_view(v: Seq<(String, String, String)>) -> Seq<Record> {
    Seq::new(v.len(), |i: int| (v[i].0@, v[i].1@, v[i].2@))
}

/// The words of `cs`, from `i` on.
fn words_exec(cs: &Vec<char>) -> (r: Vec<String>)
    ensures
        crate::text::views_of(r@) == words_from(cs@, 0),
{
    let n = cs.len();
    let mut out: Vec<String> = Vec::new();
    let mut i: usize = 0;
    proof {
        assert(crate::text::views_of(out@) =~= Seq::<Seq<char>>::empty());
    }
    while i < n
        invariant
            n == cs@.len(),
            i <= n,
            crate::text::views_of(out@) + words_from(cs@, i as int) == words_from(cs@, 0),
        decreases n - i,
    {
        if crate::corpus::is_white_exec(cs[i]) {
            i = i + 1;
        } else {
            let mut j = i;
            while j < n && !crate::corpus::is_white_exec(cs[j])
                invariant
                    n == cs@.len(),
                    i <= j <= n,
                    word_end(cs@, i as int) == word_end(cs@, j as int),
                decreases n - j,
            {
                j = j + 1;
            }
            let w = crate::corpus::string_of_range(cs, i, j);
            let ghost before = out@;
            out.push(w);
            proof {
                assert(crate::text::views_of(out@) =~= crate::text::views_of(before).push(w@));
                let rest = words_from(cs@, j as int);
                assert(words_from(cs@, i as int) == seq![cs@.subrange(i as int, j as int)] + rest);
                vstd::seq_lib::lemma_concat_associative(crate::text::views_of(before), seq![w@], rest);
                assert(crate::text::views_of(before).push(w@) =~= crate::text::views_of(before) + seq![w@]);
            }
            i = j;
        }
    }
    proof {
        assert(crate::text::views_of(out@) + Seq::<Seq<char>>::empty() =~= crate::text::views_of(out@));
    }
    out
}

/// The records of a thresholds file: every line that is not blank or a `#`
/// comment is a suite, a class and a value (`unrecorded`, or a rate), in
/// that order. Reading stops at the first line with fewer than three words,
/// which comes back, trimmed, beside the records before it.
pub fn threshold_records(text: &str) -> (r: (Vec<(String, String, String)>, Option<String>))
    ensures
        records_view(r.0@) == records_from(crate::corpus::lines_spec(text@), 0).0,
        match records_from(crate::corpus::lines_spec(text@), 0).1 {
            None => r.1 is None,
            Some(l) => r.1 matches Some(x) && x@ == l,
        },
{
    let lines = crate::corpus::lines_of(text);
    let ghost ls = crate::corpus::lines_spec(text@);
    let mut out: Vec<(String, String, String)> = Vec::new();
    let mut k: usize = 0;
    proof {
        assert(records_view(out@) =~= Seq::<Record>::empty());
    }
    while k < lines.len()
        invariant
            ls == crate::corpus::lines_spec(text@),
            lines@.len() == ls.len(),
            forall|i: int| 0 <= i < lines@.len() ==> (#[trigger] lines@[i])@ == ls[i],
            k <= lines@.len(),
            records_view(out@) + records_from(ls, k as int).0 == records_from(ls, 0).0,
            records_from(ls, k as int).1 == records_from(ls, 0).1,
        decreases lines@.len() - k,
    {
        let line = &lines[k];
        let (a, b) = crate::corpus::trim_range(line, 0, line.len());
        proof {
            assert(line@.subrange(0, line@.len() as int) == line@);
        }
        let mut t: Vec<char> = Vec::new();
        let mut j = a;
        while j < b
            invariant
                a <= j <= b <= line@.len(),
                t@ == line@.subrange(a as int, j as int),
            decreases b - j,
        {
            t.push(line[j]);
            proof {
                assert(t@ =~= line@.subrange(a as int, j + 1));
            }
            j = j + 1;
        }
        proof {
            assert(t@ == trim(ls[k as int]));
        }
        if t.len() == 0 || t[0] == '#' {
            k = k + 1;
            continue;
        }
        let ws = words_exec(&t);
        proof {
            assert(ws@.len() == words_from(t@, 0).len());
        }
        if ws.len() < 3 {
            let mut l = String::new();
            let mut m: usize = 0;
            while m < t.len()
                invariant
                    m <= t@.len(),
                    l@ == t@.take(m as int),
                decreases t@.len() - m,
            {
                crate::text::push_char(&mut l, t[m]);
                proof {
                    assert(l@ =~= t@.take(m + 1));
                }
                m = m + 1;
            }
            proof {
                assert(t@.take(t@.len() as int) == t@);
                assert(records_from(ls, k as int) == (Seq::<Record>::empty(), Some(t@)));
                assert(records_view(out@) + Seq::<Record>::empty() =~= records_view(out@));
            }
            return (out, Some(l));
        }
        let ghost before = out@;
        let suite = ws[0].clone();
        let class = ws[1].clone();
        let value = ws[2].clone();
        proof {
            assert(ws@[0]@ == words_from(t@, 0)[0]);
            assert(ws@[1]@ == words_from(t@, 0)[1]);
            assert(ws@[2]@ == words_from(t@, 0)[2]);
        }
        out.push((suite, class, value));
        proof {
            let rec = (words_from(t@, 0)[0], words_from(t@, 0)[1], words_from(t@, 0)[2]);
            assert(records_view(out@) =~= records_view(before) + seq![rec]);
            vstd::seq_lib::lemma_concat_associative(records_view(before), seq![rec], records_from(ls, k + 1).0);
        }
        k = k + 1;
    }
    proof {
        assert(records_view(out@) + Seq::<Record>::empty() =~= records_view(out@));
    }
    (out, None)
}

/// The first record at or after `i` for `suite` and `class`, or -1.
pub open spec fn first_record(rs: Seq<Record>, suite: Seq<char>, class: Seq<char>, i: int) -> int
    decreases rs.len() - i,
{
    if i < 0 || i >= rs.len() {
        -1
    } else if rs[i].0 == suite && rs[i].1 == class {
        i
    } else {
        first_record(rs, suite, class, i + 1)
    }
}

/// The first record for `suite` and `class`: the one the ratchet holds a run to.
pub fn find_record(records: &Vec<(String, String, String)>, suite: &str, class: &str) -> (r: Option<usize>)
    ensures
        match r {
            None => first_record(records_view(records@), suite@, class@, 0) == -1,
            Some(i) => first_record(records_view(records@), suite@, class@, 0) == i,
        },
{
    let ghost rs = records_view(records@);
    let mut i: usize = 0;
    while i < records.len()
        invariant
            rs == records_view(records@),
            i <= records@.len(),
            first_record(rs, suite@, class@, 0) == first_record(rs, suite@, class@, i as int),
        decreases records@.len() - i,
    {
        if crate::cli::same_text(records[i].0.as_str(), suite) && crate::cli::same_text(records[i].1.as_str(), class) {
            return Some(i);
        }
        i = i + 1;
    }
    None
}

} // verus!
