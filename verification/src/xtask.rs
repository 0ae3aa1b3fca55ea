//! Repository chores that decide something: byte-comparing two runs for the
//! determinism gate, spotting an anchor or alias sigil for the corpus
//! survey, the accept/reject verdict the conformance report publishes, and
//! the one-line explanation of a file's semantic view. Reading files,
//! hashing them and walking the corpus belong to the harness.
use crate::conformance::Verdict;
use crate::corpus::is_white;
use crate::cst::Cst;
use crate::format::{Format, Yaml};
use crate::report::ParseReport;
use crate::semantic::chars_of;
use crate::text::{decimal, push_decimal};
use vstd::prelude::*;
use vstd::string::*;

verus! {

// --- assert-equal ----------------------------------------------------------------------

/// Where two byte strings first differ: the first position where both have
/// a byte and the bytes differ, else the shorter length.
pub open spec fn difference_at_spec(a: Seq<u8>, b: Seq<u8>) -> int
    decreases (if a.len() < b.len() { a.len() } else { b.len() }),
{
    if a.len() == 0 || b.len() == 0 {
        0
    } else if a[0] != b[0] {
        0
    } else {
        1 + difference_at_spec(a.drop_first(), b.drop_first())
    }
}

/// Where two byte strings first differ.
pub fn difference_at(a: &[u8], b: &[u8]) -> (r: usize)
    ensures
        r == difference_at_spec(a@, b@),
{
    let n = if a.len() < b.len() { a.len() } else { b.len() };
    let mut i: usize = 0;
    proof {
        assert(a@.skip(0) =~= a@);
        assert(b@.skip(0) =~= b@);
    }
    while i < n && a[i] == b[i]
        invariant
            n <= a@.len(),
            n <= b@.len(),
            n == a@.len() || n == b@.len(),
            i <= n,
            difference_at_spec(a@, b@) == i + difference_at_spec(a@.skip(i as int), b@.skip(i as int)),
        decreases n - i,
    {
        proof {
            assert(a@.skip(i as int).drop_first() =~= a@.skip(i + 1));
            assert(b@.skip(i as int).drop_first() =~= b@.skip(i + 1));
            assert(a@.skip(i as int)[0] == a@[i as int]);
            assert(b@.skip(i as int)[0] == b@[i as int]);
        }
        i = i + 1;
    }
    proof {
        if i < n {
            assert(a@.skip(i as int)[0] == a@[i as int]);
            assert(b@.skip(i as int)[0] == b@[i as int]);
        } else {
            assert(a@.skip(i as int).len() == 0 || b@.skip(i as int).len() == 0);
        }
    }
    i
}

/// The verdict on two runs' outputs `a` and `b`, given their hashes:
/// identical, or a determinism violation naming the first differing byte.
pub open spec fn compare_runs_spec(a: Seq<char>, b: Seq<char>, left: Seq<u8>, right: Seq<u8>, lh: Seq<char>, rh: Seq<char>) -> Result<
    Seq<char>,
    Seq<char>,
> {
    if left == right {
        Ok("identical: "@ + a + " == "@ + b + " ("@ + decimal(left.len()) + " bytes, sha256 "@ + lh + ")\n"@)
    } else {
        Err("DETERMINISM VIOLATION\n  "@ + a + ": "@ + decimal(left.len()) + " bytes, sha256 "@ + lh + "\n  "@ + b + ": "@ + decimal(
            right.len(),
        ) + " bytes, sha256 "@ + rh + "\n  first difference at byte "@ + decimal(difference_at_spec(left, right) as nat)
            + "\n\nTwo runs of the same code on the same input produced different bytes.\nThis is invariant K3 (MASTER_PLAN \u{a7}3.1) and it is not negotiable.\n\nIn the code: HashMap iteration in an output path, a wall-clock read, an\nunstable sort, a platform path separator, or locale-dependent formatting\n(MASTER_PLAN \u{a7}9.5).\n\nIn the harness: check the two runs actually had the same input. Writing\nrun one's output into the directory run two reads will fail here and\nprove nothing about the code."@)
    }
}

proof fn lemma_difference_at_bound(a: Seq<u8>, b: Seq<u8>)
    ensures
        0 <= difference_at_spec(a, b) <= a.len(),
        difference_at_spec(a, b) <= b.len(),
        a.len() == b.len() && difference_at_spec(a, b) == a.len() ==> a == b,
    decreases (if a.len() < b.len() { a.len() } else { b.len() }),
{
    if a.len() > 0 && b.len() > 0 && a[0] == b[0] {
        lemma_difference_at_bound(a.drop_first(), b.drop_first());
        if a.len() == b.len() && difference_at_spec(a, b) == a.len() {
            assert(a =~= seq![a[0]] + a.drop_first());
            assert(b =~= seq![b[0]] + b.drop_first());
        }
    }
}

/// Byte-compare two runs' outputs, named `a` and `b`, whose hashes are
/// `left_hash` and `right_hash`.
pub fn compare_runs(a: &str, b: &str, left: &[u8], right: &[u8], left_hash: &str, right_hash: &str) -> (r: Result<String, String>)
    ensures
        match r {
            Ok(s) => compare_runs_spec(a@, b@, left@, right@, left_hash@, right_hash@) == Ok::<Seq<char>, Seq<char>>(s@),
            Err(s) => compare_runs_spec(a@, b@, left@, right@, left_hash@, right_hash@) == Err::<Seq<char>, Seq<char>>(s@),
        },
{
    let at = difference_at(left, right);
    proof {
        lemma_difference_at_bound(left@, right@);
    }
    let same = left.len() == right.len() && at == left.len();
    proof {
        if left@ == right@ {
            assert(difference_at_spec(left@, right@) == left@.len()) by {
                lemma_self_difference(left@);
            }
        }
    }
    if same {
        let mut out = String::from_str("identical: ");
        out.append(a);
        out.append(" == ");
        out.append(b);
        out.append(" (");
        push_decimal(&mut out, left.len() as u64);
        out.append(" bytes, sha256 ");
        out.append(left_hash);
        out.append(")\n");
        proof {
            assert(out@ =~= "identical: "@ + a@ + " == "@ + b@ + " ("@ + decimal(left@.len()) + " bytes, sha256 "@ + left_hash@ + ")\n"@);
        }
        return Ok(out);
    }
    let mut out = String::from_str("DETERMINISM VIOLATION\n  ");
    out.append(a);
    out.append(": ");
    push_decimal(&mut out, left.len() as u64);
    out.append(" bytes, sha256 ");
    out.append(left_hash);
    out.append("\n  ");
    out.append(b);
    out.append(": ");
    push_decimal(&mut out, right.len() as u64);
    out.append(" bytes, sha256 ");
    out.append(right_hash);
    out.append("\n  first difference at byte ");
    push_decimal(&mut out, at as u64);
    out.append(
        "\n\nTwo runs of the same code on the same input produced different bytes.\nThis is invariant K3 (MASTER_PLAN \u{a7}3.1) and it is not negotiable.\n\nIn the code: HashMap iteration in an output path, a wall-clock read, an\nunstable sort, a platform path separator, or locale-dependent formatting\n(MASTER_PLAN \u{a7}9.5).\n\nIn the harness: check the two runs actually had the same input. Writing\nrun one's output into the directory run two reads will fail here and\nprove nothing about the code.",
    );
    Err(out)
}

proof fn lemma_self_difference(a: Seq<u8>)
    ensures
        difference_at_spec(a, a) == a.len(),
    decreases a.len(),
{
    if a.len() > 0 {
        lemma_self_difference(a.drop_first());
    }
}

// --- the survey's sigil probe --------------------------------------------------------------

/// Whether `t` holds a whitespace-separated word that starts with `sigil`
/// and is longer than one byte: an anchor (`&`) or alias (`*`) sigil used
/// as one, rather than standing alone.
pub open spec fn contains_token_spec(t: Seq<char>, sigil: char) -> bool {
    exists|i: int| #[trigger] token_at(t, i, sigil)
}

/// Whether a word longer than one byte starts at `i` of `t` with `sigil`.
pub open spec fn token_at(t: Seq<char>, i: int, sigil: char) -> bool {
    &&& 0 <= i < t.len()
    &&& (i == 0 || is_white(t[i - 1]))
    &&& t[i] == sigil
    &&& ((i + 1 < t.len() && !is_white(t[i + 1])) || sigil as u32 >= 0x80)
}

/// Whether `text` uses `sigil` as an anchor or alias sigil: a word of one of
/// its lines starts with it and is longer than one byte.
pub fn contains_token(text: &str, sigil: char) -> (r: bool)
    requires
        !is_white(sigil),
    ensures
        r == contains_token_spec(text@, sigil),
{
    let t = chars_of(text);
    let wide = sigil as u32 >= 0x80;
    let mut i: usize = 0;
    while i < t.len()
        invariant
            t@ == text@,
            i <= t@.len(),
            wide == (sigil as u32 >= 0x80),
            forall|k: int| 0 <= k < i ==> !#[trigger] token_at(t@, k, sigil),
        decreases t@.len() - i,
    {
        let starts = i == 0 || crate::corpus::is_white_exec(t[i - 1]);
        if starts && t[i] == sigil {
            let longer = wide || (i + 1 < t.len() && !crate::corpus::is_white_exec(t[i + 1]));
            if longer {
                proof {
                    assert(token_at(t@, i as int, sigil));
                }
                return true;
            }
        }
        i = i + 1;
    }
    proof {
        assert forall|k: int| !#[trigger] token_at(t@, k, sigil) by {
            if 0 <= k < i {
            }
        }
    }
    false
}

// --- conformance and coverage -----------------------------------------------------------

/// The verdict a parse result comes to: accepted when it is a tree,
/// rejected when it is a refusal.
pub fn verdict_of(parsed: &Result<Cst, ParseReport>) -> (r: Verdict)
    ensures
        r == (if parsed is Ok { Verdict::Accepted } else { Verdict::Rejected }),
{
    match parsed {
        Ok(_) => Verdict::Accepted,
        Err(_) => Verdict::Rejected,
    }
}

/// The conformance verdict of a format on some bytes: accepted when it
/// produces a tree, rejected when it refuses. Which of the two the format's
/// own parse decides; [`verdict_of`] says what each result comes to.
pub fn verdict<F: Format>(format: &F, bytes: &[u8]) -> (r: Verdict)
    requires
        bytes@.len() <= u32::MAX,
    ensures
        r == (if format.accepts(bytes@) { Verdict::Accepted } else { Verdict::Rejected }),
{
    let parsed = format.parse(bytes);
    verdict_of(&parsed)
}

/// The explanation of one YAML file's semantic view: `modelled`, or the
/// reason it is refused, or that it does not parse, with the number of
/// diagnostics.
pub fn explain(bytes: &[u8]) -> (r: Result<String, String>)
    requires
        bytes@.len() <= u32::MAX,
    ensures
        r is Err <==> !crate::yaml::yaml_accepts(bytes@),
        r matches Err(s) ==> s@ == "does not parse ("@ + decimal(crate::yaml::yaml_refusals(bytes@)) + " diagnostics)"@,
        r matches Ok(s) ==> exists|c: Cst| #![trigger crate::semantic::nodes_meaning(c.root_node())]
            c.text() == bytes@ && crate::yaml::yaml_tree(bytes@, crate::yaml::yaml_tokens(bytes@), crate::yaml::yaml_lines(bytes@), c.root_node())
                && match crate::semantic::nodes_meaning(c.root_node()) {
                    Ok(_) => s@ == "modelled\n"@,
                    Err(why) => s@ == "refused: "@ + why + "\n"@,
                },
{
    let yaml = Yaml;
    let cst = match yaml.parse(bytes) {
        Ok(c) => c,
        Err(report) => {
            let n = report.diagnostics().len();
            let mut m = String::from_str("does not parse (");
            push_decimal(&mut m, n as u64);
            m.append(" diagnostics)");
            proof {
                assert(m@ =~= "does not parse ("@ + decimal(n as nat) + " diagnostics)"@);
            }
            return Err(m);
        },
    };
    let ghost root = cst.root_node();
    match yaml.semantic_view(&cst) {
        Ok(_) => {
            let m = String::from_str("modelled\n");
            proof {
                assert(crate::semantic::nodes_meaning(root) is Ok);
            }
            Ok(m)
        },
        Err(why) => {
            let mut m = String::from_str("refused: ");
            m.append(why.reason);
            m.append("\n");
            proof {
                assert(m@ =~= "refused: "@ + why.reason@ + "\n"@);
                assert(crate::semantic::nodes_meaning(root) == Err::<crate::semantic::Meaning, Seq<char>>(why.reason@));
            }
            Ok(m)
        },
    }
}

} // verus!
