//! K1 over the fetched corpus: every file whose extension a format claims is
//! parsed, and each one that parses must serialise back to its exact bytes.
//! Coverage is tallied per format, because one total would hide which format
//! is proven, and a violation is a release blocker, never a statistic. The
//! corpus itself is read by the harness.
use crate::corpus::{pad_left, pad_right, push_padded_left, push_padded_right};
use crate::format::{Format, Json, Yaml};
use crate::json::json_accepts;
use crate::text::{decimal, decimal_string, joined_with, push_decimal, push_joined, views_of};
use vstd::prelude::*;
use vstd::string::*;

verus! {

/// How many files in a parsed format the corpus half of the K1 proof needs.
pub const P1_CORPUS_MINIMUM: u64 = 1000;

/// What one format's files came to.
#[derive(Debug)]
pub struct FormatTally {
    /// Files read.
    pub files: u64,
    /// Their bytes.
    pub bytes: u64,
    /// Files that parsed and serialised back to their bytes.
    pub round_tripped: u64,
    /// Files the parser refused.
    pub rejected: Vec<String>,
    /// Files that parsed but did not serialise back to their bytes.
    pub violations: Vec<String>,
}

/// The corpus so far: a tally per format that has had a file, and how many
/// files no format claims.
#[derive(Debug)]
pub struct Corpus {
    pub json: Option<FormatTally>,
    pub yaml: Option<FormatTally>,
    pub unclaimed: u64,
}

/// The format that claims a file.
#[derive(Debug, Clone, Copy, PartialEq, Eq, Structural)]
pub enum Claim {
    Json,
    Yaml,
}

impl Corpus {
    /// Nothing read yet.
    pub fn new() -> (c: Corpus)
        ensures
            c.json is None,
            c.yaml is None,
            c.unclaimed == 0,
    {
        Corpus { json: None, yaml: None, unclaimed: 0 }
    }
}

/// The format that claims a lowercase extension: YAML for `yaml` and
/// `yml`, JSON for `json`.
pub open spec fn claim_spec(ext: Seq<char>) -> Option<Claim> {
    if ext == "yaml"@ || ext == "yml"@ {
        Some(Claim::Yaml)
    } else if ext == "json"@ {
        Some(Claim::Json)
    } else {
        None
    }
}

/// Which format claims a file with this lowercase extension, if any.
pub fn claim(extension: &str) -> (r: Option<Claim>)
    ensures
        r == claim_spec(extension@),
{
    if crate::cli::same_text(extension, "yaml") || crate::cli::same_text(extension, "yml") {
        Some(Claim::Yaml)
    } else if crate::cli::same_text(extension, "json") {
        Some(Claim::Json)
    } else {
        None
    }
}

/// Whether tally `b` is `a` (or a fresh one) after one more file of `len`
/// bytes named `name`: refused, or round-tripped, as `accepted` says.
pub open spec fn one_more(a: Option<FormatTally>, b: FormatTally, len: nat, name: Seq<char>, accepted: bool) -> bool {
    let files: nat = match a { Some(t) => t.files as nat, None => 0 };
    let bytes: nat = match a { Some(t) => t.bytes as nat, None => 0 };
    let ok: nat = match a { Some(t) => t.round_tripped as nat, None => 0 };
    let rejected = match a { Some(t) => views_of(t.rejected@), None => Seq::empty() };
    let violations = match a { Some(t) => views_of(t.violations@), None => Seq::empty() };
    &&& b.files == files + 1
    &&& b.bytes == bytes + len
    &&& views_of(b.violations@) == violations
    &&& if accepted {
        b.round_tripped == ok + 1 && views_of(b.rejected@) == rejected
    } else {
        b.round_tripped == ok && views_of(b.rejected@) == rejected.push(name)
    }
}

/// Whether a tally has room for one more file of `len` bytes.
pub open spec fn room(t: Option<FormatTally>, len: nat) -> bool {
    match t {
        Some(t) => t.files < u64::MAX && t.bytes + len <= u64::MAX && t.round_tripped < u64::MAX,
        None => len <= u64::MAX,
    }
}

fn push_name(v: &mut Vec<String>, name: &str)
    ensures
        views_of(final(v)@) == views_of(old(v)@).push(name@),
{
    v.push(String::from_str(name));
    proof {
        assert(views_of(v@) =~= views_of(old(v)@).push(name@));
    }
}

/// Tally one file of a format, given what parsing it gave: refused, or
/// round-tripped. A tree serialises back to the bytes it was parsed from,
/// so no violation is ever recorded.
fn tally_file(slot: Option<FormatTally>, parsed: Result<crate::cst::Cst, crate::report::ParseReport>, bytes: &[u8], name: &str) -> (r: FormatTally)
    requires
        room(slot, bytes@.len()),
        parsed matches Ok(c) ==> c.text() == bytes@,
    ensures
        one_more(slot, r, bytes@.len(), name@, parsed is Ok),
{
    let mut t = match slot {
        Some(t) => t,
        None => FormatTally { files: 0, bytes: 0, round_tripped: 0, rejected: Vec::new(), violations: Vec::new() },
    };
    proof {
        assert(views_of(Seq::<String>::empty()) =~= Seq::<Seq<char>>::empty());
    }
    t.files = t.files + 1;
    t.bytes = t.bytes + bytes.len() as u64;
    match parsed {
        Err(_) => {
            push_name(&mut t.rejected, name);
        },
        Ok(cst) => {
            let out = cst.serialize();
            if same_bytes(&out, bytes) {
                t.round_tripped = t.round_tripped + 1;
            } else {
                push_name(&mut t.violations, name);
            }
        },
    }
    t
}

fn same_bytes(a: &Vec<u8>, b: &[u8]) -> (r: bool)
    ensures
        r == (a@ == b@),
{
    if a.len() != b.len() {
        return false;
    }
    let mut i: usize = 0;
    while i < a.len()
        invariant
            a@.len() == b@.len(),
            i <= a@.len(),
            forall|k: int| 0 <= k < i ==> a@[k] == b@[k],
        decreases a@.len() - i,
    {
        if a[i] != b[i] {
            return false;
        }
        i = i + 1;
    }
    proof {
        assert(a@ =~= b@);
    }
    true
}

/// Record one read file under the format that claims it. A JSON file is
/// refused exactly when it is not JSON; YAML's acceptance is the parser's.
pub fn record(corpus: &mut Corpus, claim: Claim, bytes: &[u8], name: &str)
    requires
        bytes@.len() <= u32::MAX,
        room(if claim == Claim::Json { old(corpus).json } else { old(corpus).yaml }, bytes@.len()),
    ensures
        final(corpus).unclaimed == old(corpus).unclaimed,
        claim == Claim::Json ==> final(corpus).yaml == old(corpus).yaml && (final(corpus).json matches Some(t) && one_more(
            old(corpus).json, t, bytes@.len(), name@, json_accepts(bytes@))),
        claim == Claim::Yaml ==> final(corpus).json == old(corpus).json && (final(corpus).yaml matches Some(t) && one_more(
            old(corpus).yaml, t, bytes@.len(), name@, crate::yaml::yaml_accepts(bytes@))),
{
    match claim {
        Claim::Json => {
            let slot = corpus.json.take();
            let parsed = Json.parse(bytes);
            let t = tally_file(slot, parsed, bytes, name);
            corpus.json = Some(t);
        },
        Claim::Yaml => {
            let slot = corpus.yaml.take();
            let parsed = Yaml.parse(bytes);
            let t = tally_file(slot, parsed, bytes, name);
            corpus.yaml = Some(t);
        },
    }
}

/// Count a file no format claims.
pub fn record_unclaimed(corpus: &mut Corpus)
    requires
        old(corpus).unclaimed < u64::MAX,
    ensures
        final(corpus).unclaimed == old(corpus).unclaimed + 1,
        final(corpus).json == old(corpus).json,
        final(corpus).yaml == old(corpus).yaml,
{
    corpus.unclaimed = corpus.unclaimed + 1;
}

// --- the report -------------------------------------------------------------------------

/// One format's row of the table.
pub open spec fn row_spec(name: Seq<char>, t: FormatTally) -> Seq<char> {
    "  "@ + pad_right(name, 8) + " "@ + pad_left(decimal(t.files as nat), 7) + " "@ + pad_left(decimal(t.bytes as nat), 12) + " "@
        + pad_left(decimal(t.round_tripped as nat), 14) + " "@ + pad_left(decimal(t.rejected@.len()), 10) + "\n"@
}

/// The rows of the formats that had files, in name order.
pub open spec fn rows_spec(c: Corpus) -> Seq<char> {
    (match c.json { Some(t) => row_spec("json"@, t), None => Seq::empty() }) + (match c.yaml {
        Some(t) => row_spec("yaml"@, t),
        None => Seq::empty(),
    })
}

/// Files, and round-tripped files, over the formats that had files.
pub open spec fn totals(c: Corpus) -> (nat, nat) {
    let (a, b) = match c.json { Some(t) => (t.files as nat, t.round_tripped as nat), None => (0nat, 0nat) };
    let (x, y) = match c.yaml { Some(t) => (t.files as nat, t.round_tripped as nat), None => (0nat, 0nat) };
    (a + x, b + y)
}

/// The per-format table, the totals, and whether the corpus half of P1 is met.
pub open spec fn report_spec(c: Corpus) -> Seq<char> {
    heading() + rows_spec(c) + tail(totals(c).0, totals(c).1, c.unclaimed as nat)
}

fn push_row(out: &mut String, name: &str, t: &FormatTally)
    ensures
        final(out)@ == old(out)@ + row_spec(name@, *t),
{
    out.append("  ");
    push_padded_right(out, name, 8);
    out.append(" ");
    push_padded_left(out, decimal_string(t.files).as_str(), 7);
    out.append(" ");
    push_padded_left(out, decimal_string(t.bytes).as_str(), 12);
    out.append(" ");
    push_padded_left(out, decimal_string(t.round_tripped).as_str(), 14);
    out.append(" ");
    push_padded_left(out, decimal_string(t.rejected.len() as u64).as_str(), 10);
    out.append("\n");
    proof {
        assert(out@ =~= old(out)@ + row_spec(name@, *t));
    }
}

/// The table's heading and rule.
pub open spec fn heading() -> Seq<char> {
    "K1 over the corpus \u{2014} konflux P1\n"@ + "  "@ + pad_right("format"@, 8) + " "@ + pad_left("files"@, 7) + " "@
        + pad_left("bytes"@, 12) + " "@ + pad_left("round-tripped"@, 14) + " "@ + pad_left("rejected"@, 10) + "\n"@ + "  "@
        + Seq::new(56, |i: int| '-') + "\n"@
}

/// The totals row.
pub open spec fn total_row(files: nat, ok: nat) -> Seq<char> {
    "  "@ + pad_right("TOTAL"@, 8) + " "@ + pad_left(decimal(files), 7) + " "@ + pad_left(Seq::empty(), 12) + " "@ + pad_left(
        decimal(ok), 14) + "\n"@
}

/// The note on files no format claims, when there are any.
pub open spec fn unclaimed_text(unclaimed: nat) -> Seq<char> {
    if unclaimed > 0 {
        "\n  "@ + decimal(unclaimed) + " corpus file(s) are in no format we parse yet (HCL, Phase 2).\n"@
    } else {
        Seq::empty()
    }
}

/// Whether the corpus half of P1 is met.
pub open spec fn verdict_text(files: nat) -> Seq<char> {
    if files >= P1_CORPUS_MINIMUM {
        "  P1 corpus half: MET \u{2014} "@ + decimal(files)
            + " files in a format konflux parses,\n  all round-tripping. The fuzzing half (\u{2265}72 cumulative hours) is tracked\n  separately.\n"@
    } else {
        "  P1 corpus half: NOT MET \u{2014} needs \u{2265}1000 files in a format\n  konflux parses, and only "@ + decimal(files)
            + " are.\n"@
    }
}

/// What follows the rows: the totals, the unclaimed files, and the verdict on P1.
pub open spec fn tail(files: nat, ok: nat, unclaimed: nat) -> Seq<char> {
    total_row(files, ok) + unclaimed_text(unclaimed) + verdict_text(files)
}

#[verifier::rlimit(80)]
fn push_heading(out: &mut String)
    ensures
        final(out)@ == old(out)@ + heading(),
{
    out.append("K1 over the corpus \u{2014} konflux P1\n");
    out.append("  ");
    push_padded_right(out, "format", 8);
    out.append(" ");
    push_padded_left(out, "files", 7);
    out.append(" ");
    push_padded_left(out, "bytes", 12);
    out.append(" ");
    push_padded_left(out, "round-tripped", 14);
    out.append(" ");
    push_padded_left(out, "rejected", 10);
    out.append("\n");
    out.append("  ");
    let mut k: usize = 0;
    let ghost h = out@;
    while k < 56
        invariant
            k <= 56,
            out@ == h + Seq::new(k as nat, |i: int| '-'),
        decreases 56 - k,
    {
        crate::text::push_char(out, '-');
        proof {
            assert(out@ =~= h + Seq::new((k + 1) as nat, |i: int| '-'));
        }
        k = k + 1;
    }
    out.append("\n");
    proof {
        assert(out@ =~= old(out)@ + heading());
    }
}

fn push_total_row(out: &mut String, files: u64, ok: u64)
    ensures
        final(out)@ == old(out)@ + total_row(files as nat, ok as nat),
{
    out.append("  ");
    push_padded_right(out, "TOTAL", 8);
    out.append(" ");
    push_padded_left(out, decimal_string(files).as_str(), 7);
    out.append(" ");
    push_padded_left(out, "", 12);
    out.append(" ");
    push_padded_left(out, decimal_string(ok).as_str(), 14);
    out.append("\n");
    proof {
        reveal_strlit("");
        assert(""@ =~= Seq::<char>::empty());
        assert(out@ =~= old(out)@ + total_row(files as nat, ok as nat));
    }
}

fn push_tail(out: &mut String, files: u64, ok: u64, unclaimed: u64)
    ensures
        final(out)@ == old(out)@ + tail(files as nat, ok as nat, unclaimed as nat),
{
    push_total_row(out, files, ok);
    let ghost t1 = out@;
    if unclaimed > 0 {
        out.append("\n  ");
        push_decimal(out, unclaimed);
        out.append(" corpus file(s) are in no format we parse yet (HCL, Phase 2).\n");
    }
    proof {
        assert(out@ =~= t1 + unclaimed_text(unclaimed as nat));
    }
    let ghost t2 = out@;
    if files >= P1_CORPUS_MINIMUM {
        out.append("  P1 corpus half: MET \u{2014} ");
        push_decimal(out, files);
        out.append(
            " files in a format konflux parses,\n  all round-tripping. The fuzzing half (\u{2265}72 cumulative hours) is tracked\n  separately.\n",
        );
    } else {
        out.append("  P1 corpus half: NOT MET \u{2014} needs \u{2265}1000 files in a format\n  konflux parses, and only ");
        push_decimal(out, files);
        out.append(" are.\n");
    }
    proof {
        assert(out@ =~= t2 + verdict_text(files as nat));
        assert(out@ =~= old(out)@ + tail(files as nat, ok as nat, unclaimed as nat));
    }
}

/// Render the table.
pub fn report(c: &Corpus) -> (r: String)
    requires
        totals(*c).0 <= u64::MAX,
        totals(*c).1 <= u64::MAX,
    ensures
        r@ == report_spec(*c),
{
    let mut out = String::new();
    push_heading(&mut out);
    let ghost before_rows = out@;
    let mut files: u64 = 0;
    let mut ok: u64 = 0;
    match &c.json {
        Some(t) => {
            push_row(&mut out, "json", t);
            files = t.files;
            ok = t.round_tripped;
        },
        None => {},
    }
    match &c.yaml {
        Some(t) => {
            push_row(&mut out, "yaml", t);
            files = files + t.files;
            ok = ok + t.round_tripped;
        },
        None => {},
    }
    let ghost after_rows = out@;
    push_tail(&mut out, files, ok, c.unclaimed);
    proof {
        assert(after_rows =~= before_rows + rows_spec(*c));
        assert(heading() =~= Seq::<char>::empty() + heading());
        assert(report_spec(*c) =~= heading() + rows_spec(*c) + tail(totals(*c).0, totals(*c).1, c.unclaimed as nat));
        assert(out@ =~= report_spec(*c));
    }
    out
}

/// The names of the files that violated K1, over the formats in name order.
pub open spec fn violations_of(c: Corpus) -> Seq<String> {
    (match c.json { Some(t) => t.violations@, None => Seq::empty() }) + (match c.yaml {
        Some(t) => t.violations@,
        None => Seq::empty(),
    })
}

/// The verdict on the corpus, given its table: `Ok` when no file violated
/// K1; else `Err` with the table and at most the first twenty violators.
pub open spec fn finish_spec(out: Seq<char>, c: Corpus) -> Result<Seq<char>, Seq<char>> {
    let v = violations_of(c);
    if v.len() == 0 {
        Ok(out)
    } else {
        Err(out + "\nK1 VIOLATED on "@ + decimal(v.len()) + " corpus file(s):\n  "@ + joined_with(views_of(v).take(
            if 20 < v.len() { 20 } else { v.len() as int }), "\n  "@)
            + "\n\nserialize(parse(x)) != x on real-world input. This is a release\nblocker (MASTER_PLAN \u{a7}4.1 P1), not a statistic. Minimise one, file it\nas a golden case, then fix the parser (\u{a7}3.3)."@)
    }
}

fn append_names(v: &mut Vec<String>, more: &Vec<String>)
    ensures
        views_of(final(v)@) == views_of(old(v)@) + views_of(more@),
{
    let mut i: usize = 0;
    proof {
        assert(views_of(more@).take(0) =~= Seq::<Seq<char>>::empty());
        assert(views_of(v@) =~= views_of(old(v)@) + views_of(more@).take(0));
    }
    while i < more.len()
        invariant
            i <= more@.len(),
            views_of(v@) == views_of(old(v)@) + views_of(more@).take(i as int),
        decreases more@.len() - i,
    {
        let ghost before = v@;
        v.push(String::from_str(more[i].as_str()));
        proof {
            assert(views_of(v@) =~= views_of(before).push(more@[i as int]@));
            assert(views_of(more@).take(i + 1) =~= views_of(more@).take(i as int).push(more@[i as int]@));
            assert(views_of(v@) =~= views_of(old(v)@) + views_of(more@).take(i + 1));
        }
        i = i + 1;
    }
    proof {
        assert(views_of(more@).take(i as int) =~= views_of(more@));
    }
}

/// Turn the table into the verdict.
pub fn finish(out: String, c: &Corpus) -> (r: Result<String, String>)
    ensures
        match r {
            Ok(s) => finish_spec(out@, *c) == Ok::<Seq<char>, Seq<char>>(s@),
            Err(s) => finish_spec(out@, *c) == Err::<Seq<char>, Seq<char>>(s@),
        },
{
    let mut all: Vec<String> = Vec::new();
    proof {
        assert(views_of(all@) =~= Seq::<Seq<char>>::empty());
    }
    match &c.json {
        Some(t) => {
            append_names(&mut all, &t.violations);
        },
        None => {},
    }
    match &c.yaml {
        Some(t) => {
            append_names(&mut all, &t.violations);
        },
        None => {},
    }
    proof {
        let v = violations_of(*c);
        assert(views_of(v) =~= views_of(all@)) by {
            match c.json {
                Some(t) => {
                    assert(views_of(t.violations@) + Seq::<Seq<char>>::empty() =~= views_of(t.violations@));
                },
                None => {},
            }
            assert(views_of(v) =~= (match c.json { Some(t) => views_of(t.violations@), None => Seq::<Seq<char>>::empty() })
                + (match c.yaml { Some(t) => views_of(t.violations@), None => Seq::<Seq<char>>::empty() }));
        }
        assert(v.len() == all@.len());
    }
    if all.len() == 0 {
        return Ok(out);
    }
    let ghost o = out@;
    let mut message = out;
    message.append("\nK1 VIOLATED on ");
    push_decimal(&mut message, all.len() as u64);
    message.append(" corpus file(s):\n  ");
    push_joined(&mut message, &all, 20, "\n  ");
    message.append(
        "\n\nserialize(parse(x)) != x on real-world input. This is a release\nblocker (MASTER_PLAN \u{a7}4.1 P1), not a statistic. Minimise one, file it\nas a golden case, then fix the parser (\u{a7}3.3).",
    );
    proof {
        assert(message@ =~= o + "\nK1 VIOLATED on "@ + decimal(all@.len() as nat) + " corpus file(s):\n  "@ + joined_with(
            views_of(all@).take(if 20 < all@.len() { 20 } else { all@.len() as int }), "\n  "@)
            + "\n\nserialize(parse(x)) != x on real-world input. This is a release\nblocker (MASTER_PLAN \u{a7}4.1 P1), not a statistic. Minimise one, file it\nas a golden case, then fix the parser (\u{a7}3.3)."@);
    }
    Err(message)
}

} // verus!
