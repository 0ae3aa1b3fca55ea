//! The differential check over the corpus: every file that parses to a
//! mapping is diffed against itself, which must report nothing, then against
//! a copy with one known top-level key added, which must report that key as
//! a semantic change. A diff that misses an added key would drop it in a
//! merge. Files the check cannot use are counted, never silently dropped.
use crate::cst::Cst;
use crate::diff::{diff, Change, Significance};
use crate::fuzz_hours::{find_exec, lemma_find_from, occurs_at};
use crate::report::ParseReport;
use crate::format::Format;
use crate::json::utf8_error_at;
use crate::semantic::SemanticNode;
use crate::text::{decimal, joined_with, push_decimal, push_joined, views_of};
use vstd::prelude::*;
use vstd::string::*;
use vstd::utf8::valid_utf8;

verus! {

/// The line appended to a YAML file: `zzz_konflux_probe: 1` and a newline.
pub open spec fn yaml_probe() -> Seq<u8> {
    seq![122u8, 122, 122, 95, 107, 111, 110, 102, 108, 117, 120, 95, 112, 114, 111, 98, 101, 58, 32, 49, 10]
}

/// The member inserted into a JSON object: `"zzz_konflux_probe": 1`.
pub open spec fn json_probe() -> Seq<u8> {
    seq![34u8, 122, 122, 122, 95, 107, 111, 110, 102, 108, 117, 120, 95, 112, 114, 111, 98, 101, 34, 58, 32, 49]
}

/// The YAML mutation: the probe line after the last line, for a file that
/// ends in a newline; `None` otherwise, since the probe would join the last line.
pub open spec fn mutate_yaml_spec(b: Seq<u8>) -> Option<Seq<u8>> {
    if b.len() > 0 && b.last() == 10 { Some(b + yaml_probe()) } else { None }
}

/// Add the probe key at the end of a YAML file.
pub fn mutate_yaml(bytes: &[u8]) -> (r: Option<Vec<u8>>)
    ensures
        match r {
            Some(v) => mutate_yaml_spec(bytes@) == Some(v@),
            None => mutate_yaml_spec(bytes@) is None,
        },
{
    let n = bytes.len();
    if n == 0 || bytes[n - 1] != 10 {
        return None;
    }
    let mut out = vstd::slice::slice_to_vec(bytes);
    let probe: [u8; 21] = [122, 122, 122, 95, 107, 111, 110, 102, 108, 117, 120, 95, 112, 114, 111, 98, 101, 58, 32, 49, 10];
    let mut i: usize = 0;
    while i < 21
        invariant
            i <= 21,
            probe@ == yaml_probe(),
            out@ == bytes@ + yaml_probe().take(i as int),
        decreases 21 - i,
    {
        out.push(probe[i]);
        proof {
            assert(yaml_probe().take(i + 1) =~= yaml_probe().take(i as int).push(yaml_probe()[i as int]));
            assert(out@ =~= bytes@ + yaml_probe().take(i + 1));
        }
        i = i + 1;
    }
    proof {
        assert(yaml_probe().take(21) =~= yaml_probe());
    }
    Some(out)
}

/// The length of the UTF-8 encoding of a `White_Space` character at `i` of
/// `s`, or 0 when none starts there.
pub open spec fn white_len(s: Seq<u8>, i: int) -> int {
    let b = |k: int| if 0 <= i + k < s.len() { s[i + k] as int } else { -1 };
    if (9 <= b(0) && b(0) <= 13) || b(0) == 32 {
        1
    } else if b(0) == 0xC2 && (b(1) == 0x85 || b(1) == 0xA0) {
        2
    } else if b(0) == 0xE1 && b(1) == 0x9A && b(2) == 0x80 {
        3
    } else if b(0) == 0xE2 && b(1) == 0x80 && ((0x80 <= b(2) && b(2) <= 0x8A) || b(2) == 0xA8 || b(2) == 0xA9 || b(2) == 0xAF) {
        3
    } else if b(0) == 0xE2 && b(1) == 0x81 && b(2) == 0x9F {
        3
    } else if b(0) == 0xE3 && b(1) == 0x80 && b(2) == 0x80 {
        3
    } else {
        0
    }
}

/// Where the leading white space of `s[i..]` ends, as `str::trim_start` reads it.
pub open spec fn white_end(s: Seq<u8>, i: int) -> int
    decreases s.len() - i,
{
    if 0 <= i < s.len() && white_len(s, i) > 0 { white_end(s, i + white_len(s, i)) } else { i }
}

/// The first position of `{` in `s`, or -1.
pub open spec fn first_brace(s: Seq<u8>) -> int
    decreases s.len(),
{
    if s.len() == 0 {
        -1
    } else if first_brace(s.drop_last()) >= 0 {
        first_brace(s.drop_last())
    } else if s.last() == 123 {
        s.len() - 1
    } else {
        -1
    }
}

/// The JSON mutation: for UTF-8 text with a `{`, the probe member right
/// after the first `{`, followed by a comma unless the object was empty;
/// `None` otherwise.
pub open spec fn mutate_json_spec(b: Seq<u8>) -> Option<Seq<u8>> {
    let at = first_brace(b);
    if !valid_utf8(b) || at < 0 {
        None
    } else {
        let rest = b.skip(at + 1);
        let e = white_end(rest, 0);
        let comma: Seq<u8> = if e < rest.len() && rest[e] == 125 { Seq::empty() } else { seq![44u8] };
        Some(b.take(at + 1) + json_probe() + comma + rest)
    }
}

fn white_len_exec(s: &[u8], i: usize) -> (r: usize)
    requires
        i <= s@.len(),
    ensures
        r as int == white_len(s@, i as int),
{
    let n = s.len();
    let b0: i32 = if i < n { s[i] as i32 } else { -1 };
    let b1: i32 = if n - i > 1 { s[i + 1] as i32 } else { -1 };
    let b2: i32 = if n - i > 2 { s[i + 2] as i32 } else { -1 };
    if (9 <= b0 && b0 <= 13) || b0 == 32 {
        1
    } else if b0 == 0xC2 && (b1 == 0x85 || b1 == 0xA0) {
        2
    } else if b0 == 0xE1 && b1 == 0x9A && b2 == 0x80 {
        3
    } else if b0 == 0xE2 && b1 == 0x80 && ((0x80 <= b2 && b2 <= 0x8A) || b2 == 0xA8 || b2 == 0xA9 || b2 == 0xAF) {
        3
    } else if b0 == 0xE2 && b1 == 0x81 && b2 == 0x9F {
        3
    } else if b0 == 0xE3 && b1 == 0x80 && b2 == 0x80 {
        3
    } else {
        0
    }
}

/// Add the probe key as the first member of the first object.
pub fn mutate_json(bytes: &[u8]) -> (r: Option<Vec<u8>>)
    ensures
        match r {
            Some(v) => mutate_json_spec(bytes@) == Some(v@),
            None => mutate_json_spec(bytes@) is None,
        },
{
    if utf8_error_at(bytes).is_some() {
        return None;
    }
    let n = bytes.len();
    let mut at: usize = 0;
    while at < n && bytes[at] != 123
        invariant
            at <= n == bytes@.len(),
            first_brace(bytes@.take(at as int)) < 0,
        decreases n - at,
    {
        proof {
            assert(bytes@.take(at + 1).drop_last() =~= bytes@.take(at as int));
        }
        at = at + 1;
    }
    if at == n {
        proof {
            assert(bytes@.take(n as int) =~= bytes@);
        }
        return None;
    }
    proof {
        assert(bytes@.take(at + 1).drop_last() =~= bytes@.take(at as int));
        lemma_first_brace_prefix(bytes@, at as int + 1);
    }
    let ghost rest = bytes@.skip(at + 1);
    let mut e: usize = at + 1;
    while e < n && white_len_exec(bytes, e) > 0
        invariant
            at + 1 <= e <= n == bytes@.len(),
            rest == bytes@.skip(at + 1),
            white_end(rest, 0) == white_end(rest, e - (at + 1)),
        decreases n - e,
    {
        proof {
            lemma_white_len_shift(bytes@, at as int + 1, e as int);
        }
        let w = white_len_exec(bytes, e);
        e = if e + w <= n { e + w } else { n };
        proof {
            assert(white_len(bytes@, (e - w) as int) <= 3);
        }
    }
    proof {
        if e < n {
            lemma_white_len_shift(bytes@, at as int + 1, e as int);
        }
    }
    let empty_object = e < n && bytes[e] == 125;
    let mut out: Vec<u8> = Vec::new();
    let mut i: usize = 0;
    while i <= at
        invariant
            at < n == bytes@.len(),
            i <= at + 1,
            out@ == bytes@.take(i as int),
        decreases at + 1 - i,
    {
        out.push(bytes[i]);
        proof {
            assert(bytes@.take(i + 1) =~= bytes@.take(i as int).push(bytes@[i as int]));
        }
        i = i + 1;
    }
    let probe: [u8; 22] = [34, 122, 122, 122, 95, 107, 111, 110, 102, 108, 117, 120, 95, 112, 114, 111, 98, 101, 34, 58, 32, 49];
    let ghost head = out@;
    let mut k: usize = 0;
    while k < 22
        invariant
            k <= 22,
            probe@ == json_probe(),
            out@ == head + json_probe().take(k as int),
        decreases 22 - k,
    {
        out.push(probe[k]);
        proof {
            assert(json_probe().take(k + 1) =~= json_probe().take(k as int).push(json_probe()[k as int]));
            assert(out@ =~= head + json_probe().take(k + 1));
        }
        k = k + 1;
    }
    proof {
        assert(json_probe().take(22) =~= json_probe());
    }
    if !empty_object {
        out.push(44);
    }
    let ghost mid = out@;
    let mut j: usize = at + 1;
    proof {
        assert(bytes@.subrange(at + 1, at + 1) =~= Seq::<u8>::empty());
        assert(mid + Seq::<u8>::empty() =~= mid);
    }
    while j < n
        invariant
            at + 1 <= j <= n == bytes@.len(),
            out@ == mid + bytes@.subrange(at + 1, j as int),
        decreases n - j,
    {
        out.push(bytes[j]);
        proof {
            assert(bytes@.subrange(at + 1, j + 1) =~= bytes@.subrange(at + 1, j as int).push(bytes@[j as int]));
            assert(out@ =~= mid + bytes@.subrange(at + 1, j + 1));
        }
        j = j + 1;
    }
    proof {
        assert(bytes@.subrange(at + 1, n as int) =~= rest);
        let ee = white_end(rest, 0);
        assert(ee == e - (at + 1));
        if e < n {
            assert(rest[ee] == bytes@[e as int]);
        }
        if empty_object {
            assert(out@ =~= bytes@.take(at + 1) + json_probe() + Seq::<u8>::empty() + rest);
        } else {
            assert(out@ =~= bytes@.take(at + 1) + json_probe() + seq![44u8] + rest);
        }
    }
    Some(out)
}

proof fn lemma_first_brace_range(s: Seq<u8>)
    ensures
        -1 <= first_brace(s) < s.len(),
    decreases s.len(),
{
    if s.len() > 0 {
        lemma_first_brace_range(s.drop_last());
    }
}

proof fn lemma_first_brace_prefix(s: Seq<u8>, m: int)
    requires
        0 < m <= s.len(),
        s[m - 1] == 123,
        first_brace(s.take(m - 1)) < 0,
    ensures
        first_brace(s) == m - 1,
    decreases s.len(),
{
    assert(s.take(m).drop_last() =~= s.take(m - 1));
    assert(first_brace(s.take(m)) == m - 1);
    if s.len() > m {
        assert(s.drop_last().take(m) =~= s.take(m));
        assert(s.drop_last().take(m - 1) =~= s.take(m - 1));
        assert(s.drop_last()[m - 1] == s[m - 1]);
        lemma_first_brace_prefix(s.drop_last(), m);
    } else {
        assert(s.take(m) =~= s);
    }
}

proof fn lemma_white_len_shift(s: Seq<u8>, base: int, e: int)
    requires
        0 <= base <= e <= s.len(),
    ensures
        white_len(s.skip(base), e - base) == white_len(s, e),
{
    let r = s.skip(base);
    let d = e - base;
    if d < r.len() {
        assert(r[d] == s[e]);
    }
    if d + 1 < r.len() {
        assert(r[d + 1] == s[e + 1]);
    }
    if d + 2 < r.len() {
        assert(r[d + 2] == s[e + 2]);
    }
}


// --- the tally ---------------------------------------------------------------------------

/// What the check found over a corpus.
#[derive(Debug)]
pub struct Tally {
    /// Files diffed against themselves and against the mutation.
    pub checked: u64,
    /// Files whose meaning the format declines to model.
    pub skipped_unmodelled: u64,
    /// Files whose top level is not a mapping.
    pub skipped_not_a_mapping: u64,
    /// Files the mutation could not be applied to, or that no longer parse.
    pub skipped_mutation_unreadable: u64,
    /// Files whose top level the mutation changed.
    pub skipped_mutation_changed_shape: u64,
    /// Files that differ from themselves.
    pub unstable: Vec<String>,
    /// Files where the added key went unnoticed.
    pub lost: Vec<String>,
}

/// The five counters of a tally.
pub open spec fn counts(t: Tally) -> (nat, nat, nat, nat, nat) {
    (t.checked as nat, t.skipped_unmodelled as nat, t.skipped_not_a_mapping as nat, t.skipped_mutation_unreadable as nat,
        t.skipped_mutation_changed_shape as nat)
}

impl Tally {
    /// Nothing found yet.
    pub fn new() -> (t: Tally)
        ensures
            counts(t) == (0nat, 0nat, 0nat, 0nat, 0nat),
            t.unstable@.len() == 0,
            t.lost@.len() == 0,
    {
        Tally {
            checked: 0,
            skipped_unmodelled: 0,
            skipped_not_a_mapping: 0,
            skipped_mutation_unreadable: 0,
            skipped_mutation_changed_shape: 0,
            unstable: Vec::new(),
            lost: Vec::new(),
        }
    }
}

/// Whether a tally `b` is `a` after one file that parsed: exactly one
/// counter raised, the unstable list the same or one name longer, and the
/// lost list one name longer only when the file was checked. A file is
/// only skipped as reshaped, or checked, when the mutation applies.
pub open spec fn one_counted(a: Tally, b: Tally, name: Seq<char>, mutable: bool) -> bool {
    let o = counts(a);
    let n = counts(b);
    let lost_same = views_of(b.lost@) == views_of(a.lost@);
    let unstable_same = views_of(b.unstable@) == views_of(a.unstable@);
    &&& (unstable_same || views_of(b.unstable@) == views_of(a.unstable@).push(name))
    &&& {
        ||| n == (o.0, o.1 + 1, o.2, o.3, o.4) && lost_same && unstable_same
        ||| n == (o.0, o.1, o.2 + 1, o.3, o.4) && lost_same && unstable_same
        ||| n == (o.0, o.1, o.2, o.3 + 1, o.4) && lost_same
        ||| n == (o.0, o.1, o.2, o.3, o.4 + 1) && lost_same && mutable
        ||| n == (o.0 + 1, o.1, o.2, o.3, o.4) && (lost_same || views_of(b.lost@) == views_of(a.lost@).push(name)) && mutable
    }
}

/// Whether no counter of `t` is at its limit.
pub open spec fn room(t: Tally) -> bool {
    t.checked < u64::MAX && t.skipped_unmodelled < u64::MAX && t.skipped_not_a_mapping < u64::MAX
        && t.skipped_mutation_unreadable < u64::MAX && t.skipped_mutation_changed_shape < u64::MAX
}

fn push_name(v: &mut Vec<String>, name: &str)
    ensures
        views_of(final(v)@) == views_of(old(v)@).push(name@),
{
    v.push(String::from_str(name));
    proof {
        assert(views_of(v@) =~= views_of(old(v)@).push(name@));
    }
}

/// Check one file of a format, given how it parsed; `json` picks the JSON
/// mutation, else the YAML one. A file that did not parse is not counted;
/// one that did raises exactly one counter. Which one the format's view and
/// diff decide.
fn check<F: Format>(format: &F, bytes: &[u8], parsed: Result<Cst, ParseReport>, name: &str, tally: &mut Tally, json: bool)
    requires
        bytes@.len() + 23 <= u32::MAX,
        room(*old(tally)),
    ensures
        parsed is Err ==> *final(tally) == *old(tally),
        parsed is Ok ==> one_counted(*old(tally), *final(tally), name@, (if json { mutate_json_spec(bytes@) } else { mutate_yaml_spec(bytes@) }) is Some),
{
    let cst = match parsed {
        Ok(c) => c,
        Err(_) => {
            return;
        },
    };
    let view = match format.semantic_view(&cst) {
        Ok(v) => v,
        Err(_) => {
            tally.skipped_unmodelled = tally.skipped_unmodelled + 1;
            return;
        },
    };
    let is_mapping = match view {
        SemanticNode::Mapping(_) => true,
        _ => false,
    };
    if !is_mapping {
        tally.skipped_not_a_mapping = tally.skipped_not_a_mapping + 1;
        return;
    }
    let stable = match diff(format, bytes, bytes) {
        Ok(report) => report.changes.len() == 0,
        Err(_) => false,
    };
    if !stable {
        push_name(&mut tally.unstable, name);
    }
    let mutated = if json { mutate_json(bytes) } else { mutate_yaml(bytes) };
    let mutated = match mutated {
        Some(m) => m,
        None => {
            tally.skipped_mutation_unreadable = tally.skipped_mutation_unreadable + 1;
            return;
        },
    };
    proof {
        if json {
            lemma_first_brace_range(bytes@);
            assert(mutated@.len() <= bytes@.len() + 23);
        }
    }
    let mutated_cst = match format.parse(mutated.as_slice()) {
        Ok(c) => c,
        Err(_) => {
            tally.skipped_mutation_unreadable = tally.skipped_mutation_unreadable + 1;
            return;
        },
    };
    let still_mapping = match format.semantic_view(&mutated_cst) {
        Ok(SemanticNode::Mapping(_)) => true,
        _ => false,
    };
    if !still_mapping {
        tally.skipped_mutation_changed_shape = tally.skipped_mutation_changed_shape + 1;
        return;
    }
    tally.checked = tally.checked + 1;
    let noticed = match diff(format, bytes, mutated.as_slice()) {
        Ok(report) => noticed_probe(&report.changes),
        Err(_) => false,
    };
    if !noticed {
        push_name(&mut tally.lost, name);
    }
}

/// The key the mutations add.
pub open spec fn probe_key() -> Seq<char> {
    "zzz_konflux_probe"@
}

/// Whether a path mentions the probe key.
pub open spec fn mentions_probe(path: Seq<char>) -> bool {
    exists|i: int| occurs_at(path, probe_key(), i)
}

/// Whether one of the changes is a semantic one at a path that mentions the
/// probe key.
pub open spec fn probe_noticed(cs: Seq<Change>) -> bool {
    exists|i: int| 0 <= i < cs.len() && cs[i].significance == Significance::Semantic && #[trigger] mentions_probe(cs[i].path@)
}

/// Whether some change is a semantic one at a path that mentions the probe
/// key.
fn noticed_probe(changes: &Vec<Change>) -> (r: bool)
    ensures
        r == probe_noticed(changes@),
{
    let mut i: usize = 0;
    while i < changes.len()
        invariant
            i <= changes@.len(),
            forall|k: int| 0 <= k < i ==> !(changes@[k].significance == Significance::Semantic && #[trigger] mentions_probe(
                changes@[k].path@)),
        decreases changes@.len() - i,
    {
        if changes[i].significance == Significance::Semantic && contains_probe(changes[i].path.as_str()) {
            return true;
        }
        i = i + 1;
    }
    false
}

/// Whether `path` contains the probe key.
fn contains_probe(path: &str) -> (r: bool)
    ensures
        r == mentions_probe(path@),
{
    let cs = crate::semantic::chars_of(path);
    let key = crate::semantic::chars_of("zzz_konflux_probe");
    proof {
        assert(cs@.skip(0) =~= cs@);
        lemma_find_from(cs@, key@, 0);
    }
    match find_exec(&cs, &key, 0) {
        Some(k) => {
            proof {
                assert(occurs_at(cs@, key@, k as int));
                assert(occurs_at(path@, probe_key(), k as int));
            }
            true
        },
        None => {
            proof {
                assert forall|i: int| !occurs_at(path@, probe_key(), i) by {
                    if i >= 0 {
                        assert(!occurs_at(cs@, key@, i));
                    }
                }
            }
            false
        },
    }
}

/// Check one corpus file by its lowercase extension: `yaml` and `yml` as
/// YAML, `json` as JSON; any other file is left alone.
pub fn check_file(extension: &str, bytes: &[u8], name: &str, tally: &mut Tally)
    requires
        bytes@.len() + 23 <= u32::MAX,
        room(*old(tally)),
    ensures
        (extension@ == "yaml"@ || extension@ == "yml"@) && crate::yaml::yaml_accepts(bytes@) ==> one_counted(*old(tally), *final(tally), name@, mutate_yaml_spec(bytes@) is Some),
        (extension@ == "yaml"@ || extension@ == "yml"@) && !crate::yaml::yaml_accepts(bytes@) ==> *final(tally) == *old(tally),
        extension@ == "json"@ && crate::json::json_accepts(bytes@) ==> one_counted(*old(tally), *final(tally), name@, mutate_json_spec(bytes@) is Some),
        extension@ == "json"@ && !crate::json::json_accepts(bytes@) ==> *final(tally) == *old(tally),
        !(extension@ == "yaml"@ || extension@ == "yml"@ || extension@ == "json"@) ==> *final(tally) == *old(tally),
{
    proof {
        reveal_strlit("yaml");
        reveal_strlit("yml");
        reveal_strlit("json");
        assert("json"@[0] != "yaml"@[0]);
        assert("json"@[0] != "yml"@[0]);
        assert("json"@ != "yaml"@);
        assert("json"@ != "yml"@);
    }
    if crate::cli::same_text(extension, "yaml") || crate::cli::same_text(extension, "yml") {
        let parsed = crate::format::Yaml.parse(bytes);
        check(&crate::format::Yaml, bytes, parsed, name, tally, false);
    } else if crate::cli::same_text(extension, "json") {
        let parsed = crate::format::Json.parse(bytes);
        check(&crate::format::Json, bytes, parsed, name, tally, true);
    }
}

// --- the report ---------------------------------------------------------------------------

/// The summary of a tally.
pub open spec fn report_spec(t: Tally) -> Seq<char> {
    "differential \u{2014} konflux M2\n\n"@ + "  "@ + decimal(t.checked as nat)
        + " file(s) checked: diffed against themselves, then against a known added key\n"@ + "  skipped: "@ + decimal(
        t.skipped_unmodelled as nat) + " unmodelled, "@ + decimal(t.skipped_not_a_mapping as nat) + " not mapping-rooted, "@
        + decimal(t.skipped_mutation_unreadable as nat) + " unreadable once mutated, "@ + decimal(
        t.skipped_mutation_changed_shape as nat) + " reshaped by the mutation\n"@
        + "\n  The skips are printed because a runner that quietly narrows its own\n  corpus is reporting on a sample it chose.\n"@
}

/// Summarise a tally.
pub fn report(t: &Tally) -> (r: String)
    ensures
        r@ == report_spec(*t),
{
    let mut out = String::from_str("differential \u{2014} konflux M2\n\n");
    out.append("  ");
    push_decimal(&mut out, t.checked);
    out.append(" file(s) checked: diffed against themselves, then against a known added key\n");
    out.append("  skipped: ");
    push_decimal(&mut out, t.skipped_unmodelled);
    out.append(" unmodelled, ");
    push_decimal(&mut out, t.skipped_not_a_mapping);
    out.append(" not mapping-rooted, ");
    push_decimal(&mut out, t.skipped_mutation_unreadable);
    out.append(" unreadable once mutated, ");
    push_decimal(&mut out, t.skipped_mutation_changed_shape);
    out.append(" reshaped by the mutation\n");
    out.append("\n  The skips are printed because a runner that quietly narrows its own\n  corpus is reporting on a sample it chose.\n");
    proof {
        assert(out@ =~= report_spec(*t));
    }
    out
}

/// At most the first twenty names, one per indented line.
pub open spec fn listed(v: Seq<String>) -> Seq<char> {
    joined_with(views_of(v).take(if 20 < v.len() { 20 } else { v.len() as int }), "\n    "@)
}

/// The failure text for unstable files.
pub open spec fn unstable_text(v: Seq<String>) -> Seq<char> {
    "\nNOT A FUNCTION OF ITS INPUTS: "@ + decimal(v.len()) + " file(s) differ from themselves:\n    "@ + listed(v) + "\n"@
}

/// The failure text for lost edits.
pub open spec fn lost_text(v: Seq<String>) -> Seq<char> {
    "\nLOST EDIT: "@ + decimal(v.len()) + " file(s) where an added top-level key produced no\nsemantic change:\n    "@ + listed(v)
        + "\n\nThis is the worst failure konflux has. A merge driver that does not\nnotice a changed key will drop it, silently, in someone's cluster\nconfig. Minimise one, file it as a golden case, then fix it.\n"@
}

/// The verdict on a tally, given its summary `out`: `Ok(out)` when no file
/// was unstable and no edit was lost; else `Err` with `out` and the
/// failures, the first twenty names of each listed.
pub open spec fn finish_spec(out: Seq<char>, t: Tally) -> Result<Seq<char>, Seq<char>> {
    if t.unstable@.len() == 0 && t.lost@.len() == 0 {
        Ok(out)
    } else {
        Err(out + (if t.unstable@.len() > 0 { unstable_text(t.unstable@) } else { Seq::empty() }) + (if t.lost@.len() > 0 {
            lost_text(t.lost@)
        } else {
            Seq::empty()
        }))
    }
}

/// Turn a tally into the verdict.
pub fn finish(out: String, t: &Tally) -> (r: Result<String, String>)
    ensures
        match r {
            Ok(s) => finish_spec(out@, *t) == Ok::<Seq<char>, Seq<char>>(s@),
            Err(s) => finish_spec(out@, *t) == Err::<Seq<char>, Seq<char>>(s@),
        },
{
    if t.unstable.len() == 0 && t.lost.len() == 0 {
        return Ok(out);
    }
    let ghost o = out@;
    let mut message = out;
    if t.unstable.len() > 0 {
        message.append("\nNOT A FUNCTION OF ITS INPUTS: ");
        push_decimal(&mut message, t.unstable.len() as u64);
        message.append(" file(s) differ from themselves:\n    ");
        push_joined(&mut message, &t.unstable, 20, "\n    ");
        message.append("\n");
    }
    let ghost mid = message@;
    if t.lost.len() > 0 {
        message.append("\nLOST EDIT: ");
        push_decimal(&mut message, t.lost.len() as u64);
        message.append(" file(s) where an added top-level key produced no\nsemantic change:\n    ");
        push_joined(&mut message, &t.lost, 20, "\n    ");
        message.append(
            "\n\nThis is the worst failure konflux has. A merge driver that does not\nnotice a changed key will drop it, silently, in someone's cluster\nconfig. Minimise one, file it as a golden case, then fix it.\n",
        );
    }
    proof {
        if t.unstable@.len() > 0 {
            assert(mid =~= o + unstable_text(t.unstable@));
        } else {
            assert(mid =~= o + Seq::<char>::empty());
        }
        if t.lost@.len() > 0 {
            assert(message@ =~= mid + lost_text(t.lost@));
        } else {
            assert(message@ =~= mid + Seq::<char>::empty());
        }
    }
    Err(message)
}

} // verus!
