//! The rules a corpus source manifest must obey, checked offline: every
//! source is fully declared, pinned to a full commit SHA, fetched over
//! `https://`, under an allowed licence, uniquely named, and the per-source
//! file counts add up to the category's cap; all caps together stay under
//! [`GLOBAL_FILE_CAP`]. Finding and reading the manifest files is the
//! caller's business.
use crate::cli::{same_text, string_views};
use crate::conformance::{lemma_text_le_total, lemma_text_le_trans, text_le, text_le_exec};
use crate::semantic::chars_of;
use crate::text::{decimal, push_char, push_decimal};
use vstd::prelude::*;
use vstd::string::*;

verus! {

/// The corpus ceiling: at most this many files across every category.
pub const GLOBAL_FILE_CAP: u32 = 1000;

// --- text helpers ---------------------------------------------------------------

/// The characters `str::trim` removes: Unicode `White_Space`.
pub open spec fn is_white(c: char) -> bool {
    ('\u{9}' <= c && c <= '\u{d}') || c == ' ' || c == '\u{85}' || c == '\u{a0}' || c == '\u{1680}'
        || ('\u{2000}' <= c && c <= '\u{200a}') || c == '\u{2028}' || c == '\u{2029}' || c == '\u{202f}'
        || c == '\u{205f}' || c == '\u{3000}'
}

pub(crate) fn is_white_exec(c: char) -> (r: bool)
    ensures
        r == is_white(c),
{
    ('\u{9}' <= c && c <= '\u{d}') || c == ' ' || c == '\u{85}' || c == '\u{a0}' || c == '\u{1680}'
        || ('\u{2000}' <= c && c <= '\u{200a}') || c == '\u{2028}' || c == '\u{2029}' || c == '\u{202f}'
        || c == '\u{205f}' || c == '\u{3000}'
}

/// `s` without leading white space.
pub open spec fn trim_start(s: Seq<char>) -> Seq<char>
    decreases s.len(),
{
    if s.len() > 0 && is_white(s[0]) { trim_start(s.drop_first()) } else { s }
}

/// `s` without trailing white space.
pub open spec fn trim_end(s: Seq<char>) -> Seq<char>
    decreases s.len(),
{
    if s.len() > 0 && is_white(s.last()) { trim_end(s.drop_last()) } else { s }
}

/// `s` without white space at either end, as `str::trim` leaves it.
pub open spec fn trim(s: Seq<char>) -> Seq<char> {
    trim_end(trim_start(s))
}

/// The trimmed part of `cs[a..b]`, as a range.
pub(crate) fn trim_range(cs: &Vec<char>, a: usize, b: usize) -> (r: (usize, usize))
    requires
        a <= b <= cs@.len(),
    ensures
        a <= r.0 <= r.1 <= b,
        cs@.subrange(r.0 as int, r.1 as int) == trim(cs@.subrange(a as int, b as int)),
{
    let ghost s = cs@.subrange(a as int, b as int);
    let mut i = a;
    while i < b && is_white_exec(cs[i])
        invariant
            a <= i <= b <= cs@.len(),
            trim_start(s) == trim_start(cs@.subrange(i as int, b as int)),
        decreases b - i,
    {
        proof {
            assert(cs@.subrange(i as int, b as int).drop_first() =~= cs@.subrange(i + 1, b as int));
        }
        i = i + 1;
    }
    let ghost t = cs@.subrange(i as int, b as int);
    proof {
        assert(trim_start(t) == t);
    }
    let mut j = b;
    while j > i && is_white_exec(cs[j - 1])
        invariant
            i <= j <= b <= cs@.len(),
            trim_end(t) == trim_end(cs@.subrange(i as int, j as int)),
        decreases j,
    {
        proof {
            assert(cs@.subrange(i as int, j as int).drop_last() =~= cs@.subrange(i as int, j - 1));
        }
        j = j - 1;
    }
    proof {
        assert(trim_end(cs@.subrange(i as int, j as int)) == cs@.subrange(i as int, j as int));
    }
    (i, j)
}

/// A new string holding `cs[a..b]`.
pub(crate) fn string_of_range(cs: &Vec<char>, a: usize, b: usize) -> (r: String)
    requires
        a <= b <= cs@.len(),
    ensures
        r@ == cs@.subrange(a as int, b as int),
{
    let mut out = String::new();
    let mut i = a;
    while i < b
        invariant
            a <= i <= b <= cs@.len(),
            out@ == cs@.subrange(a as int, i as int),
        decreases b - i,
    {
        push_char(&mut out, cs[i]);
        proof {
            assert(out@ =~= cs@.subrange(a as int, i + 1));
        }
        i = i + 1;
    }
    out
}

/// Whether `s` starts with `p`.
pub open spec fn starts_with(s: Seq<char>, p: Seq<char>) -> bool {
    p.len() <= s.len() && s.subrange(0, p.len() as int) == p
}

pub(crate) fn starts_with_exec(s: &Vec<char>, p: &str) -> (r: bool)
    ensures
        r == starts_with(s@, p@),
{
    let pc = chars_of(p);
    if pc.len() > s.len() {
        return false;
    }
    let mut i: usize = 0;
    while i < pc.len()
        invariant
            pc@ == p@,
            pc@.len() <= s@.len(),
            i <= pc@.len(),
            forall|k: int| 0 <= k < i ==> s@[k] == pc@[k],
        decreases pc@.len() - i,
    {
        if s[i] != pc[i] {
            proof {
                assert(s@.subrange(0, pc@.len() as int)[i as int] != pc@[i as int]);
            }
            return false;
        }
        i = i + 1;
    }
    proof {
        assert(s@.subrange(0, pc@.len() as int) =~= pc@);
    }
    true
}

/// The value of a decimal digit string.
pub open spec fn digits_value(d: Seq<char>) -> nat
    decreases d.len(),
{
    if d.len() == 0 { 0 } else { digits_value(d.drop_last()) * 10 + ((d.last() as nat) - ('0' as nat)) as nat }
}

/// Whether every character is an ASCII digit.
pub open spec fn all_digits(d: Seq<char>) -> bool {
    forall|i: int| 0 <= i < d.len() ==> '0' <= #[trigger] d[i] && d[i] <= '9'
}

/// A `u32` as `str::parse` reads it: an optional `+`, at least one digit,
/// nothing else, and no more than `u32::MAX`.
pub open spec fn parse_u32_spec(s: Seq<char>) -> Option<u32> {
    let d = if s.len() > 0 && s[0] == '+' { s.drop_first() } else { s };
    if d.len() == 0 || !all_digits(d) || digits_value(d) > u32::MAX {
        None
    } else {
        Some(digits_value(d) as u32)
    }
}

proof fn lemma_digits_value_prefix(d: Seq<char>, k: int)
    requires
        0 <= k <= d.len(),
        all_digits(d),
    ensures
        digits_value(d.subrange(0, k)) <= digits_value(d),
    decreases d.len(),
{
    if k < d.len() {
        assert(d.drop_last().subrange(0, k) == d.subrange(0, k));
        assert(all_digits(d.drop_last())) by {
            assert forall|i: int| 0 <= i < d.drop_last().len() implies '0' <= #[trigger] d.drop_last()[i] && d.drop_last()[i] <= '9' by {
                assert(d.drop_last()[i] == d[i]);
            }
        }
        lemma_digits_value_prefix(d.drop_last(), k);
    } else {
        assert(d.subrange(0, k) == d);
    }
}

/// Parse a `u32` the way `str::parse` does.
fn parse_u32(s: &str) -> (r: Option<u32>)
    ensures
        r == parse_u32_spec(s@),
{
    let cs = chars_of(s);
    let start: usize = if cs.len() > 0 && cs[0] == '+' { 1 } else { 0 };
    let ghost d = if s@.len() > 0 && s@[0] == '+' { s@.drop_first() } else { s@ };
    proof {
        assert(d =~= cs@.subrange(start as int, cs@.len() as int));
    }
    if start == cs.len() {
        return None;
    }
    let mut i = start;
    while i < cs.len()
        invariant
            cs@ == s@,
            start <= i <= cs@.len(),
            d == (if s@.len() > 0 && s@[0] == '+' { s@.drop_first() } else { s@ }),
            d == cs@.subrange(start as int, cs@.len() as int),
            forall|k: int| start <= k < i ==> '0' <= #[trigger] cs@[k] && cs@[k] <= '9',
        decreases cs@.len() - i,
    {
        if !('0' <= cs[i] && cs[i] <= '9') {
            proof {
                assert(d[i - start] == cs@[i as int]);
            }
            return None;
        }
        i = i + 1;
    }
    proof {
        assert forall|k: int| 0 <= k < d.len() implies '0' <= #[trigger] d[k] && d[k] <= '9' by {
            assert(d[k] == cs@[start + k]);
        }
    }
    let mut value: u64 = 0;
    let mut j = start;
    while j < cs.len()
        invariant
            cs@ == s@,
            start <= j <= cs@.len(),
            d == (if s@.len() > 0 && s@[0] == '+' { s@.drop_first() } else { s@ }),
            d == cs@.subrange(start as int, cs@.len() as int),
            d.len() > 0,
            all_digits(d),
            value as nat == digits_value(d.subrange(0, j - start)),
            value <= u32::MAX,
        decreases cs@.len() - j,
    {
        proof {
            assert(d[j - start] == cs@[j as int]);
        }
        let digit = ((cs[j] as u32) - 48) as u64;
        proof {
            let p = d.subrange(0, j + 1 - start);
            assert(p.drop_last() =~= d.subrange(0, j - start));
            assert(p.last() == cs@[j as int]);
            assert(digits_value(p) == digits_value(d.subrange(0, j - start)) * 10 + digit);
        }
        value = value * 10 + digit;
        if value > 4294967295u64 {
            proof {
                lemma_digits_value_prefix(d, j + 1 - start);
            }
            return None;
        }
        j = j + 1;
    }
    proof {
        assert(d.subrange(0, j - start) == d);
    }
    Some(value as u32)
}

// --- manifests ------------------------------------------------------------------

/// Whether a revision is a full, lowercase, 40-hex-digit commit SHA. Branch
/// and tag names move; a pinned SHA does not.
pub open spec fn is_pinned_sha_spec(rev: Seq<char>) -> bool {
    rev.len() == 40 && forall|i: int| 0 <= i < 40 ==> ('0' <= #[trigger] rev[i] && rev[i] <= '9') || ('a' <= rev[i] && rev[i] <= 'f')
}

/// Whether `rev` is a pinned commit SHA rather than a moving ref.
pub fn is_pinned_sha(rev: &str) -> (r: bool)
    ensures
        r == is_pinned_sha_spec(rev@),
{
    let cs = chars_of(rev);
    if cs.len() != 40 {
        return false;
    }
    let mut i: usize = 0;
    while i < 40
        invariant
            cs@ == rev@,
            cs@.len() == 40,
            i <= 40,
            forall|k: int| 0 <= k < i ==> ('0' <= #[trigger] cs@[k] && cs@[k] <= '9') || ('a' <= cs@[k] && cs@[k] <= 'f'),
        decreases 40 - i,
    {
        let c = cs[i];
        if !(('0' <= c && c <= '9') || ('a' <= c && c <= 'f')) {
            return false;
        }
        i = i + 1;
    }
    true
}

/// The message for a line that is not `key = value`.
pub open spec fn not_key_value(file: Seq<char>, line_no: nat, line: Seq<char>) -> Seq<char> {
    file + ":"@ + decimal(line_no) + ": `"@ + line + "` is not `key = value`"@
}

/// The index of the first `=` in `s`, or -1.
pub open spec fn first_eq(s: Seq<char>) -> int
    decreases s.len(),
{
    if s.len() == 0 {
        -1
    } else if s[0] == '=' {
        0
    } else if first_eq(s.drop_first()) < 0 {
        -1
    } else {
        first_eq(s.drop_first()) + 1
    }
}

/// A `key = value` line, split at the first `=` and trimmed on both sides.
pub open spec fn split_kv_spec(line: Seq<char>, file: Seq<char>, line_no: nat) -> Result<(Seq<char>, Seq<char>), Seq<char>> {
    let k = first_eq(line);
    if k < 0 {
        Err(not_key_value(file, line_no, line))
    } else {
        Ok((trim(line.subrange(0, k)), trim(line.subrange(k + 1, line.len() as int))))
    }
}

proof fn lemma_first_eq(s: Seq<char>)
    ensures
        -1 <= first_eq(s) < s.len(),
        first_eq(s) >= 0 ==> s[first_eq(s)] == '=',
        forall|i: int| 0 <= i < s.len() && (first_eq(s) < 0 || i < first_eq(s)) ==> #[trigger] s[i] != '=',
    decreases s.len(),
{
    if s.len() > 0 && s[0] != '=' {
        lemma_first_eq(s.drop_first());
        assert forall|i: int| 0 <= i < s.len() && (first_eq(s) < 0 || i < first_eq(s)) implies #[trigger] s[i] != '=' by {
            if i > 0 {
                assert(s.drop_first()[i - 1] == s[i]);
            }
        }
    }
}

/// The message prefix `file:line: `.
fn push_at(out: &mut String, file: &str, line_no: usize)
    ensures
        final(out)@ == old(out)@ + file@ + ":"@ + decimal(line_no as nat),
{
    out.append(file);
    out.append(":");
    push_decimal(out, line_no as u64);
    proof {
        reveal_strlit(":");
    }
}

/// Split `line` at its first `=` into a trimmed key and value.
pub fn split_kv(line: &str, file: &str, line_no: usize) -> (r: Result<(String, String), String>)
    ensures
        match split_kv_spec(line@, file@, line_no as nat) {
            Ok((k, v)) => r matches Ok((a, b)) && a@ == k && b@ == v,
            Err(m) => r matches Err(e) && e@ == m,
        },
{
    let cs = chars_of(line);
    let mut i: usize = 0;
    while i < cs.len() && cs[i] != '='
        invariant
            cs@ == line@,
            i <= cs@.len(),
            forall|k: int| 0 <= k < i ==> cs@[k] != '=',
        decreases cs@.len() - i,
    {
        i = i + 1;
    }
    proof {
        lemma_first_eq(line@);
        let k = first_eq(line@);
        if i < cs@.len() {
            assert(k == i) by {
                if k < 0 || k > i {
                    assert(cs@[i as int] != '=');
                }
            }
        } else {
            assert(k < 0) by {
                if k >= 0 {
                    assert(cs@[k] != '=');
                }
            }
        }
    }
    if i == cs.len() {
        let mut m = String::new();
        push_at(&mut m, file, line_no);
        m.append(": `");
        m.append(line);
        m.append("` is not `key = value`");
        proof {
            reveal_strlit(": `");
            reveal_strlit("` is not `key = value`");
        }
        return Err(m);
    }
    let (ka, kb) = trim_range(&cs, 0, i);
    let (va, vb) = trim_range(&cs, i + 1, cs.len());
    Ok((string_of_range(&cs, ka, kb), string_of_range(&cs, va, vb)))
}

/// One `[source]` record of a manifest.
#[derive(Debug)]
pub struct Source {
    /// Unique within the category.
    pub name: String,
    /// Where it is fetched from.
    pub repo: String,
    /// The commit it is pinned to.
    pub rev: String,
    /// SPDX licence identifier.
    pub license: String,
    /// Path of the licence text in the repository.
    pub license_file: String,
    /// Glob patterns of the files taken.
    pub includes: Vec<String>,
    /// How many files this source may contribute.
    pub max_files: u32,
    /// Line of the `[source]` header.
    pub line: usize,
}

/// A parsed category manifest.
#[derive(Debug)]
pub struct Manifest {
    /// The manifest's file name.
    pub file: String,
    /// The category it declares.
    pub category: String,
    /// The category's file cap.
    pub cap: u32,
    /// Its sources, in file order.
    pub sources: Vec<Source>,
}

/// The licences under which third-party files may enter a corpus.
pub open spec fn allowed_license(l: Seq<char>) -> bool {
    l == "Apache-2.0"@ || l == "MIT"@ || l == "BSD-2-Clause"@ || l == "BSD-3-Clause"@ || l == "ISC"@ || l == "MPL-2.0"@
}

/// Where a source is, for messages: `file:line`.
pub open spec fn at_spec(file: Seq<char>, line: nat) -> Seq<char> {
    file + ":"@ + decimal(line)
}

/// One message if `cond`, none otherwise.
pub open spec fn when(cond: bool, message: Seq<char>) -> Seq<Seq<char>> {
    if cond { seq![message] } else { Seq::empty() }
}

/// The message for a field a source leaves empty.
pub open spec fn missing(at: Seq<char>, field: Seq<char>) -> Seq<char> {
    at + ": source is missing `"@ + field + "`"@
}

/// The message for a revision that is not a pinned SHA.
pub open spec fn unpinned(at: Seq<char>, rev: Seq<char>) -> Seq<char> {
    at + ": rev `"@ + rev + "` is not a 40-char lowercase hex commit SHA. Branches and tags move; a moving corpus makes a green proof meaningless."@
}

/// The message for a licence off the allow-list.
pub open spec fn unlicensed(at: Seq<char>, license: Seq<char>) -> Seq<char> {
    at + ": license `"@ + license + "` is not on the allow-list (Apache-2.0, MIT, BSD-2-Clause, BSD-3-Clause, ISC, MPL-2.0)"@
}

/// `acc`, then the declaration problems of one source: empty fields, no
/// includes, no files.
pub open spec fn add_presence(acc: Seq<Seq<char>>, at: Seq<char>, s: Source) -> Seq<Seq<char>> {
    acc
        + when(s.name@.len() == 0, missing(at, "name"@))
        + when(s.repo@.len() == 0, missing(at, "repo"@))
        + when(s.rev@.len() == 0, missing(at, "rev"@))
        + when(s.license@.len() == 0, missing(at, "license"@))
        + when(s.license_file@.len() == 0, missing(at, "license_file"@))
        + when(s.includes@.len() == 0, at + ": source has no `include` pattern"@)
        + when(s.max_files == 0, at + ": `max_files` must be > 0"@)
}

/// `acc`, then the policy problems of one source: a moving revision, a
/// plain-text repository, a licence off the list, a name already used.
pub open spec fn add_policy(acc: Seq<Seq<char>>, at: Seq<char>, s: Source, earlier: Seq<Seq<char>>) -> Seq<Seq<char>> {
    acc
        + when(!is_pinned_sha_spec(s.rev@), unpinned(at, s.rev@))
        + when(!starts_with(s.repo@, "https://"@), at + ": repo `"@ + s.repo@ + "` is not an https:// URL"@)
        + when(!allowed_license(s.license@), unlicensed(at, s.license@))
        + when(earlier.contains(s.name@), at + ": duplicate source name `"@ + s.name@ + "`"@)
}

/// `acc`, then everything wrong with one source, given the names of the
/// sources before it.
pub open spec fn add_source(acc: Seq<Seq<char>>, file: Seq<char>, s: Source, earlier: Seq<Seq<char>>) -> Seq<Seq<char>> {
    let at = at_spec(file, s.line as nat);
    add_policy(add_presence(acc, at, s), at, s, earlier)
}

/// The names of the first `k` sources.
pub open spec fn names_before(ss: Seq<Source>, k: int) -> Seq<Seq<char>> {
    Seq::new(k as nat, |i: int| ss[i].name@)
}

/// The files the first `k` sources declare, summed and saturated at `u32::MAX`.
pub open spec fn declared(ss: Seq<Source>, k: int) -> nat
    decreases k,
{
    if k <= 0 || k > ss.len() {
        0
    } else {
        let d: nat = declared(ss, k - 1) + ss[k - 1].max_files as nat;
        if d > u32::MAX { u32::MAX as nat } else { d }
    }
}

/// `acc`, then everything wrong with the first `k` sources, in order.
pub open spec fn add_sources(acc: Seq<Seq<char>>, file: Seq<char>, ss: Seq<Source>, k: int) -> Seq<Seq<char>>
    decreases k,
{
    if k <= 0 || k > ss.len() {
        acc
    } else {
        add_source(add_sources(acc, file, ss, k - 1), file, ss[k - 1], names_before(ss, k - 1))
    }
}

/// The message for a cap the sources do not add up to.
pub open spec fn cap_mismatch(file: Seq<char>, declared: nat, cap: nat) -> Seq<char> {
    file + ": sources declare "@ + decimal(declared) + " files but the category cap is "@ + decimal(cap)
        + ". They must match exactly, so the cap is a fact and not a hope."@
}

/// Everything wrong with a manifest, in the order the rules are listed.
pub open spec fn check_spec(m: Manifest) -> Seq<Seq<char>> {
    let f = m.file@;
    let ss = m.sources@;
    let n = ss.len() as int;
    add_sources(when(n == 0, f + ": declares a cap but lists no sources"@), f, ss, n)
        + when(declared(ss, n) != m.cap, cap_mismatch(f, declared(ss, n), m.cap as nat))
}

/// Append `message` to `problems` when `cond` holds.
fn push_when(problems: &mut Vec<String>, cond: bool, message: String)
    ensures
        string_views(final(problems)@) == string_views(old(problems)@) + when(cond, message@),
{
    let ghost before = string_views(problems@);
    if cond {
        problems.push(message);
        proof {
            assert(string_views(problems@) =~= before + seq![message@]);
        }
    } else {
        proof {
            assert(before + Seq::<Seq<char>>::empty() =~= before);
        }
    }
}

fn at_string(file: &str, line: usize) -> (r: String)
    ensures
        r@ == at_spec(file@, line as nat),
{
    let mut out = String::new();
    push_at(&mut out, file, line);
    out
}

fn with_at(at: &String, tail: &str) -> (r: String)
    ensures
        r@ == at@ + tail@,
{
    let mut m = at.clone();
    m.append(tail);
    m
}

fn quoted(at: &String, open: &str, value: &str, close: &str) -> (r: String)
    ensures
        r@ == at@ + open@ + value@ + close@,
{
    let mut m = at.clone();
    m.append(open);
    m.append(value);
    m.append(close);
    m
}

fn allowed_license_exec(l: &str) -> (r: bool)
    ensures
        r == allowed_license(l@),
{
    same_text(l, "Apache-2.0") || same_text(l, "MIT") || same_text(l, "BSD-2-Clause") || same_text(l, "BSD-3-Clause")
        || same_text(l, "ISC") || same_text(l, "MPL-2.0")
}

fn empty_text(s: &String) -> (r: bool)
    ensures
        r == (s@.len() == 0),
{
    chars_of(s.as_str()).len() == 0
}

/// The field-presence problems of one source.
fn presence_problems(problems: &mut Vec<String>, at: &String, s: &Source)
    ensures
        string_views(final(problems)@) == add_presence(string_views(old(problems)@), at@, *s),
{
    proof {
        reveal_strlit(": source is missing `");
        reveal_strlit("`");
        reveal_strlit("name");
        reveal_strlit("repo");
        reveal_strlit("rev");
        reveal_strlit("license");
        reveal_strlit("license_file");
    }
    push_when(problems, empty_text(&s.name), quoted(at, ": source is missing `", "name", "`"));
    push_when(problems, empty_text(&s.repo), quoted(at, ": source is missing `", "repo", "`"));
    push_when(problems, empty_text(&s.rev), quoted(at, ": source is missing `", "rev", "`"));
    push_when(problems, empty_text(&s.license), quoted(at, ": source is missing `", "license", "`"));
    push_when(problems, empty_text(&s.license_file), quoted(at, ": source is missing `", "license_file", "`"));
    push_when(problems, s.includes.len() == 0, with_at(at, ": source has no `include` pattern"));
    push_when(problems, s.max_files == 0, with_at(at, ": `max_files` must be > 0"));
}

/// Whether `name` is among the names of `ss[..k]`.
fn name_taken(ss: &Vec<Source>, k: usize, name: &String) -> (r: bool)
    requires
        k <= ss@.len(),
    ensures
        r == names_before(ss@, k as int).contains(name@),
{
    let mut i: usize = 0;
    while i < k
        invariant
            k <= ss@.len(),
            i <= k,
            forall|j: int| 0 <= j < i ==> ss@[j].name@ != name@,
        decreases k - i,
    {
        if same_text(ss[i].name.as_str(), name.as_str()) {
            proof {
                assert(names_before(ss@, k as int)[i as int] == name@);
            }
            return true;
        }
        i = i + 1;
    }
    proof {
        if names_before(ss@, k as int).contains(name@) {
            let j = choose|j: int| 0 <= j < k && names_before(ss@, k as int)[j] == name@;
            assert(ss@[j].name@ == name@);
        }
    }
    false
}

/// The policy problems of source `k`, appended.
fn policy_problems(problems: &mut Vec<String>, at: &String, ss: &Vec<Source>, k: usize)
    requires
        k < ss@.len(),
    ensures
        string_views(final(problems)@) == add_policy(string_views(old(problems)@), at@, ss@[k as int], names_before(ss@, k as int)),
{
    let s = &ss[k];
    proof {
        reveal_strlit(": rev `");
        reveal_strlit("` is not a 40-char lowercase hex commit SHA. Branches and tags move; a moving corpus makes a green proof meaningless.");
        reveal_strlit("https://");
        reveal_strlit(": repo `");
        reveal_strlit("` is not an https:// URL");
        reveal_strlit(": license `");
        reveal_strlit("` is not on the allow-list (Apache-2.0, MIT, BSD-2-Clause, BSD-3-Clause, ISC, MPL-2.0)");
        reveal_strlit(": duplicate source name `");
        reveal_strlit("`");
    }
    push_when(problems, !is_pinned_sha(s.rev.as_str()), quoted(at, ": rev `", s.rev.as_str(),
        "` is not a 40-char lowercase hex commit SHA. Branches and tags move; a moving corpus makes a green proof meaningless."));
    let repo = chars_of(s.repo.as_str());
    push_when(problems, !starts_with_exec(&repo, "https://"), quoted(at, ": repo `", s.repo.as_str(), "` is not an https:// URL"));
    push_when(problems, !allowed_license_exec(s.license.as_str()), quoted(at, ": license `", s.license.as_str(),
        "` is not on the allow-list (Apache-2.0, MIT, BSD-2-Clause, BSD-3-Clause, ISC, MPL-2.0)"));
    let taken = name_taken(ss, k, &s.name);
    push_when(problems, taken, quoted(at, ": duplicate source name `", s.name.as_str(), "`"));
}

/// The problems of source `k`, appended.
fn check_source(problems: &mut Vec<String>, file: &str, ss: &Vec<Source>, k: usize)
    requires
        k < ss@.len(),
    ensures
        string_views(final(problems)@) == add_source(string_views(old(problems)@), file@, ss@[k as int], names_before(ss@, k as int)),
{
    let at = at_string(file, ss[k].line);
    presence_problems(problems, &at, &ss[k]);
    policy_problems(problems, &at, ss, k);
}

/// Check one manifest against every rule. All problems are returned, so one
/// run reports all of them rather than the first.
pub fn check(manifest: &Manifest) -> (r: Vec<String>)
    ensures
        string_views(r@) == check_spec(*manifest),
{
    let file = manifest.file.as_str();
    let ss = &manifest.sources;
    let mut problems: Vec<String> = Vec::new();
    proof {
        reveal_strlit(": declares a cap but lists no sources");
        assert(string_views(problems@) =~= Seq::<Seq<char>>::empty());
    }
    push_when(&mut problems, ss.len() == 0, with_at(&manifest.file, ": declares a cap but lists no sources"));
    let ghost head = string_views(problems@);
    let mut declared_sum: u32 = 0;
    let mut k: usize = 0;
    while k < ss.len()
        invariant
            k <= ss@.len(),
            file@ == manifest.file@,
            ss@ == manifest.sources@,
            string_views(problems@) == add_sources(head, file@, ss@, k as int),
            declared_sum as nat == declared(ss@, k as int),
        decreases ss@.len() - k,
    {
        let ghost before = string_views(problems@);
        check_source(&mut problems, file, ss, k);
        declared_sum = declared_sum.saturating_add(ss[k].max_files);
        k = k + 1;
    }
    if declared_sum != manifest.cap {
        let mut m = manifest.file.clone();
        m.append(": sources declare ");
        push_decimal(&mut m, declared_sum as u64);
        m.append(" files but the category cap is ");
        push_decimal(&mut m, manifest.cap as u64);
        m.append(". They must match exactly, so the cap is a fact and not a hope.");
        proof {
            reveal_strlit(": sources declare ");
            reveal_strlit(" files but the category cap is ");
            reveal_strlit(". They must match exactly, so the cap is a fact and not a hope.");
        }
        problems.push(m);
    }
    proof {
        assert(string_views(problems@) =~= check_spec(*manifest));
    }
    problems
}

// --- reading a manifest -----------------------------------------------------------

/// The index of the first newline in `t`, or -1.
pub open spec fn first_newline(t: Seq<char>) -> int
    decreases t.len(),
{
    if t.len() == 0 {
        -1
    } else if t[0] == '\n' {
        0
    } else if first_newline(t.drop_first()) < 0 {
        -1
    } else {
        first_newline(t.drop_first()) + 1
    }
}

/// A line that ended in a newline, without a carriage return before it.
pub open spec fn strip_cr(l: Seq<char>) -> Seq<char> {
    if l.len() > 0 && l.last() == '\r' { l.drop_last() } else { l }
}

/// The lines of `t` as `str::lines` yields them: split at `\n`, a `\r`
/// right before a `\n` dropped, and no empty line after a final newline.
pub open spec fn lines_spec(t: Seq<char>) -> Seq<Seq<char>>
    decreases t.len(),
{
    if t.len() == 0 {
        Seq::empty()
    } else {
        let k = first_newline(t);
        if k < 0 || k >= t.len() {
            seq![t]
        } else {
            seq![strip_cr(t.take(k))] + lines_spec(t.skip(k + 1))
        }
    }
}

proof fn lemma_first_newline(t: Seq<char>)
    ensures
        -1 <= first_newline(t) < t.len(),
        first_newline(t) >= 0 ==> t[first_newline(t)] == '\n',
        forall|i: int| 0 <= i < t.len() && (first_newline(t) < 0 || i < first_newline(t)) ==> #[trigger] t[i] != '\n',
    decreases t.len(),
{
    if t.len() > 0 && t[0] != '\n' {
        lemma_first_newline(t.drop_first());
        assert forall|i: int| 0 <= i < t.len() && (first_newline(t) < 0 || i < first_newline(t)) implies #[trigger] t[i] != '\n' by {
            if i > 0 {
                assert(t.drop_first()[i - 1] == t[i]);
            }
        }
    }
}

/// The lines of a text, as `str::lines` yields them.
pub(crate) fn lines_of(text: &str) -> (r: Vec<Vec<char>>)
    ensures
        r@.len() == lines_spec(text@).len(),
        forall|i: int| 0 <= i < r@.len() ==> (#[trigger] r@[i])@ == lines_spec(text@)[i],
{
    let cs = chars_of(text);
    let mut out: Vec<Vec<char>> = Vec::new();
    let mut pos: usize = 0;
    proof {
        assert(cs@.skip(0) == cs@);
    }
    while pos < cs.len()
        invariant
            cs@ == text@,
            pos <= cs@.len(),
            out@.len() + lines_spec(cs@.skip(pos as int)).len() == lines_spec(text@).len(),
            forall|i: int| 0 <= i < out@.len() ==> (#[trigger] out@[i])@ == lines_spec(text@)[i],
            forall|i: int| 0 <= i < lines_spec(cs@.skip(pos as int)).len() ==>
                lines_spec(text@)[out@.len() + i] == #[trigger] lines_spec(cs@.skip(pos as int))[i],
        decreases cs@.len() - pos,
    {
        let ghost t = cs@.skip(pos as int);
        let mut end = pos;
        while end < cs.len() && cs[end] != '\n'
            invariant
                pos <= end <= cs@.len(),
                forall|i: int| pos <= i < end ==> cs@[i] != '\n',
            decreases cs@.len() - end,
        {
            end = end + 1;
        }
        proof {
            lemma_first_newline(t);
            let k = first_newline(t);
            if end < cs@.len() {
                assert(t[end - pos] == '\n');
                assert(k == end - pos) by {
                    if k < 0 || k > end - pos {
                        assert(t[end - pos] != '\n');
                    } else if k < end - pos {
                        assert(cs@[pos + k] != '\n');
                    }
                }
            } else {
                assert(k < 0) by {
                    if k >= 0 {
                        assert(cs@[pos + k] != '\n');
                    }
                }
            }
        }
        let mut line: Vec<char> = Vec::new();
        let stop = if end < cs.len() && end > pos && cs[end - 1] == '\r' { end - 1 } else { end };
        let mut i = pos;
        while i < stop
            invariant
                pos <= i <= stop <= end <= cs@.len(),
                line@ == cs@.subrange(pos as int, i as int),
            decreases stop - i,
        {
            line.push(cs[i]);
            proof {
                assert(line@ =~= cs@.subrange(pos as int, i + 1));
            }
            i = i + 1;
        }
        proof {
            let k = first_newline(t);
            if end < cs@.len() {
                assert(t.take(k) =~= cs@.subrange(pos as int, end as int));
                assert(line@ =~= strip_cr(t.take(k)));
                assert(t.skip(k + 1) =~= cs@.skip(end + 1));
                assert(lines_spec(t) == seq![line@] + lines_spec(cs@.skip(end + 1)));
            } else {
                assert(line@ =~= t);
                assert(lines_spec(t) == seq![line@]);
                assert(cs@.skip(end as int) =~= Seq::<char>::empty());
            }
        }
        let ghost before = out@;
        out.push(line);
        proof {
            let nt = if end < cs@.len() { cs@.skip(end + 1) } else { cs@.skip(end as int) };
            assert forall|j: int| 0 <= j < out@.len() implies (#[trigger] out@[j])@ == lines_spec(text@)[j] by {
                if j < before.len() {
                    assert(out@[j] == before[j]);
                } else {
                    assert(lines_spec(t)[0] == line@);
                }
            }
            assert forall|j: int| 0 <= j < lines_spec(nt).len() implies
                lines_spec(text@)[out@.len() + j] == #[trigger] lines_spec(nt)[j] by {
                if end < cs@.len() {
                    assert(lines_spec(t)[j + 1] == lines_spec(nt)[j]);
                }
            }
        }
        pos = if end < cs.len() { end + 1 } else { end };
    }
    proof {
        assert(cs@.skip(pos as int) =~= Seq::<char>::empty());
    }
    out
}

/// A source as the rules read it.
pub struct SourceView {
    pub name: Seq<char>,
    pub repo: Seq<char>,
    pub rev: Seq<char>,
    pub license: Seq<char>,
    pub license_file: Seq<char>,
    pub includes: Seq<Seq<char>>,
    pub max_files: u32,
    pub line: nat,
}

/// How far a manifest has been read: its category, cap and sources so far.
pub struct ReadingView {
    pub category: Seq<char>,
    pub cap: Option<u32>,
    pub sources: Seq<SourceView>,
}

/// The view of a source.
pub open spec fn source_view(s: Source) -> SourceView {
    SourceView {
        name: s.name@,
        repo: s.repo@,
        rev: s.rev@,
        license: s.license@,
        license_file: s.license_file@,
        includes: string_views(s.includes@),
        max_files: s.max_files,
        line: s.line as nat,
    }
}

/// The views of some sources.
pub open spec fn source_views(ss: Seq<Source>) -> Seq<SourceView> {
    Seq::new(ss.len(), |i: int| source_view(ss[i]))
}

/// A source with only its header line known.
pub open spec fn fresh_source(line: nat) -> SourceView {
    SourceView {
        name: Seq::empty(),
        repo: Seq::empty(),
        rev: Seq::empty(),
        license: Seq::empty(),
        license_file: Seq::empty(),
        includes: Seq::empty(),
        max_files: 0,
        line,
    }
}

/// The message prefix `file:line: `.
pub open spec fn at_line(file: Seq<char>, line_no: nat) -> Seq<char> {
    file + ":"@ + decimal(line_no) + ": "@
}

/// `s` with the field named `key` set to `value`, or the message for an
/// unknown key or a count that is not a number.
pub open spec fn set_field(s: SourceView, key: Seq<char>, value: Seq<char>, file: Seq<char>, line_no: nat) -> Result<SourceView, Seq<char>> {
    if key == "name"@ {
        Ok(SourceView { name: value, ..s })
    } else if key == "repo"@ {
        Ok(SourceView { repo: value, ..s })
    } else if key == "rev"@ {
        Ok(SourceView { rev: value, ..s })
    } else if key == "license"@ {
        Ok(SourceView { license: value, ..s })
    } else if key == "license_file"@ {
        Ok(SourceView { license_file: value, ..s })
    } else if key == "include"@ {
        Ok(SourceView { includes: s.includes.push(value), ..s })
    } else if key == "max_files"@ {
        match parse_u32_spec(value) {
            Some(n) => Ok(SourceView { max_files: n, ..s }),
            None => Err(at_line(file, line_no) + "max_files `"@ + value + "` is not a number"@),
        }
    } else {
        Err(at_line(file, line_no) + "unknown key `"@ + key + "`"@)
    }
}

/// One line of a manifest, read into the state so far.
pub open spec fn read_line(st: ReadingView, raw: Seq<char>, line_no: nat, file: Seq<char>) -> Result<ReadingView, Seq<char>> {
    let line = trim(raw);
    if line.len() == 0 {
        Ok(st)
    } else if starts_with(line, "#!"@) {
        let directive = line.skip(2);
        match split_kv_spec(directive, file, line_no) {
            Err(m) => Err(m),
            Ok((key, value)) => if key == "category"@ {
                Ok(ReadingView { category: value, ..st })
            } else if key == "cap"@ {
                match parse_u32_spec(value) {
                    Some(n) => Ok(ReadingView { cap: Some(n), ..st }),
                    None => Err(at_line(file, line_no) + "cap `"@ + value + "` is not a number"@),
                }
            } else {
                Err(at_line(file, line_no) + "unknown directive `"@ + key + "`"@)
            },
        }
    } else if starts_with(line, "#"@) {
        Ok(st)
    } else if line == "[source]"@ {
        Ok(ReadingView { sources: st.sources.push(fresh_source(line_no)), ..st })
    } else if st.sources.len() == 0 {
        Err(at_line(file, line_no) + "`"@ + line + "` appears before any [source]"@)
    } else {
        match split_kv_spec(line, file, line_no) {
            Err(m) => Err(m),
            Ok((key, value)) => match set_field(st.sources.last(), key, value, file, line_no) {
                Err(m) => Err(m),
                Ok(s) => Ok(ReadingView { sources: st.sources.drop_last().push(s), ..st }),
            },
        }
    }
}

/// The state after the first `k` lines, or the first problem met.
pub open spec fn read_lines(ls: Seq<Seq<char>>, file: Seq<char>, k: int) -> Result<ReadingView, Seq<char>>
    decreases k,
{
    if k <= 0 || k > ls.len() {
        Ok(ReadingView { category: Seq::empty(), cap: None, sources: Seq::empty() })
    } else {
        match read_lines(ls, file, k - 1) {
            Err(m) => Err(m),
            Ok(st) => read_line(st, ls[k - 1], k as nat, file),
        }
    }
}

/// A manifest's category, cap and sources, or the first problem that stops
/// it being read: a malformed line, or a missing category or cap.
pub open spec fn read_manifest(text: Seq<char>, file: Seq<char>) -> Result<ReadingView, Seq<char>> {
    let ls = lines_spec(text);
    match read_lines(ls, file, ls.len() as int) {
        Err(m) => Err(m),
        Ok(st) => if st.category.len() == 0 {
            Err(file + ": missing `#! category = ...`"@)
        } else if st.cap is None {
            Err(file + ": missing `#! cap = ...`"@)
        } else {
            Ok(st)
        },
    }
}

/// The view of a manifest being read.
pub open spec fn reading_view(category: String, cap: Option<u32>, sources: Seq<Source>) -> ReadingView {
    ReadingView { category: category@, cap, sources: source_views(sources) }
}

/// `file:line: `, as a new string.
fn at_line_string(file: &str, line_no: usize) -> (r: String)
    ensures
        r@ == at_line(file@, line_no as nat),
{
    let mut m = String::new();
    push_at(&mut m, file, line_no);
    m.append(": ");
    proof {
        reveal_strlit(": ");
    }
    m
}

/// Set the field of `cur` named `key`.
fn set_source_field(cur: &mut Source, key: &String, value: String, file: &str, line_no: usize) -> (r: Result<(), String>)
    ensures
        match set_field(source_view(*old(cur)), key@, value@, file@, line_no as nat) {
            Ok(v) => r is Ok && source_view(*final(cur)) == v,
            Err(m) => r matches Err(e) && e@ == m,
        },
{
    proof {
        reveal_strlit("name");
        reveal_strlit("repo");
        reveal_strlit("rev");
        reveal_strlit("license");
        reveal_strlit("license_file");
        reveal_strlit("include");
        reveal_strlit("max_files");
    }
    let k = key.as_str();
    if same_text(k, "name") {
        cur.name = value;
    } else if same_text(k, "repo") {
        cur.repo = value;
    } else if same_text(k, "rev") {
        cur.rev = value;
    } else if same_text(k, "license") {
        cur.license = value;
    } else if same_text(k, "license_file") {
        cur.license_file = value;
    } else if same_text(k, "include") {
        let ghost before = cur.includes@;
        cur.includes.push(value);
        proof {
            assert(string_views(cur.includes@) =~= string_views(before).push(value@));
        }
    } else if same_text(k, "max_files") {
        match parse_u32(value.as_str()) {
            Some(n) => {
                cur.max_files = n;
            },
            None => {
                let mut m = at_line_string(file, line_no);
                m.append("max_files `");
                m.append(value.as_str());
                m.append("` is not a number");
                proof {
                    reveal_strlit("max_files `");
                    reveal_strlit("` is not a number");
                }
                return Err(m);
            },
        }
    } else {
        let mut m = at_line_string(file, line_no);
        m.append("unknown key `");
        m.append(k);
        m.append("`");
        proof {
            reveal_strlit("unknown key `");
            reveal_strlit("`");
        }
        return Err(m);
    }
    Ok(())
}

/// A directive line's effect on the category and cap.
fn read_directive(category: &mut String, cap: &mut Option<u32>, directive: &String, file: &str, line_no: usize) -> (r: Result<(), String>)
    ensures
        match split_kv_spec(directive@, file@, line_no as nat) {
            Err(m) => r matches Err(e) && e@ == m,
            Ok((key, value)) => if key == "category"@ {
                r is Ok && final(category)@ == value && *final(cap) == *old(cap)
            } else if key == "cap"@ {
                match parse_u32_spec(value) {
                    Some(n) => r is Ok && *final(cap) == Some(n) && final(category)@ == old(category)@,
                    None => r matches Err(e) && e@ == at_line(file@, line_no as nat) + "cap `"@ + value + "` is not a number"@,
                }
            } else {
                r matches Err(e) && e@ == at_line(file@, line_no as nat) + "unknown directive `"@ + key + "`"@
            },
        },
{
    proof {
        reveal_strlit("category");
        reveal_strlit("cap");
        reveal_strlit("cap `");
        reveal_strlit("` is not a number");
        reveal_strlit("unknown directive `");
        reveal_strlit("`");
    }
    let (key, value) = match split_kv(directive.as_str(), file, line_no) {
        Err(m) => {
            return Err(m);
        },
        Ok(kv) => kv,
    };
    if same_text(key.as_str(), "category") {
        *category = value;
        Ok(())
    } else if same_text(key.as_str(), "cap") {
        match parse_u32(value.as_str()) {
            Some(n) => {
                *cap = Some(n);
                Ok(())
            },
            None => {
                let mut m = at_line_string(file, line_no);
                m.append("cap `");
                m.append(value.as_str());
                m.append("` is not a number");
                Err(m)
            },
        }
    } else {
        let mut m = at_line_string(file, line_no);
        m.append("unknown directive `");
        m.append(key.as_str());
        m.append("`");
        Err(m)
    }
}

/// A key line's effect on the last source.
fn read_key(sources: &mut Vec<Source>, line: &String, file: &str, line_no: usize) -> (r: Result<(), String>)
    requires
        old(sources)@.len() > 0,
    ensures
        match split_kv_spec(line@, file@, line_no as nat) {
            Err(m) => r matches Err(e) && e@ == m,
            Ok((key, value)) => match set_field(source_views(old(sources)@).last(), key, value, file@, line_no as nat) {
                Err(m) => r matches Err(e) && e@ == m,
                Ok(s) => r is Ok && source_views(final(sources)@) == source_views(old(sources)@).drop_last().push(s),
            },
        },
{
    let (key, value) = match split_kv(line.as_str(), file, line_no) {
        Err(m) => {
            return Err(m);
        },
        Ok(kv) => kv,
    };
    let ghost before = sources@;
    let mut cur = sources.pop().unwrap();
    proof {
        assert(source_views(before).last() == source_view(cur));
        assert(sources@ == before.drop_last());
    }
    let r = set_source_field(&mut cur, &key, value, file, line_no);
    sources.push(cur);
    proof {
        assert(source_views(sources@) =~= source_views(before).drop_last().push(source_view(cur)));
    }
    r
}

/// Read one line of a manifest into the state so far.
fn read_line_exec(category: &mut String, cap: &mut Option<u32>, sources: &mut Vec<Source>, raw: &Vec<char>, line_no: usize, file: &str)
    -> (r: Result<(), String>)
    ensures
        match read_line(reading_view(*old(category), *old(cap), old(sources)@), raw@, line_no as nat, file@) {
            Ok(v) => r is Ok && reading_view(*final(category), *final(cap), final(sources)@) == v,
            Err(m) => r matches Err(e) && e@ == m,
        },
{
    proof {
        reveal_strlit("#!");
        reveal_strlit("#");
        reveal_strlit("[source]");
        reveal_strlit("`");
        reveal_strlit("` appears before any [source]");
    }
    let (a, b) = trim_range(raw, 0, raw.len());
    proof {
        assert(raw@.subrange(0, raw@.len() as int) == raw@);
    }
    let line = string_of_range(raw, a, b);
    let lc = chars_of(line.as_str());
    if lc.len() == 0 {
        return Ok(());
    }
    if starts_with_exec(&lc, "#!") {
        let directive = string_of_range(&lc, 2, lc.len());
        proof {
            assert(lc@.subrange(2, lc@.len() as int) == lc@.skip(2));
        }
        return read_directive(category, cap, &directive, file, line_no);
    }
    if starts_with_exec(&lc, "#") {
        return Ok(());
    }
    if same_text(line.as_str(), "[source]") {
        let ghost before = sources@;
        sources.push(Source {
            name: String::new(),
            repo: String::new(),
            rev: String::new(),
            license: String::new(),
            license_file: String::new(),
            includes: Vec::new(),
            max_files: 0,
            line: line_no,
        });
        proof {
            assert(string_views(Seq::<String>::empty()) =~= Seq::<Seq<char>>::empty());
            assert(source_views(sources@) =~= source_views(before).push(fresh_source(line_no as nat)));
        }
        return Ok(());
    }
    if sources.len() == 0 {
        let mut m = at_line_string(file, line_no);
        m.append("`");
        m.append(line.as_str());
        m.append("` appears before any [source]");
        return Err(m);
    }
    read_key(sources, &line, file, line_no)
}

/// Read a manifest's text: its `#!` directives and its `[source]` records.
/// `file` names it in messages. The first malformed line stops the reading.
pub fn parse_manifest(text: &str, file: &str) -> (r: Result<Manifest, String>)
    ensures
        match read_manifest(text@, file@) {
            Ok(v) => r matches Ok(m) && m.file@ == file@ && reading_view(m.category, Some(m.cap), m.sources@) == v,
            Err(e) => r matches Err(x) && x@ == e,
        },
{
    let ls = lines_of(text);
    let ghost lsv = lines_spec(text@);
    let mut category = String::new();
    let mut cap: Option<u32> = None;
    let mut sources: Vec<Source> = Vec::new();
    let mut k: usize = 0;
    proof {
        assert(source_views(sources@) =~= Seq::<SourceView>::empty());
    }
    while k < ls.len()
        invariant
            ls@.len() == lsv.len(),
            lsv == lines_spec(text@),
            forall|i: int| 0 <= i < ls@.len() ==> (#[trigger] ls@[i])@ == lsv[i],
            k <= ls@.len(),
            read_lines(lsv, file@, k as int) == Ok::<ReadingView, Seq<char>>(reading_view(category, cap, sources@)),
        decreases ls@.len() - k,
    {
        proof {
            assert(ls@[k as int]@ == lsv[k as int]);
        }
        match read_line_exec(&mut category, &mut cap, &mut sources, &ls[k], k + 1, file) {
            Err(m) => {
                proof {
                    lemma_read_lines_stops(lsv, file@, (k + 1) as int);
                }
                return Err(m);
            },
            Ok(()) => {},
        }
        k = k + 1;
    }
    proof {
        reveal_strlit(": missing `#! category = ...`");
        reveal_strlit(": missing `#! cap = ...`");
    }
    if chars_of(category.as_str()).len() == 0 {
        let mut m = String::from_str(file);
        m.append(": missing `#! category = ...`");
        return Err(m);
    }
    match cap {
        None => {
            let mut m = String::from_str(file);
            m.append(": missing `#! cap = ...`");
            Err(m)
        },
        Some(c) => Ok(Manifest { file: String::from_str(file), category, cap: c, sources }),
    }
}

/// Once a line fails, reading stops with its message.
proof fn lemma_read_lines_stops(ls: Seq<Seq<char>>, file: Seq<char>, k: int)
    requires
        0 < k <= ls.len(),
        read_lines(ls, file, k) is Err,
    ensures
        read_lines(ls, file, ls.len() as int) == read_lines(ls, file, k),
    decreases ls.len() - k,
{
    if k < ls.len() {
        lemma_read_lines_stops(ls, file, k + 1);
    }
}

// --- the whole corpus -----------------------------------------------------------------

/// The first index at or after `j` whose text is not below `key`.
pub open spec fn first_not_below_text(t: Seq<Seq<char>>, key: Seq<char>, j: int) -> int
    decreases t.len() - j,
{
    if j < 0 || j >= t.len() {
        t.len() as int
    } else if text_le(key, t[j]) {
        j
    } else {
        first_not_below_text(t, key, j + 1)
    }
}

/// Texts in byte order: each text, from the last to the first, goes in front
/// of the first text not below it.
pub open spec fn sorted_texts(s: Seq<Seq<char>>) -> Seq<Seq<char>>
    decreases s.len(),
{
    if s.len() == 0 {
        Seq::empty()
    } else {
        let t = sorted_texts(s.drop_first());
        t.insert(first_not_below_text(t, s[0], 0), s[0])
    }
}

/// Sort strings into byte order.
fn sort_texts(v: Vec<String>) -> (r: Vec<String>)
    ensures
        string_views(r@) == sorted_texts(string_views(v@)),
{
    let ghost orig = string_views(v@);
    let mut v = v;
    let mut out: Vec<String> = Vec::new();
    proof {
        assert(string_views(v@) == orig.subrange(0, v@.len() as int));
        assert(orig.subrange(v@.len() as int, orig.len() as int) =~= Seq::<Seq<char>>::empty());
        assert(string_views(out@) =~= Seq::<Seq<char>>::empty());
    }
    while v.len() > 0
        invariant
            orig.len() >= v@.len(),
            string_views(v@) == orig.subrange(0, v@.len() as int),
            string_views(out@) == sorted_texts(orig.subrange(v@.len() as int, orig.len() as int)),
        decreases v@.len(),
    {
        let ghost k = v@.len();
        let ghost before = v@;
        let x = v.pop().unwrap();
        let key = chars_of(x.as_str());
        let ghost ov = string_views(out@);
        let mut pos: usize = 0;
        while pos < out.len() && !text_le_exec(&key, &chars_of(out[pos].as_str()))
            invariant
                pos <= out@.len(),
                ov == string_views(out@),
                first_not_below_text(ov, key@, 0) == first_not_below_text(ov, key@, pos as int),
            decreases out@.len() - pos,
        {
            proof {
                assert(ov[pos as int] == out@[pos as int]@);
            }
            pos = pos + 1;
        }
        proof {
            if pos < out@.len() {
                assert(ov[pos as int] == out@[pos as int]@);
            }
            let suffix = orig.subrange(k - 1, orig.len() as int);
            assert(suffix.drop_first() =~= orig.subrange(k as int, orig.len() as int));
            assert(before.last() == x);
            assert(string_views(before)[k - 1] == x@);
            assert(suffix[0] == x@);
            assert(string_views(v@) =~= orig.subrange(0, k - 1));
        }
        out.insert(pos, x);
        proof {
            assert(string_views(out@) =~= ov.insert(pos as int, x@));
        }
    }
    proof {
        assert(orig.subrange(0, orig.len() as int) == orig);
    }
    out
}

/// Texts joined with newlines between them.
pub open spec fn joined(t: Seq<Seq<char>>) -> Seq<char>
    decreases t.len(),
{
    if t.len() == 0 {
        Seq::empty()
    } else if t.len() == 1 {
        t[0]
    } else {
        joined(t.drop_last()) + "\n"@ + t.last()
    }
}

fn join_lines(t: &Vec<String>) -> (r: String)
    ensures
        r@ == joined(string_views(t@)),
{
    let mut out = String::new();
    let mut i: usize = 0;
    proof {
        reveal_strlit("\n");
    }
    while i < t.len()
        invariant
            i <= t@.len(),
            out@ == joined(string_views(t@).take(i as int)),
        decreases t@.len() - i,
    {
        proof {
            let u = string_views(t@).take(i + 1);
            assert(u.drop_last() =~= string_views(t@).take(i as int));
            assert(u.last() == t@[i as int]@);
            if i == 0 {
                assert(u[0] == t@[0]@);
            }
        }
        if i > 0 {
            out.append("\n");
        }
        out.append(t[i].as_str());
        i = i + 1;
    }
    proof {
        assert(string_views(t@).take(i as int) =~= string_views(t@));
    }
    out
}

/// `s` left-aligned in `width` characters.
pub open spec fn pad_right(s: Seq<char>, width: nat) -> Seq<char> {
    if s.len() >= width { s } else { s + Seq::new((width - s.len()) as nat, |i: int| ' ') }
}

/// `s` right-aligned in `width` characters.
pub open spec fn pad_left(s: Seq<char>, width: nat) -> Seq<char> {
    if s.len() >= width { s } else { Seq::new((width - s.len()) as nat, |i: int| ' ') + s }
}

/// One row of the summary: a name, a cap, and what follows.
pub open spec fn summary_row(name: Seq<char>, cap: nat, tail: Seq<char>) -> Seq<char> {
    "  "@ + pad_right(name, 16) + " cap "@ + pad_left(decimal(cap), 5) + "   "@ + tail + "\n"@
}

/// The summary rows of the manifests among the first `k` entries.
pub open spec fn summary_rows(ps: Seq<Result<Manifest, String>>, k: int) -> Seq<char>
    decreases k,
{
    if k <= 0 || k > ps.len() {
        Seq::empty()
    } else {
        summary_rows(ps, k - 1) + match ps[k - 1] {
            Ok(m) => summary_row(m.category@, m.cap as nat, decimal(m.sources@.len()) + " source(s)"@),
            Err(_) => Seq::empty(),
        }
    }
}

/// The caps of the manifests among the first `k` entries, summed and
/// saturated at `u32::MAX`.
pub open spec fn total_cap(ps: Seq<Result<Manifest, String>>, k: int) -> nat
    decreases k,
{
    if k <= 0 || k > ps.len() {
        0
    } else {
        match ps[k - 1] {
            Ok(m) => {
                let t: nat = total_cap(ps, k - 1) + m.cap as nat;
                if t > u32::MAX { u32::MAX as nat } else { t }
            },
            Err(_) => total_cap(ps, k - 1),
        }
    }
}

/// `acc`, then the problems of the manifests among the first `k` entries.
pub open spec fn add_checks(acc: Seq<Seq<char>>, ps: Seq<Result<Manifest, String>>, k: int) -> Seq<Seq<char>>
    decreases k,
{
    if k <= 0 || k > ps.len() {
        acc
    } else {
        add_checks(acc, ps, k - 1) + match ps[k - 1] {
            Ok(m) => check_spec(m),
            Err(_) => Seq::empty(),
        }
    }
}

/// The messages of the entries among the first `k` that could not be read.
pub open spec fn read_errors(ps: Seq<Result<Manifest, String>>, k: int) -> Seq<Seq<char>>
    decreases k,
{
    if k <= 0 || k > ps.len() {
        Seq::empty()
    } else {
        read_errors(ps, k - 1) + match ps[k - 1] {
            Ok(_) => Seq::empty(),
            Err(e) => seq![e@],
        }
    }
}

/// The message for caps that exceed the ceiling.
pub open spec fn over_ceiling(total: nat) -> Seq<char> {
    "total cap "@ + decimal(total) + " exceeds the "@ + decimal(GLOBAL_FILE_CAP as nat) + "-file ceiling"@
}

/// Every problem with the corpus, unsorted: unreadable manifests, then each
/// manifest's problems, then the ceiling.
pub open spec fn corpus_problems(ps: Seq<Result<Manifest, String>>) -> Seq<Seq<char>> {
    let n = ps.len() as int;
    add_checks(read_errors(ps, n), ps, n) + when(total_cap(ps, n) > GLOBAL_FILE_CAP, over_ceiling(total_cap(ps, n)))
}

/// The summary of a corpus whose manifests are all in order.
pub open spec fn corpus_summary(ps: Seq<Result<Manifest, String>>) -> Seq<char> {
    let n = ps.len() as int;
    "corpus manifests\n"@ + summary_rows(ps, n)
        + summary_row("TOTAL"@, total_cap(ps, n), "(ceiling "@ + decimal(GLOBAL_FILE_CAP as nat) + ")"@)
}

/// The message for a corpus with no manifests at all.
pub open spec fn no_manifests(dir: Seq<char>) -> Seq<char> {
    "no `*.sources` manifests in "@ + dir + " \u{2014} a corpus gate with no sources is vacuous"@
}

pub(crate) fn push_padded_left(out: &mut String, s: &str, width: usize)
    ensures
        final(out)@ == old(out)@ + pad_left(s@, width as nat),
{
    let n = chars_of(s).len();
    let mut k = n;
    while k < width
        invariant
            n == s@.len(),
            n <= k <= width || (k == n && n >= width),
            out@ == old(out)@ + Seq::new((k - n) as nat, |i: int| ' '),
        decreases width - k,
    {
        push_char(out, ' ');
        proof {
            assert(out@ =~= old(out)@ + Seq::new((k + 1 - n) as nat, |i: int| ' '));
        }
        k = k + 1;
    }
    out.append(s);
    proof {
        if n >= width {
            assert(Seq::new((k - n) as nat, |i: int| ' ') =~= Seq::<char>::empty());
            assert(out@ =~= old(out)@ + s@);
        } else {
            assert(out@ =~= old(out)@ + pad_left(s@, width as nat));
        }
    }
}

pub(crate) fn push_padded_right(out: &mut String, s: &str, width: usize)
    ensures
        final(out)@ == old(out)@ + pad_right(s@, width as nat),
{
    out.append(s);
    let n = chars_of(s).len();
    let mut k = n;
    while k < width
        invariant
            n == s@.len(),
            n <= k <= width || (k == n && n >= width),
            out@ == old(out)@ + s@ + Seq::new((k - n) as nat, |i: int| ' '),
        decreases width - k,
    {
        push_char(out, ' ');
        proof {
            assert(out@ =~= old(out)@ + s@ + Seq::new((k + 1 - n) as nat, |i: int| ' '));
        }
        k = k + 1;
    }
    proof {
        if n >= width {
            assert(out@ =~= old(out)@ + s@);
        } else {
            assert(out@ =~= old(out)@ + pad_right(s@, width as nat));
        }
    }
}

fn push_row(out: &mut String, name: &str, cap: u32, tail: &String)
    ensures
        final(out)@ == old(out)@ + summary_row(name@, cap as nat, tail@),
{
    proof {
        reveal_strlit("  ");
        reveal_strlit(" cap ");
        reveal_strlit("   ");
        reveal_strlit("\n");
    }
    out.append("  ");
    push_padded_right(out, name, 16);
    out.append(" cap ");
    let digits = crate::text::decimal_string(cap as u64);
    let n = chars_of(digits.as_str()).len();
    let mut k = n;
    while k < 5
        invariant
            n == digits@.len(),
            n <= k <= 5 || (k == n && n >= 5),
            out@ == old(out)@ + "  "@ + pad_right(name@, 16) + " cap "@ + Seq::new((k - n) as nat, |i: int| ' '),
        decreases 5 - k,
    {
        push_char(out, ' ');
        proof {
            assert(out@ =~= old(out)@ + "  "@ + pad_right(name@, 16) + " cap "@ + Seq::new((k + 1 - n) as nat, |i: int| ' '));
        }
        k = k + 1;
    }
    out.append(digits.as_str());
    out.append("   ");
    out.append(tail.as_str());
    out.append("\n");
    proof {
        let pre = old(out)@ + "  "@ + pad_right(name@, 16) + " cap "@;
        if n >= 5 {
            assert(Seq::new((k - n) as nat, |i: int| ' ') =~= Seq::<char>::empty());
        }
        assert(out@ =~= old(out)@ + summary_row(name@, cap as nat, tail@));
    }
}

/// Judge a whole corpus from its manifests, each read or not, in file order.
/// Every manifest is checked before judging, so one run reports every
/// problem, in byte order; with none, the result is the summary.
pub fn summarize(dir: &str, parsed: Vec<Result<Manifest, String>>) -> (r: Result<String, String>)
    ensures
        parsed@.len() == 0 ==> (r matches Err(e) && e@ == no_manifests(dir@)),
        parsed@.len() > 0 && corpus_problems(parsed@).len() == 0 ==> (r matches Ok(s) && s@ == corpus_summary(parsed@)),
        parsed@.len() > 0 && corpus_problems(parsed@).len() > 0 ==> (r matches Err(e) && e@ == joined(sorted_texts(corpus_problems(parsed@)))),
{
    let ghost ps = parsed@;
    let n = parsed.len();
    if n == 0 {
        let mut m = String::from_str("no `*.sources` manifests in ");
        m.append(dir);
        m.append(" \u{2014} a corpus gate with no sources is vacuous");
        proof {
            reveal_strlit("no `*.sources` manifests in ");
            reveal_strlit(" \u{2014} a corpus gate with no sources is vacuous");
        }
        return Err(m);
    }
    let mut problems: Vec<String> = Vec::new();
    let mut i: usize = 0;
    proof {
        assert(string_views(problems@) =~= read_errors(ps, 0));
    }
    while i < n
        invariant
            ps == parsed@,
            n == ps.len(),
            i <= n,
            string_views(problems@) == read_errors(ps, i as int),
        decreases n - i,
    {
        match &parsed[i] {
            Ok(_) => {
                proof {
                    assert(read_errors(ps, i + 1) =~= read_errors(ps, i as int));
                }
            },
            Err(e) => {
                let ghost before = string_views(problems@);
                problems.push(e.clone());
                proof {
                    assert(string_views(problems@) =~= read_errors(ps, i + 1));
                }
            },
        }
        i = i + 1;
    }
    let ghost head = string_views(problems@);
    let mut summary = String::from_str("corpus manifests\n");
    proof {
        reveal_strlit("corpus manifests\n");
        reveal_strlit(" source(s)");
    }
    let mut total: u32 = 0;
    let mut j: usize = 0;
    while j < n
        invariant
            ps == parsed@,
            n == ps.len(),
            j <= n,
            head == read_errors(ps, n as int),
            string_views(problems@) == add_checks(head, ps, j as int),
            total as nat == total_cap(ps, j as int),
            summary@ == "corpus manifests\n"@ + summary_rows(ps, j as int),
        decreases n - j,
    {
        match &parsed[j] {
            Ok(m) => {
                let found = check(m);
                let ghost before = string_views(problems@);
                let mut found = found;
                problems.append(&mut found);
                proof {
                    assert(string_views(problems@) =~= before + check_spec(*m));
                }
                total = total.saturating_add(m.cap);
                let mut tail = crate::text::decimal_string(m.sources.len() as u64);
                tail.append(" source(s)");
                push_row(&mut summary, m.category.as_str(), m.cap, &tail);
            },
            Err(_) => {
                proof {
                    assert(add_checks(head, ps, j + 1) =~= add_checks(head, ps, j as int));
                    assert(summary_rows(ps, j + 1) =~= summary_rows(ps, j as int));
                }
            },
        }
        j = j + 1;
    }
    let mut tail = String::from_str("(ceiling ");
    push_decimal(&mut tail, GLOBAL_FILE_CAP as u64);
    tail.append(")");
    proof {
        reveal_strlit("(ceiling ");
        reveal_strlit(")");
        reveal_strlit("TOTAL");
    }
    push_row(&mut summary, "TOTAL", total, &tail);
    if total > GLOBAL_FILE_CAP {
        let mut m = String::from_str("total cap ");
        push_decimal(&mut m, total as u64);
        m.append(" exceeds the ");
        push_decimal(&mut m, GLOBAL_FILE_CAP as u64);
        m.append("-file ceiling");
        proof {
            reveal_strlit("total cap ");
            reveal_strlit(" exceeds the ");
            reveal_strlit("-file ceiling");
        }
        problems.push(m);
    }
    proof {
        assert(string_views(problems@) =~= corpus_problems(ps));
    }
    if problems.len() == 0 {
        return Ok(summary);
    }
    let sorted = sort_texts(problems);
    Err(join_lines(&sorted))
}

/// Whether texts are in byte order.
pub open spec fn texts_sorted(t: Seq<Seq<char>>) -> bool {
    forall|i: int, j: int| 0 <= i < j < t.len() ==> text_le(#[trigger] t[i], #[trigger] t[j])
}

proof fn lemma_first_not_below_text(t: Seq<Seq<char>>, key: Seq<char>, j: int)
    requires
        0 <= j <= t.len(),
    ensures
        j <= first_not_below_text(t, key, j) <= t.len(),
        forall|i: int| j <= i < first_not_below_text(t, key, j) ==> !text_le(key, #[trigger] t[i]),
        first_not_below_text(t, key, j) < t.len() ==> text_le(key, t[first_not_below_text(t, key, j)]),
    decreases t.len() - j,
{
    if j < t.len() && !text_le(key, t[j]) {
        lemma_first_not_below_text(t, key, j + 1);
    }
}

/// The problem list is in byte order and loses nothing: sorting a list of
/// messages orders it and keeps every message, as often as it occurred.
pub proof fn lemma_problems_sorted(s: Seq<Seq<char>>)
    ensures
        texts_sorted(sorted_texts(s)),
        sorted_texts(s).to_multiset() == s.to_multiset(),
    decreases s.len(),
{
    if s.len() > 0 {
        let rest = s.drop_first();
        lemma_problems_sorted(rest);
        let t = sorted_texts(rest);
        let x = s[0];
        let pos = first_not_below_text(t, x, 0);
        lemma_first_not_below_text(t, x, 0);
        let u = t.insert(pos, x);
        assert forall|i: int, j: int| 0 <= i < j < u.len() implies text_le(#[trigger] u[i], #[trigger] u[j]) by {
            if j < pos {
                assert(u[i] == t[i] && u[j] == t[j]);
            } else if j == pos {
                assert(u[i] == t[i] && u[j] == x);
                assert(!text_le(x, t[i]));
                lemma_text_le_total(x, t[i]);
            } else if i == pos {
                assert(u[i] == x && u[j] == t[j - 1]);
                if pos < t.len() && j - 1 > pos {
                    assert(text_le(t[pos], t[j - 1]));
                    lemma_text_le_trans(x, t[pos], t[j - 1]);
                }
            } else if i < pos {
                assert(u[i] == t[i] && u[j] == t[j - 1]);
            } else {
                assert(u[i] == t[i - 1] && u[j] == t[j - 1]);
            }
        }
        let a = t.subrange(0, pos);
        let b = t.subrange(pos, t.len() as int);
        assert(u == a + seq![x] + b);
        assert(t == a + b);
        vstd::seq_lib::lemma_multiset_commutative(a + seq![x], b);
        vstd::seq_lib::lemma_multiset_commutative(a, seq![x]);
        vstd::seq_lib::lemma_multiset_commutative(a, b);
        vstd::seq_lib::lemma_multiset_commutative(seq![x], rest);
        assert(s == seq![x] + rest);
        assert(u.to_multiset() =~= s.to_multiset());
        assert(sorted_texts(s) == u);
    } else {
        broadcast use vstd::seq_lib::group_to_multiset_ensures;
        assert(sorted_texts(s) =~= s);
    }
}

} // verus!
