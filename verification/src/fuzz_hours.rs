//! The fuzz-hour ledger reads which workflow runs happened, and how they
//! ended, out of the JSON array `gh run list --json` prints. Only the two
//! fields it needs are scanned for; the shape is fixed by the flags passed.
use crate::corpus::{is_white, trim_start};
use crate::semantic::chars_of;
use crate::text::push_char;
use vstd::prelude::*;
use vstd::string::*;

verus! {

/// One workflow run.
#[derive(Debug, PartialEq, Eq)]
pub struct Run {
    /// The commit the run tested.
    pub sha: String,
    /// How it ended: `success`, `failure`, or empty while unfinished.
    pub conclusion: String,
}

/// Whether `pat` occurs in `s` at `i`.
pub open spec fn occurs_at(s: Seq<char>, pat: Seq<char>, i: int) -> bool {
    0 <= i && i + pat.len() <= s.len() && s.subrange(i, i + pat.len()) == pat
}

/// The first occurrence of `pat` in `s` at or after `i`, or -1.
pub open spec fn find_from(s: Seq<char>, pat: Seq<char>, i: int) -> int
    decreases s.len() + 1 - i,
{
    if i < 0 || i + pat.len() > s.len() {
        -1
    } else if occurs_at(s, pat, i) {
        i
    } else {
        find_from(s, pat, i + 1)
    }
}

/// The pieces of `s` between occurrences of the character `c`.
pub open spec fn split_on(s: Seq<char>, c: char) -> Seq<Seq<char>>
    decreases s.len(),
{
    if s.len() == 0 {
        seq![Seq::empty()]
    } else {
        let rest = split_on(s.drop_last(), c);
        if s.last() == c { rest.push(Seq::empty()) } else { rest.update(rest.len() - 1, rest.last().push(s.last())) }
    }
}

/// The text before the first `c` in `s`, or all of `s`.
pub open spec fn before_char(s: Seq<char>, c: char) -> Seq<char>
    decreases s.len(),
{
    if s.len() == 0 || s[0] == c { Seq::empty() } else { seq![s[0]] + before_char(s.drop_first(), c) }
}

/// The pattern that introduces a field: `"name":`.
pub open spec fn field_key(name: Seq<char>) -> Seq<char> {
    seq!['"'] + name + seq!['"', ':']
}

/// The string value of field `name` in `chunk`: the piece after the key's
/// first occurrence (up to any second one), past leading white space, which
/// must open with a quote, read up to the next quote.
pub open spec fn field_spec(chunk: Seq<char>, name: Seq<char>) -> Option<Seq<char>> {
    let key = field_key(name);
    let k = find_from(chunk, key, 0);
    if k < 0 {
        None
    } else {
        let after = chunk.skip(k + key.len());
        let m = find_from(after, key, 0);
        let piece = if m < 0 { after } else { after.take(m) };
        let value = trim_start(piece);
        if value.len() == 0 || value[0] != '"' { None } else { Some(before_char(value.drop_first(), '"')) }
    }
}

/// The runs of the first `k` chunks: each chunk with a `headSha` is a run,
/// with its `conclusion` or an empty one.
pub open spec fn runs_spec(chunks: Seq<Seq<char>>, k: int) -> Seq<(Seq<char>, Seq<char>)>
    decreases k,
{
    if k <= 0 || k > chunks.len() {
        Seq::empty()
    } else {
        let rest = runs_spec(chunks, k - 1);
        match field_spec(chunks[k - 1], "headSha"@) {
            None => rest,
            Some(sha) => rest.push((sha, match field_spec(chunks[k - 1], "conclusion"@) {
                Some(c) => c,
                None => Seq::empty(),
            })),
        }
    }
}

/// The runs in a `gh run list --json headSha,conclusion` array: every
/// `{`-separated chunk that names a `headSha`.
pub open spec fn parse_runs_spec(json: Seq<char>) -> Seq<(Seq<char>, Seq<char>)> {
    let chunks = split_on(json, '{');
    runs_spec(chunks, chunks.len() as int)
}

/// The view of a list of runs.
pub open spec fn runs_view(rs: Seq<Run>) -> Seq<(Seq<char>, Seq<char>)> {
    Seq::new(rs.len(), |i: int| (rs[i].sha@, rs[i].conclusion@))
}

pub(crate) proof fn lemma_find_from(s: Seq<char>, pat: Seq<char>, i: int)
    requires
        0 <= i,
    ensures
        find_from(s, pat, i) == -1 || (i <= find_from(s, pat, i) && occurs_at(s, pat, find_from(s, pat, i))),
        forall|j: int| i <= j && (find_from(s, pat, i) == -1 || j < find_from(s, pat, i)) ==> !#[trigger] occurs_at(s, pat, j),
    decreases s.len() + 1 - i,
{
    if i + pat.len() <= s.len() && !occurs_at(s, pat, i) {
        lemma_find_from(s, pat, i + 1);
    }
}

/// Whether `pat` occurs in `s` at `i`, computed.
fn occurs_at_exec(s: &Vec<char>, pat: &Vec<char>, i: usize) -> (r: bool)
    ensures
        r == occurs_at(s@, pat@, i as int),
{
    let n = s.len();
    if i > n || pat.len() > n - i {
        return false;
    }
    let mut k: usize = 0;
    while k < pat.len()
        invariant
            n == s@.len(),
            i + pat@.len() <= s@.len(),
            k <= pat@.len(),
            forall|j: int| 0 <= j < k ==> s@[i + j] == pat@[j],
        decreases pat@.len() - k,
    {
        assert(i + k < s@.len());
        if s[i + k] != pat[k] {
            proof {
                assert(s@.subrange(i as int, i + pat@.len())[k as int] != pat@[k as int]);
            }
            return false;
        }
        k = k + 1;
    }
    proof {
        assert(s@.subrange(i as int, i + pat@.len()) =~= pat@);
    }
    true
}

/// The first occurrence of `pat` in `s[from..]`, as an index of `s`.
pub(crate) fn find_exec(s: &Vec<char>, pat: &Vec<char>, from: usize) -> (r: Option<usize>)
    requires
        from <= s@.len(),
    ensures
        match r {
            None => find_from(s@.skip(from as int), pat@, 0) == -1,
            Some(k) => from <= k && find_from(s@.skip(from as int), pat@, 0) == k - from,
        },
{
    let ghost t = s@.skip(from as int);
    let mut i = from;
    proof {
        lemma_find_from(t, pat@, 0);
    }
    loop
        invariant
            from <= i <= s@.len(),
            t == s@.skip(from as int),
            forall|j: int| 0 <= j < i - from ==> !#[trigger] occurs_at(t, pat@, j),
        ensures
            forall|j: int| 0 <= j <= s@.len() - from ==> !#[trigger] occurs_at(t, pat@, j),
        decreases s@.len() - i,
    {
        if occurs_at_exec(s, pat, i) {
            proof {
                assert(t.subrange(i - from, i - from + pat@.len()) =~= s@.subrange(i as int, i + pat@.len()));
                assert(occurs_at(t, pat@, i - from));
                lemma_find_from(t, pat@, 0);
            }
            return Some(i);
        }
        proof {
            if i - from + pat@.len() <= t.len() {
                assert(t.subrange(i - from, i - from + pat@.len()) =~= s@.subrange(i as int, i + pat@.len()));
            }
        }
        if i == s.len() {
            break;
        }
        i = i + 1;
    }
    proof {
        lemma_find_from(t, pat@, 0);
        let f = find_from(t, pat@, 0);
        if f != -1 {
            assert(occurs_at(t, pat@, f));
            assert(f <= s@.len() - from);
        }
    }
    None
}

/// The pattern `"name":`.
fn key_of(name: &str) -> (key: Vec<char>)
    ensures
        key@ == field_key(name@),
{
    let mut key: Vec<char> = Vec::new();
    key.push('"');
    let nc = chars_of(name);
    let mut i: usize = 0;
    while i < nc.len()
        invariant
            i <= nc@.len(),
            key@ == seq!['"'] + nc@.take(i as int),
        decreases nc@.len() - i,
    {
        key.push(nc[i]);
        proof {
            assert(key@ =~= seq!['"'] + nc@.take(i + 1));
        }
        i = i + 1;
    }
    key.push('"');
    key.push(':');
    proof {
        assert(nc@.take(nc@.len() as int) == nc@);
        assert(key@ =~= field_key(name@));
    }
    key
}

/// Where the piece after the first `key` lies (up to any second `key`), or
/// `None` when `key` does not occur.
fn piece_range(cs: &Vec<char>, key: &Vec<char>) -> (r: Option<(usize, usize)>)
    ensures
        ({
            let k = find_from(cs@, key@, 0);
            if k < 0 {
                r is None
            } else {
                let after = cs@.skip(k + key@.len());
                let m = find_from(after, key@, 0);
                r matches Some((a, b)) && a <= b <= cs@.len()
                    && cs@.subrange(a as int, b as int) == (if m < 0 { after } else { after.take(m) })
            }
        }),
{
    let n = cs.len();
    proof {
        assert(cs@.skip(0) == cs@);
    }
    let k = match find_exec(cs, key, 0) {
        None => {
            return None;
        },
        Some(k) => k,
    };
    proof {
        lemma_find_from(cs@, key@, 0);
        assert(occurs_at(cs@, key@, k as int));
    }
    let start = k + key.len();
    let ghost after = cs@.skip(start as int);
    let end = match find_exec(cs, key, start) {
        None => n,
        Some(m) => m,
    };
    proof {
        let m = find_from(after, key@, 0);
        lemma_find_from(after, key@, 0);
        if m >= 0 {
            assert(after.take(m) =~= cs@.subrange(start as int, end as int));
        } else {
            assert(after =~= cs@.subrange(start as int, end as int));
        }
    }
    Some((start, end))
}

/// The value of field `name` in `cs`.
fn field(cs: &Vec<char>, name: &str) -> (r: Option<String>)
    ensures
        match field_spec(cs@, name@) {
            None => r is None,
            Some(v) => r matches Some(x) && x@ == v,
        },
{
    let key = key_of(name);
    let (start, end) = match piece_range(cs, &key) {
        None => {
            return None;
        },
        Some(range) => range,
    };
    let ghost piece = cs@.subrange(start as int, end as int);
    let mut j = start;
    while j < end && crate::corpus::is_white_exec(cs[j])
        invariant
            start <= j <= end <= cs@.len(),
            trim_start(piece) == trim_start(cs@.subrange(j as int, end as int)),
        decreases end - j,
    {
        proof {
            assert(cs@.subrange(j as int, end as int).drop_first() =~= cs@.subrange(j + 1, end as int));
        }
        j = j + 1;
    }
    let ghost value = cs@.subrange(j as int, end as int);
    proof {
        assert(trim_start(value) == value);
    }
    if j == end || cs[j] != '"' {
        return None;
    }
    let mut out = String::new();
    let mut p = j + 1;
    proof {
        assert(value.drop_first() =~= cs@.subrange(j + 1, end as int));
    }
    while p < end && cs[p] != '"'
        invariant
            j + 1 <= p <= end <= cs@.len(),
            out@ == cs@.subrange(j + 1, p as int),
            before_char(cs@.subrange(j + 1, end as int), '"') == out@ + before_char(cs@.subrange(p as int, end as int), '"'),
        decreases end - p,
    {
        push_char(&mut out, cs[p]);
        proof {
            let rest = cs@.subrange(p as int, end as int);
            assert(rest.drop_first() =~= cs@.subrange(p + 1, end as int));
            assert(out@ =~= cs@.subrange(j + 1, p + 1));
            assert(before_char(rest, '"') == seq![cs@[p as int]] + before_char(rest.drop_first(), '"'));
        }
        p = p + 1;
    }
    proof {
        assert(before_char(cs@.subrange(p as int, end as int), '"') == Seq::<char>::empty());
    }
    Some(out)
}

proof fn lemma_runs_prefix(chunks: Seq<Seq<char>>, c: Seq<char>, k: int)
    requires
        0 <= k <= chunks.len(),
    ensures
        runs_spec(chunks.push(c), k) == runs_spec(chunks, k),
    decreases k,
{
    if k > 0 {
        lemma_runs_prefix(chunks, c, k - 1);
        assert(chunks.push(c)[k - 1] == chunks[k - 1]);
    }
}

/// Append the run a chunk names, if it names one.
fn take_chunk(out: &mut Vec<Run>, chunk: &Vec<char>, Ghost(done): Ghost<Seq<Seq<char>>>)
    requires
        runs_view(old(out)@) == runs_spec(done, done.len() as int),
    ensures
        runs_view(final(out)@) == runs_spec(done.push(chunk@), done.len() as int + 1),
{
    proof {
        lemma_runs_prefix(done, chunk@, done.len() as int);
        reveal_strlit("headSha");
        reveal_strlit("conclusion");
    }
    match field(chunk, "headSha") {
        None => {},
        Some(sha) => {
            let conclusion = match field(chunk, "conclusion") {
                Some(c) => c,
                None => String::new(),
            };
            let ghost before = out@;
            out.push(Run { sha, conclusion });
            proof {
                assert(runs_view(out@) =~= runs_view(before).push((sha@, conclusion@)));
            }
        },
    }
}

/// The runs in the JSON array `gh run list --json headSha,conclusion`
/// prints, in order. Input of any other shape yields no runs rather than an
/// error: a chunk without a `headSha` string is not a run.
pub fn parse_runs(json: &str) -> (r: Vec<Run>)
    ensures
        runs_view(r@) == parse_runs_spec(json@),
{
    let cs = chars_of(json);
    let mut out: Vec<Run> = Vec::new();
    let mut cur: Vec<char> = Vec::new();
    let ghost mut done: Seq<Seq<char>> = Seq::empty();
    let mut i: usize = 0;
    proof {
        assert(cs@.take(0) =~= Seq::<char>::empty());
        assert(split_on(Seq::<char>::empty(), '{') == done.push(cur@));
        assert(runs_view(out@) =~= Seq::<(Seq<char>, Seq<char>)>::empty());
    }
    while i < cs.len()
        invariant
            cs@ == json@,
            i <= cs@.len(),
            split_on(cs@.take(i as int), '{') == done.push(cur@),
            runs_view(out@) == runs_spec(done, done.len() as int),
        decreases cs@.len() - i,
    {
        let c = cs[i];
        proof {
            let t = cs@.take(i + 1);
            assert(t.drop_last() =~= cs@.take(i as int));
            assert(t.last() == c);
        }
        if c == '{' {
            take_chunk(&mut out, &cur, Ghost(done));
            proof {
                done = done.push(cur@);
            }
            cur = Vec::new();
            proof {
                assert(done.push(cur@) =~= split_on(cs@.take(i + 1), '{'));
            }
        } else {
            let ghost old_cur = cur@;
            cur.push(c);
            proof {
                let rest = split_on(cs@.take(i as int), '{');
                assert(rest.update(rest.len() - 1, rest.last().push(c)) =~= done.push(cur@));
            }
        }
        i = i + 1;
    }
    take_chunk(&mut out, &cur, Ghost(done));
    proof {
        assert(cs@.take(i as int) =~= json@);
    }
    out
}


// --- the nightly workflow ---------------------------------------------------------------

/// The text after the first occurrence of `pat` in `s`, up to any second
/// one, or `None` when `pat` does not occur.
pub open spec fn piece_after(s: Seq<char>, pat: Seq<char>) -> Option<Seq<char>> {
    let k = find_from(s, pat, 0);
    if k < 0 {
        None
    } else {
        let after = s.skip(k + pat.len());
        let m = find_from(after, pat, 0);
        Some(if m < 0 { after } else { after.take(m) })
    }
}

/// The ASCII digits `s` starts with.
pub open spec fn digits_prefix(s: Seq<char>) -> Seq<char>
    decreases s.len(),
{
    if s.len() > 0 && '0' <= s[0] && s[0] <= '9' { seq![s[0]] + digits_prefix(s.drop_first()) } else { Seq::empty() }
}

/// Whether `t` holds anything but white space.
pub open spec fn has_text(t: Seq<char>) -> bool {
    exists|i: int| 0 <= i < t.len() && !is_white(#[trigger] t[i])
}

/// How many of the texts hold anything but white space.
pub open spec fn nonblank_count(ps: Seq<Seq<char>>) -> nat
    decreases ps.len(),
{
    if ps.len() == 0 { 0 } else { nonblank_count(ps.drop_last()) + if has_text(ps.last()) { 1nat } else { 0nat } }
}

/// The length of one fuzzing run as the workflow writes it: the digits right
/// after its first `-max_total_time=`, if there are any.
pub open spec fn run_length_spec(workflow: Seq<char>) -> Option<Seq<char>> {
    match piece_after(workflow, "-max_total_time="@) {
        None => None,
        Some(p) => if digits_prefix(p).len() == 0 { None } else { Some(digits_prefix(p)) },
    }
}

/// How many targets the workflow's matrix lists: the comma-separated entries,
/// not blank, between its first `target: [` and the next `]`.
pub open spec fn target_count_spec(workflow: Seq<char>) -> Option<nat> {
    match piece_after(workflow, "target: ["@) {
        None => None,
        Some(p) => Some(nonblank_count(split_on(before_char(p, ']'), ','))),
    }
}

proof fn lemma_split_nonempty(s: Seq<char>, c: char)
    ensures
        split_on(s, c).len() >= 1,
    decreases s.len(),
{
    if s.len() > 0 {
        lemma_split_nonempty(s.drop_last(), c);
    }
}

/// What the nightly fuzzing workflow says of each run: how long one target is
/// fuzzed, as the digits written, and how many targets there are. Either is
/// `None` when the workflow does not say.
pub fn nightly_limits(workflow: &str) -> (r: (Option<String>, Option<usize>))
    ensures
        match run_length_spec(workflow@) {
            None => r.0 is None,
            Some(d) => r.0 matches Some(x) && x@ == d,
        },
        match target_count_spec(workflow@) {
            None => r.1 is None,
            Some(n) => r.1 matches Some(x) && x == n,
        },
{
    let cs = chars_of(workflow);
    (run_length(&cs), target_count(&cs))
}

fn run_length(cs: &Vec<char>) -> (r: Option<String>)
    ensures
        match run_length_spec(cs@) {
            None => r is None,
            Some(d) => r matches Some(x) && x@ == d,
        },
{
    let pat = chars_of("-max_total_time=");
    let (a, b) = match piece_range(cs, &pat) {
        None => {
            return None;
        },
        Some(range) => range,
    };
    let ghost piece = cs@.subrange(a as int, b as int);
    let mut out = String::new();
    let mut i = a;
    while i < b && '0' <= cs[i] && cs[i] <= '9'
        invariant
            a <= i <= b <= cs@.len(),
            out@ == cs@.subrange(a as int, i as int),
            digits_prefix(piece) == out@ + digits_prefix(cs@.subrange(i as int, b as int)),
        decreases b - i,
    {
        proof {
            let rest = cs@.subrange(i as int, b as int);
            assert(rest.drop_first() =~= cs@.subrange(i + 1, b as int));
        }
        push_char(&mut out, cs[i]);
        proof {
            assert(out@ =~= cs@.subrange(a as int, i + 1));
        }
        i = i + 1;
    }
    proof {
        assert(digits_prefix(cs@.subrange(i as int, b as int)) == Seq::<char>::empty());
    }
    if i == a {
        None
    } else {
        Some(out)
    }
}

fn target_count(cs: &Vec<char>) -> (r: Option<usize>)
    ensures
        match target_count_spec(cs@) {
            None => r is None,
            Some(n) => r matches Some(x) && x == n,
        },
{
    let pat = chars_of("target: [");
    let (a, b) = match piece_range(cs, &pat) {
        None => {
            return None;
        },
        Some(range) => range,
    };
    let ghost piece = cs@.subrange(a as int, b as int);
    let mut e = a;
    while e < b && cs[e] != ']'
        invariant
            a <= e <= b <= cs@.len(),
            before_char(piece, ']') == cs@.subrange(a as int, e as int) + before_char(cs@.subrange(e as int, b as int), ']'),
        decreases b - e,
    {
        proof {
            let rest = cs@.subrange(e as int, b as int);
            assert(rest.drop_first() =~= cs@.subrange(e + 1, b as int));
            assert(cs@.subrange(a as int, e + 1) =~= cs@.subrange(a as int, e as int) + seq![cs@[e as int]]);
        }
        e = e + 1;
    }
    proof {
        assert(before_char(cs@.subrange(e as int, b as int), ']') == Seq::<char>::empty());
        assert(before_char(piece, ']') =~= cs@.subrange(a as int, e as int));
    }
    let mut done: usize = 0;
    let mut cur = false;
    let mut i = a;
    proof {
        let pre = cs@.subrange(a as int, a as int);
        assert(pre =~= Seq::<char>::empty());
        assert(split_on(pre, ',') == seq![Seq::<char>::empty()]);
        assert(split_on(pre, ',').drop_last() =~= Seq::<Seq<char>>::empty());
    }
    while i < e
        invariant
            a <= i <= e <= cs@.len(),
            done + (if cur { 1int } else { 0int }) <= i - a,
            split_on(cs@.subrange(a as int, i as int), ',').len() >= 1,
            done == nonblank_count(split_on(cs@.subrange(a as int, i as int), ',').drop_last()),
            cur == has_text(split_on(cs@.subrange(a as int, i as int), ',').last()),
        decreases e - i,
    {
        let c = cs[i];
        let ghost pre = cs@.subrange(a as int, i as int);
        let ghost old_split = split_on(pre, ',');
        let ghost last = old_split.last();
        proof {
            let pre2 = cs@.subrange(a as int, i + 1);
            assert(pre2.drop_last() =~= pre);
            assert(pre2.last() == c);
            lemma_split_nonempty(pre2, ',');
        }
        if c == ',' {
            proof {
                let sp2 = old_split.push(Seq::<char>::empty());
                assert(sp2.drop_last() =~= old_split);
                assert(!has_text(Seq::<char>::empty()));
                assert(old_split.drop_last() == old_split.drop_last());
            }
            if cur {
                done = done + 1;
            }
            cur = false;
        } else {
            proof {
                let sp2 = old_split.update(old_split.len() - 1, last.push(c));
                assert(sp2.drop_last() =~= old_split.drop_last());
                let t = last.push(c);
                if has_text(last) {
                    let w = choose|k: int| 0 <= k < last.len() && !is_white(#[trigger] last[k]);
                    assert(t[w] == last[w]);
                }
                if !is_white(c) {
                    assert(t[last.len() as int] == c);
                }
                if has_text(t) {
                    let w = choose|k: int| 0 <= k < t.len() && !is_white(#[trigger] t[k]);
                    if w < last.len() {
                        assert(last[w] == t[w]);
                    }
                }
            }
            cur = cur || !crate::corpus::is_white_exec(c);
        }
        i = i + 1;
    }
    proof {
        let sp = split_on(cs@.subrange(a as int, e as int), ',');
        assert(sp.drop_last().push(sp.last()) =~= sp);
    }
    if cur {
        Some(done + 1)
    } else {
        Some(done)
    }
}

} // verus!
