//! The corpus survey's probes: which YAML constructs a file shows, so that
//! the golden suite can be justified by how often real files use them.
//! Detection is byte- and line-level and deliberately crude: a coverage
//! argument, not a parser. It over-counts (a `#` inside a quoted scalar
//! reads as a comment), which is safe in one direction only: it can claim
//! a construct is present when it is not, never absent when it is.
use crate::corpus::{lines_of, lines_spec, trim_end, trim_start, is_white, is_white_exec};
use crate::json::utf8_error_at;
use crate::semantic::chars_of;
use crate::xtask::{contains_token, contains_token_spec};
use vstd::prelude::*;
use vstd::utf8::valid_utf8;

verus! {

/// How many probes there are.
pub const PROBE_COUNT: usize = 25;

/// Whether `p` occurs in `t`.
pub open spec fn has(t: Seq<char>, p: Seq<char>) -> bool {
    exists|i: int| 0 <= i && i + p.len() <= t.len() && #[trigger] t.subrange(i, i + p.len()) == p
}

/// Whether the bytes `p` occur in `b`.
pub open spec fn has_bytes(b: Seq<u8>, p: Seq<u8>) -> bool {
    exists|i: int| 0 <= i && i + p.len() <= b.len() && #[trigger] b.subrange(i, i + p.len()) == p
}

/// Whether `s` ends with `c`.
pub open spec fn ends_with(s: Seq<char>, c: char) -> bool {
    s.len() > 0 && s.last() == c
}

/// Whether `s` starts with `p`.
pub open spec fn starts(s: Seq<char>, p: Seq<char>) -> bool {
    p.len() <= s.len() && s.subrange(0, p.len() as int) == p
}

/// How many spaces open `s`.
pub open spec fn leading_spaces(s: Seq<char>) -> nat
    decreases s.len(),
{
    if s.len() > 0 && s[0] == ' ' { 1 + leading_spaces(s.drop_first()) } else { 0 }
}

/// The bytes UTF-8 takes for `c`.
pub open spec fn char_bytes(c: char) -> nat {
    if (c as u32) < 0x80 { 1 } else if (c as u32) < 0x800 { 2 } else if (c as u32) < 0x10000 { 3 } else { 4 }
}

/// The bytes UTF-8 takes for `s`: what `str::len` counts.
pub open spec fn byte_len(s: Seq<char>) -> nat
    decreases s.len(),
{
    if s.len() == 0 { 0 } else { byte_len(s.drop_last()) + char_bytes(s.last()) }
}

/// What the line probe `k` looks for in one line.
pub open spec fn line_probe(k: int, l: Seq<char>) -> bool {
    if k == 3 {
        ends_with(trim_end(l), '|') || ends_with(trim_end(l), '>')
    } else if k == 6 {
        trim_start(l).len() > 0 && trim_start(l)[0] == '#'
    } else if k == 7 {
        !(trim_start(l).len() > 0 && trim_start(l)[0] == '#') && has(l, seq![' ', '#'])
    } else if k == 8 {
        l == seq!['-', '-', '-'] || starts(l, seq!['-', '-', '-', ' ']) || l == seq!['.', '.', '.']
    } else if k == 9 {
        l.len() > 0 && l[0] == '%'
    } else if k == 10 {
        has(l, seq![':', ' ', '!'])
    } else if k == 13 {
        ends_with(trim_end(l), ':')
    } else if k == 16 {
        ends_with(l, ' ') || ends_with(l, '\t')
    } else if k == 18 {
        l.len() == 0
    } else if k == 22 {
        leading_spaces(l) > 0 && leading_spaces(l) % 2 == 1
    } else if k == 23 {
        leading_spaces(l) >= 16
    } else if k == 24 {
        byte_len(l) >= 500
    } else {
        false
    }
}

/// Whether some line of `t` satisfies line probe `k`.
pub open spec fn some_line(k: int, t: Seq<char>) -> bool {
    exists|j: int| 0 <= j < lines_spec(t).len() && #[trigger] line_probe(k, lines_spec(t)[j])
}

/// Whether probe `k` hits a file with bytes `b`, read as the text `t`.
pub open spec fn probe_spec(k: int, b: Seq<u8>, t: Seq<char>) -> bool {
    if k == 0 {
        contains_token_spec(t, '&')
    } else if k == 1 {
        contains_token_spec(t, '*')
    } else if k == 2 {
        has(t, seq!['<', '<', ':'])
    } else if k == 3 {
        some_line(3, t) || has(t, seq!['|', '-']) || has(t, seq!['>', '-']) || has(t, seq!['|', '+'])
    } else if k == 4 {
        has(t, seq!['{']) || has(t, seq!['['])
    } else if k == 5 {
        has(t, seq!['{', '{'])
    } else if k == 10 {
        has(t, seq!['!', '!']) || some_line(10, t)
    } else if k == 11 {
        has(t, seq!['\''])
    } else if k == 12 {
        has(t, seq!['"'])
    } else if k == 14 {
        has_bytes(b, seq![13u8, 10u8])
    } else if k == 15 {
        has_bytes(b, seq![9u8])
    } else if k == 17 {
        b.len() > 0 && b.last() != 10
    } else if k == 19 {
        b.len() >= 3 && b[0] == 0xEF && b[1] == 0xBB && b[2] == 0xBF
    } else if k == 20 {
        exists|i: int| 0 <= i < b.len() && #[trigger] b[i] >= 0x80
    } else if k == 21 {
        !valid_utf8(b)
    } else {
        some_line(k, t)
    }
}

/// The probes' names, as text, in the order [`probe_hits`] reports them.
pub open spec fn probe_name_table() -> Seq<Seq<char>> {
    seq![
        "anchor"@,
        "alias"@,
        "merge-key"@,
        "block-scalar"@,
        "flow-collection"@,
        "go-template"@,
        "comment"@,
        "trailing-comment"@,
        "multi-document"@,
        "directive"@,
        "tag"@,
        "single-quoted"@,
        "double-quoted"@,
        "empty-value"@,
        "crlf"@,
        "tab"@,
        "trailing-whitespace"@,
        "no-final-newline"@,
        "blank-line"@,
        "bom"@,
        "non-ascii"@,
        "non-utf8"@,
        "indent-not-2"@,
        "deep-nesting"@,
        "long-line"@,
    ]
}

/// The probes' names, in the order [`probe_hits`] reports them.
pub fn probe_names() -> (r: Vec<&'static str>)
    ensures
        r@.len() == PROBE_COUNT,
        forall|i: int| 0 <= i < PROBE_COUNT ==> #[trigger] r@[i]@ == probe_name_table()[i],
{
    vec![
        "anchor", "alias", "merge-key", "block-scalar", "flow-collection", "go-template", "comment", "trailing-comment",
        "multi-document", "directive", "tag", "single-quoted", "double-quoted", "empty-value", "crlf", "tab",
        "trailing-whitespace", "no-final-newline", "blank-line", "bom", "non-ascii", "non-utf8", "indent-not-2",
        "deep-nesting", "long-line",
    ]
}

/// Why the K1 oracle must cover each probe's construct, as text, in the same order.
pub open spec fn probe_reason_table() -> Seq<Seq<char>> {
    seq![
        "&name must survive; expanding it is a K1 violation"@,
        "*name must survive unexpanded"@,
        "<<: is a merge, and resolving it loses the source bytes"@,
        "| and > carry indentation and chomping indicators verbatim"@,
        "{a: 1} and [1, 2] must not be re-rendered as block style"@,
        "Helm's {{ }} is not YAML at all; the grammar must preserve it verbatim"@,
        "the single most-lost byte class in every existing tool"@,
        "a comment after a value, where column alignment is meaningful to humans"@,
        "--- and ... separators, and the bytes between them"@,
        "%YAML and %TAG lines precede the document and are easily dropped"@,
        "!!str and !Custom are exactly the exotic tags \u{a7}3.1 sends to verbatim nodes"@,
        "quoting style is a byte-level choice; normalising it breaks K1"@,
        "same, plus escape sequences that must not be re-encoded"@,
        "`key:` with nothing after it is not `key: null`"@,
        "line endings are bytes; converting them is a silent corruption"@,
        "tabs are illegal for YAML indentation but appear inside scalars"@,
        "invisible, meaningless, and must survive anyway"@,
        "the classic off-by-one at EOF"@,
        "vertical spacing is authorial intent, not noise"@,
        "a UTF-8 BOM is three bytes that belong to the file"@,
        "multi-byte scalars must not be re-encoded or escaped"@,
        "parse must not panic, and the bytes must round-trip regardless"@,
        "3- and 4-space indentation is common and must not be reflowed"@,
        "8+ levels: where a recursive serializer meets the stack"@,
        "500+ columns; nothing may wrap it"@,
    ]
}

/// Why the K1 oracle must cover each probe's construct, in the same order.
pub fn probe_reasons() -> (r: Vec<&'static str>)
    ensures
        r@.len() == PROBE_COUNT,
        forall|i: int| 0 <= i < PROBE_COUNT ==> #[trigger] r@[i]@ == probe_reason_table()[i],
{
    vec![
        "&name must survive; expanding it is a K1 violation",
        "*name must survive unexpanded",
        "<<: is a merge, and resolving it loses the source bytes",
        "| and > carry indentation and chomping indicators verbatim",
        "{a: 1} and [1, 2] must not be re-rendered as block style",
        "Helm's {{ }} is not YAML at all; the grammar must preserve it verbatim",
        "the single most-lost byte class in every existing tool",
        "a comment after a value, where column alignment is meaningful to humans",
        "--- and ... separators, and the bytes between them",
        "%YAML and %TAG lines precede the document and are easily dropped",
        "!!str and !Custom are exactly the exotic tags \u{a7}3.1 sends to verbatim nodes",
        "quoting style is a byte-level choice; normalising it breaks K1",
        "same, plus escape sequences that must not be re-encoded",
        "`key:` with nothing after it is not `key: null`",
        "line endings are bytes; converting them is a silent corruption",
        "tabs are illegal for YAML indentation but appear inside scalars",
        "invisible, meaningless, and must survive anyway",
        "the classic off-by-one at EOF",
        "vertical spacing is authorial intent, not noise",
        "a UTF-8 BOM is three bytes that belong to the file",
        "multi-byte scalars must not be re-encoded or escaped",
        "parse must not panic, and the bytes must round-trip regardless",
        "3- and 4-space indentation is common and must not be reflowed",
        "8+ levels: where a recursive serializer meets the stack",
        "500+ columns; nothing may wrap it",
    ]
}

// --- scanning -----------------------------------------------------------------------

/// Whether `p` occurs in `t`.
fn has_exec(t: &Vec<char>, p: &Vec<char>) -> (r: bool)
    ensures
        r == has(t@, p@),
{
    if p.len() > t.len() {
        proof {
            assert forall|i: int| !(0 <= i && i + p@.len() <= t@.len() && #[trigger] t@.subrange(i, i + p@.len()) == p@) by {}
        }
        return false;
    }
    let n = t.len();
    let m = n - p.len();
    let mut i: usize = 0;
    while i <= m
        invariant
            n == t@.len(),
            p@.len() <= n,
            m == n - p@.len(),
            forall|j: int| 0 <= j < i ==> #[trigger] t@.subrange(j, j + p@.len()) != p@,
        decreases m + 1 - i,
    {
        let mut k: usize = 0;
        let mut same = true;
        while k < p.len()
            invariant
                n == t@.len(),
                i <= m,
                m == n - p@.len(),
                k <= p@.len(),
                same == (forall|q: int| 0 <= q < k ==> t@[i + q] == p@[q]),
            decreases p@.len() - k,
        {
            if t[i + k] != p[k] {
                same = false;
            }
            k = k + 1;
        }
        if same {
            proof {
                assert(t@.subrange(i as int, i + p@.len()) =~= p@);
            }
            return true;
        }
        proof {
            let q = choose|q: int| 0 <= q < p@.len() && t@[i + q] != p@[q];
            assert(t@.subrange(i as int, i + p@.len())[q] != p@[q]);
        }
        if i == m {
            proof {
                assert forall|j: int| !(0 <= j && j + p@.len() <= t@.len() && #[trigger] t@.subrange(j, j + p@.len()) == p@) by {
                    if 0 <= j && j + p@.len() <= t@.len() {
                        assert(j <= m);
                    }
                }
            }
            return false;
        }
        i = i + 1;
    }
    false
}

/// Whether the bytes `p` occur in `b`.
fn has_bytes_exec(b: &[u8], p: &[u8]) -> (r: bool)
    ensures
        r == has_bytes(b@, p@),
{
    if p.len() > b.len() {
        return false;
    }
    let n = b.len();
    let m = n - p.len();
    let mut i: usize = 0;
    while i <= m
        invariant
            n == b@.len(),
            p@.len() <= n,
            m == n - p@.len(),
            forall|j: int| 0 <= j < i ==> #[trigger] b@.subrange(j, j + p@.len()) != p@,
        decreases m + 1 - i,
    {
        let mut k: usize = 0;
        let mut same = true;
        while k < p.len()
            invariant
                n == b@.len(),
                i <= m,
                m == n - p@.len(),
                k <= p@.len(),
                same == (forall|q: int| 0 <= q < k ==> b@[i + q] == p@[q]),
            decreases p@.len() - k,
        {
            if b[i + k] != p[k] {
                same = false;
            }
            k = k + 1;
        }
        if same {
            proof {
                assert(b@.subrange(i as int, i + p@.len()) =~= p@);
            }
            return true;
        }
        proof {
            let q = choose|q: int| 0 <= q < p@.len() && b@[i + q] != p@[q];
            assert(b@.subrange(i as int, i + p@.len())[q] != p@[q]);
        }
        if i == m {
            proof {
                assert forall|j: int| !(0 <= j && j + p@.len() <= b@.len() && #[trigger] b@.subrange(j, j + p@.len()) == p@) by {
                    if 0 <= j && j + p@.len() <= b@.len() {
                        assert(j <= m);
                    }
                }
            }
            return false;
        }
        i = i + 1;
    }
    false
}

/// The length of `trim_end(l)`.
fn trim_end_len(l: &Vec<char>) -> (r: usize)
    ensures
        r <= l@.len(),
        l@.take(r as int) == trim_end(l@),
{
    let mut j = l.len();
    proof {
        assert(l@.take(j as int) =~= l@);
    }
    while j > 0 && is_white_exec(l[j - 1])
        invariant
            j <= l@.len(),
            trim_end(l@) == trim_end(l@.take(j as int)),
        decreases j,
    {
        proof {
            assert(l@.take(j as int).drop_last() =~= l@.take(j - 1));
        }
        j = j - 1;
    }
    j
}

/// Where `trim_start(l)` begins.
fn trim_start_at(l: &Vec<char>) -> (r: usize)
    ensures
        r <= l@.len(),
        l@.skip(r as int) == trim_start(l@),
{
    let mut i: usize = 0;
    proof {
        assert(l@.skip(0) =~= l@);
    }
    while i < l.len() && is_white_exec(l[i])
        invariant
            i <= l@.len(),
            trim_start(l@) == trim_start(l@.skip(i as int)),
        decreases l@.len() - i,
    {
        proof {
            assert(l@.skip(i as int).drop_first() =~= l@.skip(i + 1));
        }
        i = i + 1;
    }
    i
}

/// How many spaces open `l`.
fn leading_spaces_exec(l: &Vec<char>) -> (r: usize)
    ensures
        r == leading_spaces(l@),
{
    let mut i: usize = 0;
    proof {
        assert(l@.skip(0) =~= l@);
    }
    while i < l.len() && l[i] == ' '
        invariant
            i <= l@.len(),
            leading_spaces(l@) == i + leading_spaces(l@.skip(i as int)),
        decreases l@.len() - i,
    {
        proof {
            assert(l@.skip(i as int).drop_first() =~= l@.skip(i + 1));
        }
        i = i + 1;
    }
    i
}

/// The bytes UTF-8 takes for `l`, saturating at `usize::MAX`.
fn byte_len_exec(l: &Vec<char>) -> (r: usize)
    ensures
        r == (if byte_len(l@) > usize::MAX { usize::MAX as nat } else { byte_len(l@) }),
{
    let mut total: usize = 0;
    let mut i: usize = 0;
    proof {
        assert(l@.take(0) =~= Seq::<char>::empty());
    }
    while i < l.len()
        invariant
            i <= l@.len(),
            total == (if byte_len(l@.take(i as int)) > usize::MAX { usize::MAX as nat } else { byte_len(l@.take(i as int)) }),
        decreases l@.len() - i,
    {
        let c = l[i] as u32;
        let w: usize = if c < 0x80 { 1 } else if c < 0x800 { 2 } else if c < 0x10000 { 3 } else { 4 };
        proof {
            assert(l@.take(i + 1).drop_last() =~= l@.take(i as int));
            assert(l@.take(i + 1).last() == l@[i as int]);
        }
        total = if total > usize::MAX - w { usize::MAX } else { total + w };
        i = i + 1;
    }
    proof {
        assert(l@.take(i as int) =~= l@);
    }
    total
}

fn pat1(a: char) -> (r: Vec<char>)
    ensures
        r@ == seq![a],
{
    let mut v: Vec<char> = Vec::new();
    v.push(a);
    proof {
        assert(v@ =~= seq![a]);
    }
    v
}

fn pat2(a: char, b: char) -> (r: Vec<char>)
    ensures
        r@ == seq![a, b],
{
    let mut v = pat1(a);
    v.push(b);
    proof {
        assert(v@ =~= seq![a, b]);
    }
    v
}

fn pat3(a: char, b: char, c: char) -> (r: Vec<char>)
    ensures
        r@ == seq![a, b, c],
{
    let mut v = pat2(a, b);
    v.push(c);
    proof {
        assert(v@ =~= seq![a, b, c]);
    }
    v
}

/// Whether one line satisfies line probe `k`.
fn line_hit(k: usize, l: &Vec<char>) -> (r: bool)
    ensures
        r == line_probe(k as int, l@),
{
    let te = trim_end_len(l);
    let ts = trim_start_at(l);
    let comment = ts < l.len() && l[ts] == '#';
    proof {
        if ts < l@.len() {
            assert(trim_start(l@)[0] == l@[ts as int]);
        }
        if te > 0 {
            assert(trim_end(l@).last() == l@[te - 1]);
        }
    }
    let n = l.len();
    if k == 3 {
        te > 0 && (l[te - 1] == '|' || l[te - 1] == '>')
    } else if k == 6 {
        comment
    } else if k == 7 {
        let pat = pat2(' ', '#');
        !comment && has_exec(l, &pat)
    } else if k == 8 {
        let is_rule = n == 3 && l[0] == '-' && l[1] == '-' && l[2] == '-';
        let opens = n >= 4 && l[0] == '-' && l[1] == '-' && l[2] == '-' && l[3] == ' ';
        let is_end = n == 3 && l[0] == '.' && l[1] == '.' && l[2] == '.';
        proof {
            if n == 3 {
                assert(is_rule == (l@ =~= seq!['-', '-', '-']));
                assert(is_end == (l@ =~= seq!['.', '.', '.']));
            } else {
                assert(l@ != seq!['-', '-', '-']);
                assert(l@ != seq!['.', '.', '.']);
            }
            if n >= 4 {
                assert(opens == (l@.subrange(0, 4) =~= seq!['-', '-', '-', ' ']));
            }
        }
        is_rule || opens || is_end
    } else if k == 9 {
        n > 0 && l[0] == '%'
    } else if k == 10 {
        let pat = pat3(':', ' ', '!');
        has_exec(l, &pat)
    } else if k == 13 {
        te > 0 && l[te - 1] == ':'
    } else if k == 16 {
        n > 0 && (l[n - 1] == ' ' || l[n - 1] == '\t')
    } else if k == 18 {
        n == 0
    } else if k == 22 {
        let s = leading_spaces_exec(l);
        s > 0 && s % 2 == 1
    } else if k == 23 {
        leading_spaces_exec(l) >= 16
    } else if k == 24 {
        byte_len_exec(l) >= 500
    } else {
        false
    }
}

/// Whether some line satisfies line probe `k`.
fn any_line(k: usize, ls: &Vec<Vec<char>>, Ghost(t): Ghost<Seq<char>>) -> (r: bool)
    requires
        ls@.len() == lines_spec(t).len(),
        forall|j: int| 0 <= j < ls@.len() ==> (#[trigger] ls@[j])@ == lines_spec(t)[j],
    ensures
        r == some_line(k as int, t),
{
    let mut j: usize = 0;
    while j < ls.len()
        invariant
            ls@.len() == lines_spec(t).len(),
            forall|q: int| 0 <= q < ls@.len() ==> (#[trigger] ls@[q])@ == lines_spec(t)[q],
            j <= ls@.len(),
            forall|q: int| 0 <= q < j ==> !#[trigger] line_probe(k as int, lines_spec(t)[q]),
        decreases ls@.len() - j,
    {
        if line_hit(k, &ls[j]) {
            proof {
                assert(line_probe(k as int, lines_spec(t)[j as int]));
            }
            return true;
        }
        j = j + 1;
    }
    false
}

/// Which probes hit a file: its bytes, and its text as `String::from_utf8_lossy`
/// reads them. One flag per probe, in the order of [`probe_names`].
pub fn probe_hits(bytes: &[u8], text: &str) -> (r: Vec<bool>)
    ensures
        r@.len() == PROBE_COUNT,
        forall|k: int| 0 <= k < PROBE_COUNT ==> r@[k] == probe_spec(k, bytes@, text@),
{
    let t = chars_of(text);
    let ls = lines_of(text);
    let mut out: Vec<bool> = Vec::new();
    let mut k: usize = 0;
    while k < PROBE_COUNT
        invariant
            t@ == text@,
            ls@.len() == lines_spec(text@).len(),
            forall|j: int| 0 <= j < ls@.len() ==> (#[trigger] ls@[j])@ == lines_spec(text@)[j],
            k <= PROBE_COUNT,
            out@.len() == k,
            forall|q: int| 0 <= q < k ==> out@[q] == probe_spec(q, bytes@, text@),
        decreases PROBE_COUNT - k,
    {
        let hit = probe_hit(k, bytes, &t, &ls, Ghost(text@));
        out.push(hit);
        k = k + 1;
    }
    out
}

fn probe_hit(k: usize, b: &[u8], t: &Vec<char>, ls: &Vec<Vec<char>>, Ghost(text): Ghost<Seq<char>>) -> (r: bool)
    requires
        t@ == text,
        ls@.len() == lines_spec(text).len(),
        forall|j: int| 0 <= j < ls@.len() ==> (#[trigger] ls@[j])@ == lines_spec(text)[j],
    ensures
        r == probe_spec(k as int, b@, text),
{
    if k == 0 {
        contains_token_chars(t, '&')
    } else if k == 1 {
        contains_token_chars(t, '*')
    } else if k == 2 {
        has_exec(t, &pat3('<', '<', ':'))
    } else if k == 3 {
        any_line(3, ls, Ghost(text)) || has_exec(t, &pat2('|', '-')) || has_exec(t, &pat2('>', '-')) || has_exec(t, &pat2('|', '+'))
    } else if k == 4 {
        has_exec(t, &pat1('{')) || has_exec(t, &pat1('['))
    } else if k == 5 {
        has_exec(t, &pat2('{', '{'))
    } else if k == 10 {
        has_exec(t, &pat2('!', '!')) || any_line(10, ls, Ghost(text))
    } else if k == 11 {
        has_exec(t, &pat1('\''))
    } else if k == 12 {
        has_exec(t, &pat1('"'))
    } else if k == 14 {
        let p: [u8; 2] = [13, 10];
        proof {
            assert(p@ =~= seq![13u8, 10u8]);
        }
        has_bytes_exec(b, &p)
    } else if k == 15 {
        let p: [u8; 1] = [9];
        proof {
            assert(p@ =~= seq![9u8]);
        }
        has_bytes_exec(b, &p)
    } else if k == 17 {
        b.len() > 0 && b[b.len() - 1] != 10
    } else if k == 19 {
        b.len() >= 3 && b[0] == 0xEF && b[1] == 0xBB && b[2] == 0xBF
    } else if k == 20 {
        any_high_byte(b)
    } else if k == 21 {
        utf8_error_at(b).is_some()
    } else {
        any_line(k, ls, Ghost(text))
    }
}

/// Whether some byte is outside ASCII.
fn any_high_byte(b: &[u8]) -> (r: bool)
    ensures
        r == (exists|i: int| 0 <= i < b@.len() && #[trigger] b@[i] >= 0x80),
{
    let mut i: usize = 0;
    while i < b.len()
        invariant
            i <= b@.len(),
            forall|q: int| 0 <= q < i ==> #[trigger] b@[q] < 0x80,
        decreases b@.len() - i,
    {
        if b[i] >= 0x80 {
            proof {
                assert(b@[i as int] >= 0x80);
            }
            return true;
        }
        i = i + 1;
    }
    proof {
        assert forall|q: int| !(0 <= q < b@.len() && #[trigger] b@[q] >= 0x80) by {}
    }
    false
}

/// [`contains_token`] over characters already at hand.
fn contains_token_chars(t: &Vec<char>, sigil: char) -> (r: bool)
    requires
        !is_white(sigil),
    ensures
        r == contains_token_spec(t@, sigil),
{
    let mut s = String::new();
    let mut i: usize = 0;
    while i < t.len()
        invariant
            i <= t@.len(),
            s@ == t@.take(i as int),
        decreases t@.len() - i,
    {
        crate::text::push_char(&mut s, t[i]);
        proof {
            assert(t@.take(i + 1) =~= t@.take(i as int).push(t@[i as int]));
        }
        i = i + 1;
    }
    proof {
        assert(t@.take(i as int) =~= t@);
    }
    contains_token(s.as_str(), sigil)
}

} // verus!
