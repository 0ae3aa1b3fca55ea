//! One tokenizer for every representation. It is not a YAML parser: it is an
//! indentation-structured lexer that is total and lossless, so every byte of
//! the input lands in exactly one token and the tokens' bytes concatenate to
//! the input before any tree is built. Lines nest by indentation.
use vstd::prelude::*;

pub use crate::yaml::{nesting, parent_code, LineSpan};

verus! {

/// Token and node kinds, one enum for both.
#[derive(Clone, Copy, PartialEq, Eq, Structural, Debug, Hash, PartialOrd, Ord)]
pub enum Kind {
    /// Leading blanks of a line.
    Indent,
    /// A run of word bytes.
    Word,
    /// A quoted string, closed or not.
    Str,
    /// One punctuation byte.
    Punct,
    /// Blanks inside a line.
    Space,
    /// `#` to the end of the line.
    Comment,
    /// A line terminator: `\n`, `\r\n` or a lone `\r`.
    Newline,
    /// Any other single byte.
    Other,
    /// The root node.
    Document,
    /// A line's node.
    Line,
}

/// A token: a kind and a half-open byte range of the source.
#[derive(Clone, Copy, Debug)]
pub struct Tok {
    /// What it is.
    pub kind: Kind,
    /// First byte.
    pub start: u32,
    /// Length in bytes.
    pub len: u32,
}

/// The tokens of an input and its lines.
#[derive(Debug)]
pub struct Lexed {
    /// Every byte, in order, in exactly one token.
    pub toks: Vec<Tok>,
    /// Each line's indent and token range, in order.
    pub lines: Vec<LineSpan>,
}

// --- bytes ------------------------------------------------------------------------

/// A blank: space or tab.
pub open spec fn is_blank(b: u8) -> bool {
    b == 32 || b == 9
}

/// A line-terminator byte.
pub open spec fn is_eol(b: u8) -> bool {
    b == 10 || b == 13
}

/// A byte that continues a word: ASCII alphanumerics and `_ . - / + @ %`.
pub open spec fn is_word_spec(b: u8) -> bool {
    (48 <= b && b <= 57) || (65 <= b && b <= 90) || (97 <= b && b <= 122) || b == 95 || b == 46 || b == 45 || b == 47
        || b == 43 || b == 64 || b == 37
}

/// A punctuation byte: one of `: , { } [ ] & * | > ! ? =`.
pub open spec fn is_punct_spec(b: u8) -> bool {
    b == 58 || b == 44 || b == 123 || b == 125 || b == 91 || b == 93 || b == 38 || b == 42 || b == 124 || b == 62
        || b == 33 || b == 63 || b == 61
}

fn is_word(b: u8) -> (r: bool)
    ensures
        r == is_word_spec(b),
{
    (48 <= b && b <= 57) || (65 <= b && b <= 90) || (97 <= b && b <= 122) || b == 95 || b == 46 || b == 45 || b == 47
        || b == 43 || b == 64 || b == 37
}

fn is_punct(b: u8) -> (r: bool)
    ensures
        r == is_punct_spec(b),
{
    b == 58 || b == 44 || b == 123 || b == 125 || b == 91 || b == 93 || b == 38 || b == 42 || b == 124 || b == 62
        || b == 33 || b == 63 || b == 61
}

// --- token extents ----------------------------------------------------------------

/// The end of the run of blanks at `i`.
pub open spec fn blank_end(s: Seq<u8>, i: int) -> int
    decreases s.len() - i,
{
    if 0 <= i < s.len() && is_blank(s[i]) { blank_end(s, i + 1) } else { i }
}

/// The end of the run of word bytes at `i`.
pub open spec fn word_end(s: Seq<u8>, i: int) -> int
    decreases s.len() - i,
{
    if 0 <= i < s.len() && is_word_spec(s[i]) { word_end(s, i + 1) } else { i }
}

/// The first line terminator at or after `i`, or the end of the input.
pub open spec fn line_end(s: Seq<u8>, i: int) -> int
    decreases s.len() - i,
{
    if 0 <= i < s.len() && !is_eol(s[i]) { line_end(s, i + 1) } else { i }
}

/// Where a quoted string's body, starting at `i`, stops: at its closing
/// quote, a line terminator, or the end. A backslash inside double quotes
/// takes the next byte with it.
pub open spec fn quoted_end(s: Seq<u8>, i: int, q: u8) -> int
    decreases s.len() - i,
{
    if i < 0 || i >= s.len() || s[i] == q || is_eol(s[i]) {
        i
    } else if q == 34 && s[i] == 92 && i + 1 < s.len() {
        quoted_end(s, i + 2, q)
    } else {
        quoted_end(s, i + 1, q)
    }
}

/// The kind of the token that starts inside a line at `i`.
pub open spec fn body_kind(s: Seq<u8>, i: int) -> Kind {
    let b = s[i];
    if b == 35 {
        Kind::Comment
    } else if b == 34 || b == 39 {
        Kind::Str
    } else if is_blank(b) {
        Kind::Space
    } else if is_word_spec(b) {
        Kind::Word
    } else if is_punct_spec(b) {
        Kind::Punct
    } else {
        Kind::Other
    }
}

/// The end of the token that starts inside a line at `i`.
pub open spec fn body_end(s: Seq<u8>, i: int) -> int {
    let b = s[i];
    if b == 35 {
        line_end(s, i)
    } else if b == 34 || b == 39 {
        let e = quoted_end(s, i + 1, b);
        if e < s.len() && s[e] == b { e + 1 } else { e }
    } else if is_blank(b) {
        blank_end(s, i)
    } else if is_word_spec(b) {
        word_end(s, i)
    } else {
        i + 1
    }
}

/// The end of the line terminator at `i`: `\r\n` is one terminator.
pub open spec fn newline_end(s: Seq<u8>, i: int) -> int {
    if s[i] == 13 && i + 1 < s.len() && s[i + 1] == 10 { i + 2 } else { i + 1 }
}

/// One past a token's last byte.
pub open spec fn tok_end(t: Tok) -> int {
    t.start + t.len
}

/// Whether `t` is the token the lexer reads at its start, given whether it
/// opens a line: leading blanks are the indent, a terminator is a newline,
/// anything else is read by [`body_kind`] and [`body_end`].
pub open spec fn token_ok(s: Seq<u8>, t: Tok, first_of_line: bool) -> bool {
    let p = t.start as int;
    &&& 0 <= p < s.len()
    &&& if first_of_line && is_blank(s[p]) {
        t.kind == Kind::Indent && tok_end(t) == blank_end(s, p)
    } else if is_eol(s[p]) {
        t.kind == Kind::Newline && tok_end(t) == newline_end(s, p)
    } else {
        t.kind == body_kind(s, p) && tok_end(t) == body_end(s, p)
    }
}

/// A line's indent: the width of its leading blanks, or `u32::MAX` when
/// nothing but blanks precede its end, so that a blank line re-parents
/// nothing.
pub open spec fn indent_of(s: Seq<u8>, p: int) -> u32 {
    let q = blank_end(s, p);
    if q >= s.len() || is_eol(s[q]) { u32::MAX } else { (q - p) as u32 }
}

/// Whether tokens are non-empty, adjacent, and cover exactly `0..n`.
pub open spec fn tiles_to(ts: Seq<Tok>, n: int) -> bool {
    &&& forall|k: int| 0 <= k < ts.len() ==> (#[trigger] ts[k]).len >= 1
    &&& forall|k: int| 0 < k < ts.len() ==> (#[trigger] ts[k]).start == tok_end(ts[k - 1])
    &&& ts.len() == 0 ==> n == 0
    &&& ts.len() > 0 ==> ts[0].start == 0 && tok_end(ts.last()) == n
}

/// Whether line spans partition `0..n` tokens, in order, none empty.
pub open spec fn lines_partition(ls: Seq<LineSpan>, n: int) -> bool {
    &&& forall|j: int| 0 <= j < ls.len() ==> (#[trigger] ls[j]).first < ls[j].end
    &&& forall|j: int| 0 < j < ls.len() ==> (#[trigger] ls[j]).first == ls[j - 1].end
    &&& ls.len() == 0 ==> n == 0
    &&& ls.len() > 0 ==> ls[0].first == 0 && ls.last().end == n
}

/// Whether a line is read as the lexer reads it: each token as
/// [`token_ok`] says, no terminator before its last token, which is a
/// terminator unless it ends the input, and its indent as [`indent_of`] says.
#[verifier::opaque]
pub open spec fn line_ok(s: Seq<u8>, ts: Seq<Tok>, l: LineSpan) -> bool {
    &&& l.first < l.end <= ts.len()
    &&& forall|k: int| l.first <= k < l.end ==> token_ok(s, #[trigger] ts[k], k == l.first)
    &&& forall|k: int| l.first <= k < l.end - 1 ==> (#[trigger] ts[k]).kind != Kind::Newline
    &&& (ts[l.end - 1].kind == Kind::Newline || tok_end(ts[l.end - 1]) == s.len())
    &&& l.indent == indent_of(s, ts[l.first as int].start as int)
}

/// Whether `toks` and `lines` are what the lexer reads from `s`. The token
/// sequence this describes is unique: tokens tile the input, each is read
/// from its start, and a line starts exactly after a terminator.
pub open spec fn lexes(s: Seq<u8>, toks: Seq<Tok>, lines: Seq<LineSpan>) -> bool {
    &&& tiles_to(toks, s.len() as int)
    &&& lines_partition(lines, toks.len() as int)
    &&& forall|j: int| 0 <= j < lines.len() ==> line_ok(s, toks, #[trigger] lines[j])
}

// --- scanning ---------------------------------------------------------------------

fn scan_blank(src: &[u8], i: usize) -> (r: usize)
    requires
        i <= src@.len(),
    ensures
        r == blank_end(src@, i as int),
        i <= r <= src@.len(),
{
    let mut j = i;
    while j < src.len() && (src[j] == 32 || src[j] == 9)
        invariant
            i <= j <= src@.len(),
            blank_end(src@, i as int) == blank_end(src@, j as int),
        decreases src@.len() - j,
    {
        j = j + 1;
    }
    j
}

fn scan_word(src: &[u8], i: usize) -> (r: usize)
    requires
        i <= src@.len(),
    ensures
        r == word_end(src@, i as int),
        i <= r <= src@.len(),
{
    let mut j = i;
    while j < src.len() && is_word(src[j])
        invariant
            i <= j <= src@.len(),
            word_end(src@, i as int) == word_end(src@, j as int),
        decreases src@.len() - j,
    {
        j = j + 1;
    }
    j
}

fn scan_line_end(src: &[u8], i: usize) -> (r: usize)
    requires
        i <= src@.len(),
    ensures
        r == line_end(src@, i as int),
        i <= r <= src@.len(),
{
    let mut j = i;
    while j < src.len() && src[j] != 10 && src[j] != 13
        invariant
            i <= j <= src@.len(),
            line_end(src@, i as int) == line_end(src@, j as int),
        decreases src@.len() - j,
    {
        j = j + 1;
    }
    j
}

fn scan_quoted(src: &[u8], i: usize, q: u8) -> (r: usize)
    requires
        i <= src@.len(),
    ensures
        r == quoted_end(src@, i as int, q),
        i <= r <= src@.len(),
{
    let mut j = i;
    while j < src.len() && src[j] != q && src[j] != 10 && src[j] != 13
        invariant
            i <= j <= src@.len(),
            quoted_end(src@, i as int, q) == quoted_end(src@, j as int, q),
        decreases src@.len() - j,
    {
        if q == 34 && src[j] == 92 && j + 1 < src.len() {
            j = j + 1;
        }
        j = j + 1;
    }
    j
}

/// The token that starts inside a line at `i`.
fn body_token(src: &[u8], i: usize) -> (r: (Kind, usize))
    requires
        i < src@.len(),
        !is_eol(src@[i as int]),
    ensures
        r.0 == body_kind(src@, i as int),
        r.1 == body_end(src@, i as int),
        i < r.1 <= src@.len(),
{
    let b = src[i];
    proof {
        assert(line_end(src@, i as int) == line_end(src@, i + 1));
        if is_blank(b) {
            assert(blank_end(src@, i as int) == blank_end(src@, i + 1));
        }
        if is_word_spec(b) {
            assert(word_end(src@, i as int) == word_end(src@, i + 1));
        }
    }
    if b == 35 {
        (Kind::Comment, scan_line_end(src, i + 1))
    } else if b == 34 || b == 39 {
        let e = scan_quoted(src, i + 1, b);
        if e < src.len() && src[e] == b { (Kind::Str, e + 1) } else { (Kind::Str, e) }
    } else if b == 32 || b == 9 {
        (Kind::Space, scan_blank(src, i + 1))
    } else if is_word(b) {
        (Kind::Word, scan_word(src, i + 1))
    } else if is_punct(b) {
        (Kind::Punct, i + 1)
    } else {
        (Kind::Other, i + 1)
    }
}

// --- lexing -------------------------------------------------------------------------

/// Append the token `start..end`.
fn push_tok(toks: &mut Vec<Tok>, kind: Kind, start: usize, end: usize, Ghost(n): Ghost<nat>)
    requires
        tiles_to(old(toks)@, start as int),
        start < end <= n,
        n <= u32::MAX,
        old(toks)@.len() <= start,
    ensures
        final(toks)@ == old(toks)@.push(Tok { kind, start: start as u32, len: (end - start) as u32 }),
        tiles_to(final(toks)@, end as int),
        final(toks)@.len() <= end,
{
    let t = Tok { kind, start: start as u32, len: (end - start) as u32 };
    let ghost before = toks@;
    toks.push(t);
    proof {
        assert forall|k: int| 0 < k < toks@.len() implies (#[trigger] toks@[k]).start == tok_end(toks@[k - 1]) by {
            if k < before.len() {
                assert(toks@[k] == before[k] && toks@[k - 1] == before[k - 1]);
            } else {
                assert(toks@[k - 1] == before.last());
            }
        }
        assert forall|k: int| 0 <= k < toks@.len() implies (#[trigger] toks@[k]).len >= 1 by {
            if k < before.len() {
                assert(toks@[k] == before[k]);
            }
        }
        if before.len() > 0 {
            assert(toks@[0] == before[0]);
        }
    }
}

/// The tokens from `from` on satisfy [`token_ok`], opening a line at `from`,
/// and none of them is a terminator.
pub open spec fn open_line(s: Seq<u8>, ts: Seq<Tok>, from: int) -> bool {
    &&& forall|k: int| from <= k < ts.len() ==> token_ok(s, #[trigger] ts[k], k == from)
    &&& forall|k: int| from <= k < ts.len() ==> (#[trigger] ts[k]).kind != Kind::Newline
}

/// Read one line starting at `i`: its indent, its body, its terminator.
/// Returns where the next line starts and the line's indent.
fn lex_line(src: &[u8], toks: &mut Vec<Tok>, i: usize) -> (r: (usize, u32))
    requires
        src@.len() <= u32::MAX,
        i < src@.len(),
        tiles_to(old(toks)@, i as int),
        old(toks)@.len() <= i,
    ensures
        i < r.0 <= src@.len(),
        final(toks)@.len() <= r.0,
        old(toks)@.len() < final(toks)@.len(),
        tiles_to(final(toks)@, r.0 as int),
        final(toks)@.subrange(0, old(toks)@.len() as int) == old(toks)@,
        line_ok(src@, final(toks)@, LineSpan { indent: r.1, first: old(toks)@.len() as u32, end: final(toks)@.len() as u32 }),
{
    let ghost n = src@.len();
    let ghost s = src@;
    let ghost t0 = toks@;
    let first = toks.len();
    let ws_start = i;
    let p = scan_blank(src, i);
    if p > ws_start {
        push_tok(toks, Kind::Indent, ws_start, p, Ghost(n));
        proof {
            assert(toks@[first as int].start == ws_start);
            assert(token_ok(s, toks@[first as int], true));
        }
    }
    let indent_cols = (p - ws_start) as u32;
    let blank = p >= src.len() || src[p] == 10 || src[p] == 13;
    let mut j = p;
    proof {
        assert(toks@.subrange(0, first as int) =~= t0);
    }
    while j < src.len() && src[j] != 10 && src[j] != 13
        invariant
            s == src@,
            n == s.len(),
            n <= u32::MAX,
            first == t0.len(),
            ws_start < n,
            p == blank_end(s, ws_start as int),
            p <= j <= n,
            toks@.len() <= j,
            tiles_to(toks@, j as int),
            toks@.subrange(0, first as int) == t0,
            first <= toks@.len(),
            toks@.len() == first ==> j == ws_start && p == ws_start,
            toks@.len() > first ==> toks@[first as int].start == ws_start,
            open_line(s, toks@, first as int),
        decreases n - j,
    {
        let (kind, e) = body_token(src, j);
        proof {
            if toks@.len() == first {
                assert(!is_blank(s[j as int]));
            }
        }
        let ghost before = toks@;
        push_tok(toks, kind, j, e, Ghost(n));
        proof {
            assert(toks@.subrange(0, first as int) =~= t0) by {
                assert(toks@.subrange(0, first as int) =~= before.subrange(0, first as int));
            }
            assert(token_ok(s, toks@.last(), toks@.len() - 1 == first));
            assert forall|k: int| first <= k < toks@.len() implies token_ok(s, #[trigger] toks@[k], k == first) && toks@[k].kind != Kind::Newline by {
                if k < before.len() {
                    assert(toks@[k] == before[k]);
                }
            }
            if before.len() > first {
                assert(toks@[first as int] == before[first as int]);
            }
        }
        j = e;
    }
    let ghost body_end_len = toks@.len();
    if j < src.len() {
        let e = if src[j] == 13 && j + 1 < src.len() && src[j + 1] == 10 { j + 2 } else { j + 1 };
        let ghost before = toks@;
        push_tok(toks, Kind::Newline, j, e, Ghost(n));
        proof {
            assert(toks@.subrange(0, first as int) =~= t0) by {
                assert(toks@.subrange(0, first as int) =~= before.subrange(0, first as int));
            }
            if before.len() == first {
                assert(!is_blank(s[j as int]));
            }
            assert(token_ok(s, toks@.last(), toks@.len() - 1 == first));
            assert forall|k: int| first <= k < toks@.len() implies token_ok(s, #[trigger] toks@[k], k == first) by {
                if k < before.len() {
                    assert(toks@[k] == before[k]);
                }
            }
            assert forall|k: int| first <= k < toks@.len() - 1 implies (#[trigger] toks@[k]).kind != Kind::Newline by {
                assert(toks@[k] == before[k]);
            }
            if before.len() > first {
                assert(toks@[first as int] == before[first as int]);
            }
        }
        j = e;
    }
    let indent = if blank { 4294967295u32 } else { indent_cols };
    proof {
        reveal(line_ok);
        let l = LineSpan { indent, first: first as u32, end: toks@.len() as u32 };
        assert(toks@[first as int].start == ws_start);
        assert(indent == indent_of(s, ws_start as int));
        assert(l.first as int == first as int);
        assert(l.end as int == toks@.len());
        assert(toks@[l.end - 1].kind == Kind::Newline || tok_end(toks@[l.end - 1]) == s.len());
    }
    (j, indent)
}

/// A line read from a shorter token list still reads the same once more
/// tokens follow it.
proof fn lemma_line_ok_extend(s: Seq<u8>, ts: Seq<Tok>, us: Seq<Tok>, l: LineSpan)
    requires
        line_ok(s, ts, l),
        ts.len() <= us.len(),
        us.subrange(0, ts.len() as int) == ts,
    ensures
        line_ok(s, us, l),
{
    reveal(line_ok);
    assert forall|k: int| 0 <= k < ts.len() implies us[k] == ts[k] by {
        assert(us.subrange(0, ts.len() as int)[k] == us[k]);
    }
    assert forall|k: int| l.first <= k < l.end implies token_ok(s, #[trigger] us[k], k == l.first) by {
        assert(us[k] == ts[k]);
    }
    assert forall|k: int| l.first <= k < l.end - 1 implies (#[trigger] us[k]).kind != Kind::Newline by {
        assert(us[k] == ts[k]);
    }
    assert(us[l.end - 1] == ts[l.end - 1]);
    assert(us[l.first as int] == ts[l.first as int]);
}

/// Lines read so far stay read, and one more line continues the partition.
proof fn lemma_push_line(s: Seq<u8>, t0: Seq<Tok>, ts: Seq<Tok>, l0: Seq<LineSpan>, l: LineSpan)
    requires
        lines_partition(l0, t0.len() as int),
        forall|j: int| 0 <= j < l0.len() ==> line_ok(s, t0, #[trigger] l0[j]),
        t0.len() < ts.len(),
        ts.subrange(0, t0.len() as int) == t0,
        l.first == t0.len(),
        l.end == ts.len(),
        line_ok(s, ts, l),
    ensures
        lines_partition(l0.push(l), ts.len() as int),
        forall|j: int| 0 <= j < l0.push(l).len() ==> line_ok(s, ts, #[trigger] l0.push(l)[j]),
{
    let ls = l0.push(l);
    assert forall|j: int| 0 <= j < ls.len() implies line_ok(s, ts, #[trigger] ls[j]) by {
        if j < l0.len() {
            assert(ls[j] == l0[j]);
            lemma_line_ok_extend(s, t0, ts, l0[j]);
        }
    }
    assert forall|j: int| 0 <= j < ls.len() implies (#[trigger] ls[j]).first < ls[j].end by {
        if j < l0.len() {
            assert(ls[j] == l0[j]);
        }
    }
    assert forall|j: int| 0 < j < ls.len() implies (#[trigger] ls[j]).first == ls[j - 1].end by {
        if j < l0.len() {
            assert(ls[j] == l0[j] && ls[j - 1] == l0[j - 1]);
        } else {
            assert(ls[j - 1] == l0.last());
        }
    }
    if l0.len() > 0 {
        assert(ls[0] == l0[0]);
    }
}

/// Tokenize `src`. Total: every byte is covered exactly once, in order.
pub fn lex(src: &[u8]) -> (out: Lexed)
    requires
        src@.len() <= u32::MAX,
    ensures
        lexes(src@, out.toks@, out.lines@),
{
    let mut toks: Vec<Tok> = Vec::new();
    let mut lines: Vec<LineSpan> = Vec::new();
    let mut i: usize = 0;
    while i < src.len()
        invariant
            src@.len() <= u32::MAX,
            i <= src@.len(),
            toks@.len() <= i,
            tiles_to(toks@, i as int),
            lines_partition(lines@, toks@.len() as int),
            forall|j: int| 0 <= j < lines@.len() ==> line_ok(src@, toks@, #[trigger] lines@[j]),
        decreases src@.len() - i,
    {
        let ghost t0 = toks@;
        let ghost l0 = lines@;
        let first = toks.len();
        let (next, indent) = lex_line(src, &mut toks, i);
        let l = LineSpan { indent, first: first as u32, end: toks.len() as u32 };
        proof {
            lemma_push_line(src@, t0, toks@, l0, l);
        }
        lines.push(l);
        i = next;
    }
    Lexed { toks, lines }
}

// --- what the tokens cover ----------------------------------------------------------

/// The bytes a token covers.
pub open spec fn tok_bytes(s: Seq<u8>, t: Tok) -> Seq<u8> {
    s.subrange(t.start as int, tok_end(t))
}

/// The bytes of a sequence of tokens, in order.
pub open spec fn toks_text(s: Seq<u8>, ts: Seq<Tok>) -> Seq<u8>
    decreases ts.len(),
{
    if ts.len() == 0 { Seq::empty() } else { toks_text(s, ts.drop_last()) + tok_bytes(s, ts.last()) }
}

/// The sum of the tokens' lengths.
pub open spec fn tok_sum(ts: Seq<Tok>) -> nat
    decreases ts.len(),
{
    if ts.len() == 0 { 0 } else { tok_sum(ts.drop_last()) + ts.last().len as nat }
}

/// Whether every token lies inside `s` and every line's token range inside
/// the tokens: what building a tree from them needs.
pub open spec fn fits(s: Seq<u8>, ts: Seq<Tok>, ls: Seq<LineSpan>) -> bool {
    &&& forall|k: int| 0 <= k < ts.len() ==> tok_end(#[trigger] ts[k]) <= s.len()
    &&& forall|j: int| 0 <= j < ls.len() ==> (#[trigger] ls[j]).first <= ls[j].end && ls[j].end <= ts.len()
}

/// The bytes of line `l`'s tokens.
pub open spec fn line_text(s: Seq<u8>, ts: Seq<Tok>, l: LineSpan) -> Seq<u8> {
    toks_text(s, ts.subrange(l.first as int, l.end as int))
}

/// The bytes of lines `a..b`, in order.
pub open spec fn lines_text(s: Seq<u8>, ts: Seq<Tok>, ls: Seq<LineSpan>, a: int, b: int) -> Seq<u8>
    decreases b - a,
{
    if a >= b { Seq::empty() } else { line_text(s, ts, ls[a]) + lines_text(s, ts, ls, a + 1, b) }
}

/// Whether `parents` is the nesting plan [`nesting`] computes for `ls`.
pub open spec fn is_plan(ls: Seq<LineSpan>, parents: Seq<u32>) -> bool {
    parents.len() == ls.len() && forall|j: int| 0 <= j < ls.len() ==> parents[j] == #[trigger] parent_code(ls, j)
}

impl Lexed {
    /// Total bytes covered by the token stream: the input's length after
    /// [`lex`].
    pub fn covered(&self) -> (r: usize)
        requires
            tok_sum(self.toks@) <= usize::MAX,
        ensures
            r == tok_sum(self.toks@),
    {
        let mut total: usize = 0;
        let mut i: usize = 0;
        while i < self.toks.len()
            invariant
                i <= self.toks@.len(),
                tok_sum(self.toks@) <= usize::MAX,
                total == tok_sum(self.toks@.take(i as int)),
            decreases self.toks@.len() - i,
        {
            proof {
                assert(self.toks@.take(i + 1).drop_last() =~= self.toks@.take(i as int));
                lemma_tok_sum_prefix(self.toks@, i + 1);
            }
            total = total + self.toks[i].len as usize;
            i = i + 1;
        }
        proof {
            assert(self.toks@.take(i as int) =~= self.toks@);
        }
        total
    }
}

proof fn lemma_tok_sum_prefix(ts: Seq<Tok>, k: int)
    requires
        0 <= k <= ts.len(),
    ensures
        tok_sum(ts.take(k)) <= tok_sum(ts),
    decreases ts.len(),
{
    if k < ts.len() {
        assert(ts.drop_last().take(k) =~= ts.take(k));
        lemma_tok_sum_prefix(ts.drop_last(), k);
    } else {
        assert(ts.take(k) =~= ts);
    }
}

/// Tokens that tile `0..n` of `s` cover its first `n` bytes, in order.
pub proof fn lemma_tiles_text(s: Seq<u8>, ts: Seq<Tok>, n: int)
    requires
        tiles_to(ts, n),
        n <= s.len(),
    ensures
        toks_text(s, ts) == s.take(n),
        tok_sum(ts) == n,
    decreases ts.len(),
{
    if ts.len() > 0 {
        let init = ts.drop_last();
        let m = ts.last().start as int;
        assert(tiles_to(init, m)) by {
            assert forall|k: int| 0 <= k < init.len() implies (#[trigger] init[k]).len >= 1 by {
                assert(init[k] == ts[k]);
            }
            assert forall|k: int| 0 < k < init.len() implies (#[trigger] init[k]).start == tok_end(init[k - 1]) by {
                assert(init[k] == ts[k] && init[k - 1] == ts[k - 1]);
            }
            if init.len() > 0 {
                assert(init[0] == ts[0]);
                assert(init.last() == ts[ts.len() - 2]);
            }
        }
        assert(0 <= m);
        lemma_tiles_text(s, init, m);
        assert(s.take(m) + s.subrange(m, n) =~= s.take(n));
    }
}

/// The tokenizer is lossless: what [`lex`] reads covers the input exactly,
/// so the tokens' bytes concatenate back to it and their lengths sum to its
/// length.
pub proof fn lemma_lex_is_lossless(s: Seq<u8>, toks: Seq<Tok>, lines: Seq<LineSpan>)
    requires
        lexes(s, toks, lines),
    ensures
        toks_text(s, toks) == s,
        tok_sum(toks) == s.len(),
        fits(s, toks, lines),
{
    lemma_tiles_text(s, toks, s.len() as int);
    assert(s.take(s.len() as int) =~= s);
    lemma_tiles_bound(toks, s.len() as int);
    assert forall|j: int| 0 <= j < lines.len() implies (#[trigger] lines[j]).first <= lines[j].end && lines[j].end <= toks.len() by {
        assert(line_ok(s, toks, lines[j]));
        reveal(line_ok);
    }
}

proof fn lemma_tiles_bound(ts: Seq<Tok>, n: int)
    requires
        tiles_to(ts, n),
    ensures
        forall|k: int| 0 <= k < ts.len() ==> tok_end(#[trigger] ts[k]) <= n,
    decreases ts.len(),
{
    if ts.len() > 0 {
        let init = ts.drop_last();
        let m = ts.last().start as int;
        assert(tiles_to(init, m)) by {
            assert forall|k: int| 0 <= k < init.len() implies (#[trigger] init[k]).len >= 1 by {
                assert(init[k] == ts[k]);
            }
            assert forall|k: int| 0 < k < init.len() implies (#[trigger] init[k]).start == tok_end(init[k - 1]) by {
                assert(init[k] == ts[k] && init[k - 1] == ts[k - 1]);
            }
            if init.len() > 0 {
                assert(init[0] == ts[0]);
                assert(init.last() == ts[ts.len() - 2]);
            }
        }
        lemma_tiles_bound(init, m);
        assert forall|k: int| 0 <= k < ts.len() implies tok_end(#[trigger] ts[k]) <= n by {
            if k < init.len() {
                assert(ts[k] == init[k]);
            }
        }
    }
}

/// The lines of a lexed input, read in order, are the input.
pub proof fn lemma_lines_cover(s: Seq<u8>, toks: Seq<Tok>, lines: Seq<LineSpan>)
    requires
        lexes(s, toks, lines),
    ensures
        lines_text(s, toks, lines, 0, lines.len() as int) == s,
{
    lemma_lex_is_lossless(s, toks, lines);
    if lines.len() == 0 {
        assert(toks.len() == 0);
        assert(s.len() == 0);
        assert(s =~= Seq::<u8>::empty());
    } else {
        lemma_lines_text_range(s, toks, lines, 0);
        assert(toks.subrange(0, toks.len() as int) =~= toks);
    }
}

pub(crate) proof fn lemma_toks_text_append(s: Seq<u8>, a: Seq<Tok>, b: Seq<Tok>)
    ensures
        toks_text(s, a + b) == toks_text(s, a) + toks_text(s, b),
    decreases b.len(),
{
    if b.len() == 0 {
        assert(a + b =~= a);
    } else {
        assert((a + b).drop_last() =~= a + b.drop_last());
        lemma_toks_text_append(s, a, b.drop_last());
    }
}

/// Lines `a..` of a partition read as the tokens from line `a`'s first on.
#[verifier::rlimit(40)]
proof fn lemma_lines_text_range(s: Seq<u8>, toks: Seq<Tok>, lines: Seq<LineSpan>, a: int)
    requires
        lines_partition(lines, toks.len() as int),
        forall|j: int| 0 <= j < lines.len() ==> (#[trigger] lines[j]).end <= toks.len(),
        0 <= a < lines.len(),
    ensures
        lines_text(s, toks, lines, a, lines.len() as int) == toks_text(s, toks.subrange(lines[a].first as int, toks.len() as int)),
    decreases lines.len() - a,
{
    let l = lines[a];
    if a + 1 < lines.len() {
        lemma_lines_text_range(s, toks, lines, a + 1);
        assert(lines[a + 1].first == l.end);
        assert(toks.subrange(l.first as int, toks.len() as int) =~= toks.subrange(l.first as int, l.end as int) + toks.subrange(l.end as int, toks.len() as int));
        lemma_toks_text_append(s, toks.subrange(l.first as int, l.end as int), toks.subrange(l.end as int, toks.len() as int));
    } else {
        assert(l.end == toks.len());
        assert(lines_text(s, toks, lines, a + 1, lines.len() as int) =~= Seq::<u8>::empty());
        assert(line_text(s, toks, l) + Seq::<u8>::empty() =~= line_text(s, toks, l));
    }
}

} // verus!
